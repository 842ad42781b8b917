use rust_rag::config::{Config, ModelType};

#[test]
fn default_configuration() {
    let c = Config::default();
    assert_eq!(c.storage_path, "./data/documents.json");
    assert_eq!(c.embeddings_path, "./data/embeddings.json");
    assert_eq!(c.model_type, ModelType::Ollama);
    assert_eq!(c.ollama_url, "http://localhost:11434");
    assert_eq!(c.ollama_model, "llama3.2");
    let copy = c.clone();
    assert_eq!(copy.ollama_model, c.ollama_model);
    assert_ne!(ModelType::LocalBert, ModelType::Ollama);
}
