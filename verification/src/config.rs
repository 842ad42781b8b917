//! Configuration of the system: where its data is kept and which model it
//! talks to.
use vstd::prelude::*;

verus! {

/// The kind of model that produces answers.
#[derive(Debug, Clone, Copy, PartialEq, Eq, Structural)]
pub enum ModelType {
    Ollama,
    LocalBert,
}

/// Settings of the system. Paths are kept as text.
#[derive(Debug, Clone)]
pub struct Config {
    pub storage_path: String,
    pub embeddings_path: String,
    pub model_type: ModelType,
    pub ollama_url: String,
    pub ollama_model: String,
}

impl Default for Config {
    /// The default settings: data under `./data/`, the Ollama model
    /// `llama3.2` at `http://localhost:11434`.
    fn default() -> (c: Self)
        ensures
            c.storage_path@ == "./data/documents.json"@,
            c.embeddings_path@ == "./data/embeddings.json"@,
            c.model_type == ModelType::Ollama,
            c.ollama_url@ == "http://localhost:11434"@,
            c.ollama_model@ == "llama3.2"@,
    {
        Config {
            storage_path: String::from_str("./data/documents.json"),
            embeddings_path: String::from_str("./data/embeddings.json"),
            model_type: ModelType::Ollama,
            ollama_url: String::from_str("http://localhost:11434"),
            ollama_model: String::from_str("llama3.2"),
        }
    }
}

} // verus!
