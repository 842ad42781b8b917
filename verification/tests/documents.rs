use rust_rag::documents::{
    create_document_from_json, document_stats, find_document, load_json_documents, DocumentStats,
    DocumentSummary, LoadError,
};
use rust_rag::documents::has_json_extension;
use std::path::Path;
use rust_rag::embeddings::{simple_embedding_plan, EmbeddingGenerator, EmbeddingJob};

#[test]
fn array_items_become_numbered_documents() {
    let g = EmbeddingGenerator::new(true);
    let text = r#"[{"id": "doc1", "title": "Getting Started with Rust"}, {"id": "doc2"}]"#;
    let docs = load_json_documents(&g, "data/docs.json", text).unwrap();
    assert_eq!(docs.len(), 2);
    assert_eq!(docs[0].id, "data/docs.json#0");
    assert_eq!(docs[1].id, "data/docs.json#1");
    let value: serde_json::Value = serde_json::from_str(text).unwrap();
    assert_eq!(docs[0].content, serde_json::to_string_pretty(&value[0]).unwrap());
    assert_eq!(docs[1].metadata, value[1]);
    let plan = simple_embedding_plan(&docs[0].content);
    match &docs[0].embedding {
        EmbeddingJob::Local(p) => {
            assert_eq!(p.word_slots, plan.word_slots);
            assert_eq!(p.ngram_slots, plan.ngram_slots);
        }
        EmbeddingJob::Ollama(_) => panic!("expected a local plan"),
    }
}

#[test]
fn object_is_one_document() {
    let g = EmbeddingGenerator::new(true);
    let text = r#"{"id": "x", "content": "Ownership and borrowing"}"#;
    let docs = load_json_documents(&g, "one.json", text).unwrap();
    assert_eq!(docs.len(), 1);
    assert_eq!(docs[0].id, "one.json");
    let value: serde_json::Value = serde_json::from_str(text).unwrap();
    assert_eq!(docs[0].content, serde_json::to_string_pretty(&value).unwrap());
}

#[test]
fn empty_array_has_no_documents() {
    let g = EmbeddingGenerator::new(true);
    assert_eq!(load_json_documents(&g, "e.json", "[]").unwrap().len(), 0);
}

#[test]
fn scalars_are_not_supported() {
    let g = EmbeddingGenerator::new(true);
    assert!(matches!(load_json_documents(&g, "n.json", "42"), Err(LoadError::Unsupported)));
    assert!(matches!(load_json_documents(&g, "s.json", "\"text\""), Err(LoadError::Unsupported)));
}

#[test]
fn invalid_json_is_an_error() {
    let g = EmbeddingGenerator::new(true);
    assert!(matches!(load_json_documents(&g, "bad.json", "{not json"), Err(LoadError::Json(_))));
}

#[test]
fn remote_embeddings_ask_for_the_content() {
    let g = EmbeddingGenerator::new(false);
    let docs = load_json_documents(&g, "a.json", r#"[{"a": 1}]"#).unwrap();
    assert_eq!(docs.len(), 1);
    assert!(matches!(&docs[0].embedding, EmbeddingJob::Ollama(p) if *p == docs[0].content));
    let v: serde_json::Value = serde_json::from_str("{}").unwrap();
    let d = create_document_from_json(&g, "id", &v);
    assert_eq!(d.id, "id");
    assert_eq!(d.content, "{}");
    assert_eq!(d.metadata, v);
    let g = EmbeddingGenerator::new(true);
    let d = create_document_from_json(&g, "id", &v);
    assert!(matches!(d.embedding, EmbeddingJob::Local(_)));
}

#[test]
fn statistics_of_documents() {
    let docs = vec![
        DocumentSummary { content_len: 10, embedding_dim: Some(384) },
        DocumentSummary { content_len: 5, embedding_dim: None },
        DocumentSummary { content_len: 6, embedding_dim: Some(384) },
    ];
    assert_eq!(
        document_stats(&docs),
        Some(DocumentStats {
            total_docs: 3,
            total_chars: 21,
            avg_chars: 7,
            with_embeddings: 2,
            embedding_dim: 384,
        })
    );
    let first_without = vec![DocumentSummary { content_len: 3, embedding_dim: None }];
    assert_eq!(document_stats(&first_without).unwrap().embedding_dim, 0);
    assert_eq!(document_stats(&[]), None);
}

#[test]
fn average_rounds_down() {
    let docs = vec![
        DocumentSummary { content_len: 3, embedding_dim: None },
        DocumentSummary { content_len: 4, embedding_dim: None },
    ];
    assert_eq!(document_stats(&docs).unwrap().avg_chars, 3);
}

#[test]
fn finding_documents_by_id() {
    let ids = vec!["a#0".to_string(), "b".to_string(), "a#0".to_string()];
    assert_eq!(find_document(&ids, "a#0"), Some(0));
    assert_eq!(find_document(&ids, "b"), Some(1));
    assert_eq!(find_document(&ids, "c"), None);
    assert_eq!(find_document(&[], "a"), None);
}

#[test]
fn arrays_and_objects_always_load() {
    for simple in [true, false] {
        let g = EmbeddingGenerator::new(simple);
        assert_eq!(load_json_documents(&g, "e.json", "[]").unwrap().len(), 0);
        let docs = load_json_documents(&g, "o.json", "{\"k\": true}").unwrap();
        assert_eq!(docs.len(), 1);
        assert_eq!(docs[0].metadata, serde_json::from_str::<serde_json::Value>("{\"k\": true}").unwrap());
        assert!(matches!(load_json_documents(&g, "n.json", "null"), Err(LoadError::Unsupported)));
    }
}

#[test]
fn nested_values_are_pretty_printed() {
    let g = EmbeddingGenerator::new(true);
    let docs = load_json_documents(&g, "x", r#"[[1, 2], {"a": {"b": null}}, "s"]"#).unwrap();
    assert_eq!(docs.len(), 3);
    assert_eq!(docs[0].content, "[\n  1,\n  2\n]");
    assert_eq!(docs[2].content, "\"s\"");
    assert_eq!(docs[2].id, "x#2");
}

#[test]
fn json_file_names_match_path_extension() {
    for name in ["a.json", ".json", "a.JSON", "json", "a.json.bak", "x..json", "doc.json", "é.json", ".a.json", ""] {
        let std_says = Path::new(name).extension().and_then(|s| s.to_str()) == Some("json");
        assert_eq!(has_json_extension(name), std_says, "{:?}", name);
    }
}
