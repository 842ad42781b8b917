use rust_rag::llm::{chat_answer, is_success_status, ChatResponse, LlmClient, LlmError};

fn reply(response: &str, text: &str, content: &str) -> ChatResponse {
    ChatResponse {
        response: response.to_string(),
        text: text.to_string(),
        content: content.to_string(),
    }
}

#[test]
fn prompt_lists_documents_in_order() {
    let llm = LlmClient::new("http://localhost:11434/api/generate".to_string());
    assert_eq!(llm.chat_url(), "http://localhost:11434/api/generate");
    let docs = vec![
        ("first doc".to_string(), "0.93".to_string()),
        ("second doc".to_string(), "0.50".to_string()),
    ];
    let prompt = llm.build_rag_prompt("What is Rust?", &docs);
    let expected = "You are a helpful AI assistant. Answer the question based on the provided context.\n\n\
Context:\n\
Document 1 (relevance: 0.93):\nfirst doc\n\n\
Document 2 (relevance: 0.50):\nsecond doc\n\n\
Question: What is Rust?\n\nAnswer based on the context above:";
    assert_eq!(prompt, expected);
}

#[test]
fn prompt_without_context() {
    let llm = LlmClient::new(String::new());
    let prompt = llm.build_rag_prompt("Q", &[]);
    assert_eq!(
        prompt,
        "You are a helpful AI assistant. Answer the question based on the provided context.\n\nContext:\nQuestion: Q\n\nAnswer based on the context above:"
    );
}

#[test]
fn twelfth_document_is_numbered_12() {
    let llm = LlmClient::new(String::new());
    let docs: Vec<(String, String)> = (0..12).map(|i| (format!("d{}", i), "1.00".to_string())).collect();
    let prompt = llm.build_rag_prompt("q", &docs);
    assert!(prompt.contains("Document 12 (relevance: 1.00):\nd11\n\n"));
    assert!(!prompt.contains("Document 13"));
}

#[test]
fn reply_fields_in_order_of_preference() {
    assert_eq!(reply("a", "b", "c").into_text(), Ok("a".to_string()));
    assert_eq!(reply("", "b", "c").into_text(), Ok("b".to_string()));
    assert_eq!(reply("", "", "c").into_text(), Ok("c".to_string()));
    assert_eq!(reply("", "", "").into_text(), Err(LlmError::EmptyResponse));
}

#[test]
fn status_classes() {
    assert!(is_success_status(200));
    assert!(is_success_status(299));
    assert!(!is_success_status(199));
    assert!(!is_success_status(300));
    assert!(!is_success_status(404));
}

#[test]
fn answers_from_status_and_body() {
    assert_eq!(
        chat_answer(500, "boom".to_string(), None),
        Err(LlmError::Api { status: 500, body: "boom".to_string() })
    );
    assert_eq!(
        chat_answer(404, String::new(), Some(reply("ignored", "", ""))),
        Err(LlmError::Api { status: 404, body: String::new() })
    );
    assert_eq!(chat_answer(200, String::new(), Some(reply("", "hi", ""))), Ok("hi".to_string()));
    assert_eq!(chat_answer(201, String::new(), Some(reply("", "", ""))), Err(LlmError::EmptyResponse));
}
