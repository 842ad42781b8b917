use rust_rag::llm::LlmClient;
use rust_rag::retrieval::{query_prompt, select_context};

#[test]
fn context_holds_the_best_documents_first() {
    let contents = vec!["alpha".to_string(), "beta".to_string(), "gamma".to_string(), "delta".to_string()];
    let relevance = vec!["0.10".to_string(), "0.90".to_string(), "n/a".to_string(), "0.50".to_string()];
    let scores = vec![Some(10), Some(90), None, Some(50)];
    let ctx = select_context(&contents, &relevance, &scores, 2);
    assert_eq!(
        ctx,
        vec![("beta".to_string(), "0.90".to_string()), ("delta".to_string(), "0.50".to_string())]
    );
    let all = select_context(&contents, &relevance, &scores, 9);
    assert_eq!(all.len(), 3);
    assert_eq!(all[2].0, "alpha");
}

#[test]
fn query_prompt_presents_the_context() {
    let llm = LlmClient::new(String::new());
    let contents = vec!["low".to_string(), "high".to_string()];
    let relevance = vec!["0.20".to_string(), "0.80".to_string()];
    let scores = vec![Some(2), Some(8)];
    let p = query_prompt(&llm, "why?", &contents, &relevance, &scores, 1);
    assert_eq!(p, llm.build_rag_prompt("why?", &[("high".to_string(), "0.80".to_string())]));
}
