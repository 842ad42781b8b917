use std::collections::hash_map::DefaultHasher;
use std::hash::{Hash, Hasher};

use rust_rag::embeddings::{simple_embedding_plan, EmbeddingGenerator, EmbeddingJob, EMBEDDING_DIM};

fn std_hash(s: &str) -> u64 {
    let mut h = DefaultHasher::new();
    s.hash(&mut h);
    h.finish()
}

#[test]
fn text_without_words_has_no_contributions() {
    let p = simple_embedding_plan("  \n\t ");
    assert_eq!(p.word_count, 0);
    assert_eq!(p.text_bytes, 5);
    assert!(p.word_slots.is_empty());
    assert!(p.ngram_slots.is_empty());
}

#[test]
fn words_and_trigrams_hash_to_dimensions() {
    let p = simple_embedding_plan("Hello World");
    assert_eq!(p.word_count, 2);
    assert_eq!(p.text_bytes, 11);
    let mut expected_words = Vec::new();
    for w in ["hello", "world"] {
        let h = std_hash(w);
        for i in 0..3u64 {
            expected_words.push((h.wrapping_add(i) as usize) % EMBEDDING_DIM);
        }
    }
    assert_eq!(p.word_slots, expected_words);
    let lower: Vec<char> = "hello world".chars().collect();
    let expected_ngrams: Vec<usize> = lower
        .windows(3)
        .map(|w| (std_hash(&w.iter().collect::<String>()) as usize) % EMBEDDING_DIM)
        .collect();
    assert_eq!(expected_ngrams.len(), 9);
    assert_eq!(p.ngram_slots, expected_ngrams);
}

#[test]
fn letter_case_does_not_matter() {
    let a = simple_embedding_plan("Rust OWNERSHIP rules");
    let b = simple_embedding_plan("rust ownership RULES");
    assert_eq!(a.word_slots, b.word_slots);
    assert_eq!(a.ngram_slots, b.ngram_slots);
    assert_eq!(a.word_count, b.word_count);
    assert_eq!(a.text_bytes, b.text_bytes);
}

#[test]
fn byte_length_of_lower_case_text() {
    let p = simple_embedding_plan("ÄÖ x");
    assert_eq!(p.text_bytes, "äö x".len());
    assert_eq!(p.word_count, 2);
}

#[test]
fn every_dimension_is_in_range() {
    let p = simple_embedding_plan("The quick brown fox jumps over the lazy dog, 42 times!");
    assert!(p.word_slots.iter().all(|&d| d < EMBEDDING_DIM));
    assert!(p.ngram_slots.iter().all(|&d| d < EMBEDDING_DIM));
    assert_eq!(p.word_slots.len(), 3 * p.word_count);
}

#[test]
fn remote_embeddings_ask_ollama_with_the_text() {
    let g = EmbeddingGenerator::new(false);
    assert!(matches!(g.generate_embedding("some text"), EmbeddingJob::Ollama(p) if p == "some text"));
    let texts = vec!["a".to_string(), "b c".to_string()];
    let jobs = g.generate_embeddings(&texts);
    assert_eq!(jobs.len(), 2);
    assert!(matches!(&jobs[1], EmbeddingJob::Ollama(p) if p == "b c"));
    assert!(g.generate_embeddings(&[]).is_empty());
}

fn plan(job: EmbeddingJob) -> rust_rag::embeddings::EmbeddingPlan {
    match job {
        EmbeddingJob::Local(p) => p,
        EmbeddingJob::Ollama(_) => panic!("expected a local plan"),
    }
}

#[test]
fn local_embeddings_for_each_text() {
    let g = EmbeddingGenerator::new(true);
    let texts = vec!["one two".to_string(), "three".to_string()];
    let plans: Vec<_> = g.generate_embeddings(&texts).into_iter().map(plan).collect();
    assert_eq!(plans.len(), 2);
    assert_eq!(plans[0].word_count, 2);
    assert_eq!(plans[1].word_count, 1);
    let single = plan(g.generate_embedding("three"));
    assert_eq!(single.word_slots, plans[1].word_slots);
    assert_eq!(g.simple_embedding("three").ngram_slots, plans[1].ngram_slots);
}
