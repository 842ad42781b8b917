//! Verified core of a local retrieval-augmented generation (RAG) system:
//! reading JSON files into documents, local bag-of-words embedding plans,
//! ranking documents by relevance, building the prompt for the chat model,
//! and the decisions of the chat session and of the inspection commands.

pub mod chat;
pub mod config;
pub mod documents;
pub mod embeddings;
pub mod llm;
pub mod ranking;
pub mod retrieval;
pub mod text;
