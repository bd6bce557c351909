//! A small full-text search library: documents are tokenized into word
//! counts and sentences, stored in an in-memory storage engine that keeps a
//! reverse index from tokens to the documents that contain them.

pub mod text;
pub mod tokenizer;
pub mod filter;
pub mod document;
pub mod storage_engine;
pub mod query_options;
pub mod query_result;
pub mod index;
