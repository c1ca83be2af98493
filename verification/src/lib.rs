//! A small text-retrieval library: a tokenizer that normalizes raw text into
//! case-folded alphanumeric tokens, per-page and per-document term-frequency
//! tables, and an ordered corpus of documents that exposes the integer
//! ingredients of TF-IDF relevance scoring.

pub mod document;
pub mod freq;
pub mod index;
pub mod lexer;
