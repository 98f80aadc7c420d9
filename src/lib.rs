//! Cleaning of HTML documents: a token-level filter that drops `script`,
//! `style` and `form` subtrees, and byte-level passes that prune the head
//! and body regions of a document.

pub mod search;
pub mod prune;
pub mod document;
pub mod filter;
