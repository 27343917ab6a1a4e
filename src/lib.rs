//! Retrieval over a hierarchical note collection: top-K similarity
//! selection, ancestor resolution, and reconstruction of the pruned result
//! forest.

pub mod db;
pub mod embeddings;
pub mod error;
pub mod lex;
pub mod prompting;
pub mod result_forest;
pub mod roam;
pub mod search;
