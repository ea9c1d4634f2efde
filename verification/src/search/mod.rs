//! Search helpers: query syntax, FTS query construction, pool sizing and
//! match-text building.

pub mod anchor;
pub mod cache;
pub mod chunk_excerpt;
pub mod constants;
pub mod fuse;
pub mod input;
pub mod hybrid_pipeline;
pub mod intent;
pub mod intent_alignment;
pub mod match_text;
pub mod output;
pub mod pool;
pub mod pre_filter;
pub mod query_syntax;
pub mod rerank;
pub mod retrieval;
pub mod rrf;
pub mod text_fts;
