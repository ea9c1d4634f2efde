//! Integer and string constants of the search pipeline.

use vstd::prelude::*;

verus! {

/// Default snippet length, in characters.
pub const DEFAULT_SNIPPET_LENGTH: u32 = 300;

/// Divisor used to convert snippet length (chars) to a token-count budget for
/// the FTS5 `snippet()` function.
pub const BM25_TOKENS_PER_CHAR_DIV: u32 = 4;

/// Minimum token budget passed to the FTS5 `snippet()` function.
pub const BM25_MIN_TOKENS: u32 = 10;

/// Trigram length used by fuzzy retrieval and overlap scoring.
pub const TRIGRAM_LEN: usize = 3;

/// Minimum alias length for trigram overlap scoring.
pub const FUZZY_ALIAS_MIN_LEN: usize = 3;

/// LRU eviction threshold for the on-disk LLM cache table.
pub const LLM_CACHE_LIMIT: u32 = 1000;

/// Rank threshold separating top from mid rerank candidates.
pub const RERANK_TOP_RANK_THRESHOLD: usize = 10;

/// Rank threshold separating mid from low rerank candidates.
pub const RERANK_MID_RANK_THRESHOLD: usize = 20;

/// Sentinel FTS query used when the input query reduces to nothing.
pub const LITERAL_EMPTY_FTS: &'static str = "\"\"";

/// Strong-match probe: BM25 result count in hybrid search.
pub const HYBRID_PROBE_LEXICAL_LIMIT: u32 = 2;

/// Strong-match probe: title result count in hybrid search.
pub const HYBRID_PROBE_TITLE_LIMIT: u32 = 1;

/// Minimum candidate pool size fetched from each retriever before fusion.
pub const CANDIDATE_FLOOR: u32 = 40;

/// [`CANDIDATE_FLOOR`] as the type of a request's candidate limit.
pub const CANDIDATE_FLOOR_U16: u16 = 40;

/// Maximum candidates sent to the cross-encoder reranker per call.
pub const RERANK_TOP_K: u32 = 40;

/// Default LRU size for the in-process hybrid result cache.
pub const GLOBAL_HYBRID_CACHE_SIZE: usize = 100;

/// Default chunk size in tokens for the markdown splitter.
pub const EMBED_CHUNK_TOKENS_DEFAULT: usize = 512;

/// Default overlap in tokens between adjacent chunks.
pub const EMBED_CHUNK_OVERLAP_DEFAULT: usize = 64;

/// Minimum token count below which a post-split chunk is discarded.
pub const CHUNK_MIN_TOKENS_DEFAULT: usize = 16;

} // verus!
