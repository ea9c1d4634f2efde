//! Search result types.

use vstd::prelude::*;

verus! {

/// Match provenance for a search result.
#[derive(Debug, Clone, Copy, PartialEq, Eq, Structural)]
pub enum MatchKind {
    /// Full-text match.
    Fulltext,
    /// Semantic/vector match.
    Semantic,
    /// Title match.
    Title,
    /// Alias match.
    Alias,
    /// Related-note match.
    Related,
}

/// Which retrieval strategy produced an anchor.
#[derive(Debug, Clone, Copy, PartialEq, Eq, Structural)]
pub enum AnchorKind {
    /// BM25 / lexical match: positionally precise, fragment-level.
    Bm25,
    /// Semantic / vector match: chunk-level with char offsets.
    Semantic,
}

/// A scroll-to / highlight anchor for a specific block inside the source note.
#[derive(Debug, Clone, PartialEq, Eq)]
pub struct MatchAnchor {
    /// Retrieval strategy that produced this anchor.
    pub kind: AnchorKind,
    /// Heading chain above the matching block (e.g. `"Section > Sub"`).
    pub heading_path: Option<String>,
    /// DOM-matchable text derived from the block (first 80 chars, syntax stripped).
    pub match_text: String,
    /// Char offset of the block start relative to the note body.
    pub char_start: Option<u32>,
    /// Char offset of the block end relative to the note body.
    pub char_end: Option<u32>,
}

} // verus!
