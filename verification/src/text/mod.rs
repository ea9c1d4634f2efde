//! Text processing, frontmatter helpers, and markdown chunking helpers.

pub mod chunker;
pub mod frontmatter;
pub mod nfd;
pub mod processing;
pub mod processing_wikilink;
pub mod unicode;

pub use nfd::normalize as normalize_text_nfd;
pub use processing::{
    LineSpan, ParsedWikiLink, TOKEN_CHAR_RATIO, estimate_tokens, is_fence_line, is_heading_line,
    normalize_keyword, normalize_vault_path, parse_wikilink, split_lines, strip_heading_text,
    strip_outer_quotes,
};
