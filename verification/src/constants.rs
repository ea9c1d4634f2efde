//! Defaults shared by the tool contracts.

use vstd::prelude::*;

verus! {

/// Default result limit.
pub const DEFAULT_LIMIT: u16 = 10;

/// Default traversal depth for related-note queries.
pub const RELATED_DEFAULT_DEPTH: u8 = 1;

} // verus!
