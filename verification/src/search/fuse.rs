//! Rerank blending: the rank tier that chooses how much a candidate's
//! hybrid score is trusted against its cross-encoder score.

use vstd::prelude::*;

use super::constants::{RERANK_MID_RANK_THRESHOLD, RERANK_TOP_RANK_THRESHOLD};

verus! {

/// The rank tier of a rerank candidate: top candidates trust the hybrid
/// score most, low ones trust the rerank score most.
#[derive(Debug, Clone, Copy, PartialEq, Eq, Structural)]
pub enum RerankTier {
    /// Ranks `0..10`.
    Top,
    /// Ranks `10..20`.
    Mid,
    /// Ranks `20..`.
    Low,
}

/// The tier of the candidate at `rank` (0-indexed), which selects its blend
/// weight.
pub fn rerank_tier(rank: usize) -> (t: RerankTier)
    ensures
        t == (if rank < 10 {
            RerankTier::Top
        } else if rank < 20 {
            RerankTier::Mid
        } else {
            RerankTier::Low
        }),
{
    if rank < RERANK_TOP_RANK_THRESHOLD {
        RerankTier::Top
    } else if rank < RERANK_MID_RANK_THRESHOLD {
        RerankTier::Mid
    } else {
        RerankTier::Low
    }
}

} // verus!
