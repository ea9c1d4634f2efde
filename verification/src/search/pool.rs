//! Pool sizing helpers for retriever over-fetch.
//!
//! Each retriever needs to fetch more candidates than the final limit
//! to account for post-filter deduplication and scoring spread.

use vstd::prelude::*;

verus! {

/// `a * b` saturated at `u32::MAX`.
pub open spec fn sat_mul(a: u32, b: u32) -> int {
    if a * b > u32::MAX { u32::MAX as int } else { a * b }
}

pub open spec fn max_int(a: int, b: int) -> int {
    if a >= b { a } else { b }
}

fn saturating_mul(a: u32, b: u32) -> (r: u32)
    ensures
        r == sat_mul(a, b),
{
    match a.checked_mul(b) {
        Some(v) => v,
        None => u32::MAX,
    }
}

fn max_u32(a: u32, b: u32) -> (r: u32)
    ensures
        r == max_int(a as int, b as int),
{
    if a >= b { a } else { b }
}

/// Compute the pool size for BM25 lexical retrieval:
/// `max(limit * 2, max(candidate_floor, 50))`, the product saturating.
pub fn bm25_pool(limit: u32, candidate_floor: u32) -> (r: u32)
    ensures
        r == max_int(sat_mul(limit, 2), max_int(candidate_floor as int, 50)),
{
    max_u32(saturating_mul(limit, 2), max_u32(candidate_floor, 50))
}

/// Compute the pool size for vector semantic retrieval:
/// `max(limit * 5, max(candidate_floor * 2, 100))`, the products saturating.
pub fn vector_pool(limit: u32, candidate_floor: u32) -> (r: u32)
    ensures
        r == max_int(sat_mul(limit, 5), max_int(sat_mul(candidate_floor, 2), 100)),
{
    max_u32(saturating_mul(limit, 5), max_u32(saturating_mul(candidate_floor, 2), 100))
}

/// Compute the pool size for fuzzy title/alias retrieval:
/// `max(limit * 2, max(candidate_floor, 50))`.
pub fn fuzzy_pool(limit: u32, candidate_floor: u32) -> (r: u32)
    ensures
        r == max_int(sat_mul(limit, 2), max_int(candidate_floor as int, 50)),
{
    max_u32(saturating_mul(limit, 2), max_u32(candidate_floor, 50))
}

/// Compute the final pre-rerank pool size for RRF fusion:
/// `max(limit, candidate_floor)`.
pub fn rrf_pool(limit: u32, candidate_floor: u32) -> (r: u32)
    ensures
        r == max_int(limit as int, candidate_floor as int),
{
    max_u32(limit, candidate_floor)
}

/// Every pool covers the candidate floor, and the retriever pools cover the
/// limit too; the pools never shrink when the limit or the floor grows.
pub proof fn lemma_pools_cover_limit_and_floor(limit: u32, floor: u32, limit2: u32, floor2: u32)
    requires
        limit <= limit2,
        floor <= floor2,
    ensures
        max_int(sat_mul(limit, 2), max_int(floor as int, 50)) >= floor,
        max_int(sat_mul(limit, 2), max_int(floor as int, 50)) >= limit,
        max_int(sat_mul(limit, 2), max_int(floor as int, 50)) >= 50,
        max_int(sat_mul(limit, 5), max_int(sat_mul(floor, 2), 100)) >= floor,
        max_int(sat_mul(limit, 5), max_int(sat_mul(floor, 2), 100)) >= limit,
        max_int(sat_mul(limit, 5), max_int(sat_mul(floor, 2), 100)) >= 100,
        max_int(limit as int, floor as int) >= limit,
        max_int(limit as int, floor as int) >= floor,
        max_int(sat_mul(limit, 2), max_int(floor as int, 50)) <= max_int(sat_mul(limit2, 2), max_int(floor2 as int, 50)),
        max_int(sat_mul(limit, 5), max_int(sat_mul(floor, 2), 100)) <= max_int(sat_mul(limit2, 5), max_int(sat_mul(floor2, 2), 100)),
        max_int(limit as int, floor as int) <= max_int(limit2 as int, floor2 as int),
{
    assert(limit * 2 <= limit2 * 2) by (nonlinear_arith) requires limit <= limit2;
    assert(limit * 5 <= limit2 * 5) by (nonlinear_arith) requires limit <= limit2;
    assert(floor * 2 <= floor2 * 2) by (nonlinear_arith) requires floor <= floor2;
}

} // verus!
