//! The cross-encoder rerank step's own bookkeeping: the text sent for each
//! candidate, and which candidates still need a score after the cache.

use vstd::prelude::*;

use crate::search::pre_filter::push_str;
use crate::text::unicode::{chars_of, string_of};

verus! {

/// The reranker payload of a candidate: its title, a blank line, its
/// snippet.
pub fn rerank_text(title: &str, snippet: &str) -> (r: String)
    ensures
        r@ == title@ + seq!['\n', '\n'] + snippet@,
{
    let mut out = chars_of(title);
    out.push('\n');
    out.push('\n');
    push_str(&mut out, snippet);
    string_of(out.as_slice())
}

/// The positions, in increasing order, of the candidates whose score the
/// cache did not have (`cached[i]` is false): the ones sent to the reranker.
/// A reranker result for the `k`-th text sent belongs to the candidate at
/// the `k`-th of these positions.
pub fn uncached_indices(cached: &[bool]) -> (r: Vec<usize>)
    ensures
        forall|k: int| 0 <= k < r@.len() ==> r@[k] < cached@.len() && !cached@[#[trigger] r@[k] as int],
        forall|k1: int, k2: int| 0 <= k1 < k2 < r@.len() ==> r@[k1] < r@[k2],
        forall|i: int| 0 <= i < cached@.len() && !cached@[i] ==> r@.contains(i as usize),
{
    let mut r: Vec<usize> = Vec::new();
    let mut i: usize = 0;
    while i < cached.len()
        invariant
            i <= cached@.len(),
            forall|k: int| 0 <= k < r@.len() ==> r@[k] < i && !cached@[#[trigger] r@[k] as int],
            forall|k1: int, k2: int| 0 <= k1 < k2 < r@.len() ==> r@[k1] < r@[k2],
            forall|j: int| 0 <= j < i && !cached@[j] ==> r@.contains(j as usize),
        decreases cached.len() - i,
    {
        if !cached[i] {
            let ghost before = r@;
            r.push(i);
            proof {
                assert forall|j: int| 0 <= j < i && !cached@[j] implies r@.contains(j as usize) by {
                    let w = choose|m: int| 0 <= m < before.len() && before[m] == j as usize;
                    assert(r@[w] == j as usize);
                }
                assert(r@[before.len() as int] == i);
            }
        }
        i += 1;
    }
    r
}

} // verus!
