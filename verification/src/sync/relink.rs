//! Sync finalization: which previously-unresolved links to re-point once
//! the current notes resolve their raw targets.

use vstd::prelude::*;

use crate::text::unicode::{chars_eq, chars_of};

verus! {

/// An unresolved link row `(from_path, raw_target, to_path)` with what the
/// link resolver now gives for its raw target, as plain values.
pub open spec fn candidate_view(r: (String, String, String, Option<String>)) -> (
    Seq<char>,
    Seq<char>,
    Seq<char>,
    Option<Seq<char>>,
) {
    (r.0@, r.1@, r.2@, match r.3 {
        Some(s) => Some(s@),
        None => None,
    })
}

/// An update `(from_path, raw_target, old to_path, new to_path)` as plain
/// values.
pub open spec fn update_view(u: (String, String, String, String)) -> (Seq<char>, Seq<char>, Seq<char>, Seq<char>) {
    (u.0@, u.1@, u.2@, u.3@)
}

/// The updates owed for `rows`, in order: one for each row whose raw target
/// now resolves to a path other than its current one.
pub open spec fn relinks(rows: Seq<(Seq<char>, Seq<char>, Seq<char>, Option<Seq<char>>)>) -> Seq<
    (Seq<char>, Seq<char>, Seq<char>, Seq<char>),
>
    decreases rows.len(),
{
    if rows.len() == 0 {
        seq![]
    } else {
        let prev = relinks(rows.drop_last());
        let r = rows.last();
        match r.3 {
            Some(n) => if n != r.2 {
                prev.push((r.0, r.1, r.2, n))
            } else {
                prev
            },
            None => prev,
        }
    }
}

/// The link updates of a relink pass: for each unresolved row (with its
/// fresh resolution), an update to the new path when the raw target now
/// resolves and the path differs; rows still unresolved, or resolving to
/// the path they already hold, are skipped.
pub fn relink_plan(rows: &[(String, String, String, Option<String>)]) -> (r: Vec<(String, String, String, String)>)
    ensures
        r@.map_values(|u: (String, String, String, String)| update_view(u)) == relinks(
            rows@.map_values(|c: (String, String, String, Option<String>)| candidate_view(c)),
        ),
{
    let ghost cv = rows@.map_values(|c: (String, String, String, Option<String>)| candidate_view(c));
    let mut out: Vec<(String, String, String, String)> = Vec::new();
    let mut i: usize = 0;
    while i < rows.len()
        invariant
            i <= rows@.len(),
            cv == rows@.map_values(|c: (String, String, String, Option<String>)| candidate_view(c)),
            out@.map_values(|u: (String, String, String, String)| update_view(u)) == relinks(
                cv.take(i as int),
            ),
        decreases rows.len() - i,
    {
        let row = &rows[i];
        proof {
            assert(cv.take(i + 1).drop_last() =~= cv.take(i as int));
            assert(cv.take(i + 1).last() == candidate_view(rows@[i as int]));
        }
        let ghost before = out@;
        match &row.3 {
            Some(new_path) => {
                let n = chars_of(new_path.as_str());
                let o = chars_of(row.2.as_str());
                if !chars_eq(n.as_slice(), o.as_slice()) {
                    let u = (row.0.clone(), row.1.clone(), row.2.clone(), new_path.clone());
                    out.push(u);
                    proof {
                        assert(out@.map_values(|u: (String, String, String, String)| update_view(u))
                            =~= before.map_values(|u: (String, String, String, String)| update_view(u)).push(
                            update_view(u),
                        ));
                    }
                }
            },
            None => {},
        }
        i += 1;
    }
    proof {
        assert(cv.take(rows@.len() as int) =~= cv);
    }
    out
}

/// Whether a row is owed an update: its raw target now resolves, to a path
/// other than the one it holds.
pub open spec fn owes_update(r: (Seq<char>, Seq<char>, Seq<char>, Option<Seq<char>>)) -> bool {
    r.3 is Some && r.3->0 != r.2
}

/// A relink pass re-points exactly the rows that are owed it: every row whose
/// raw target now resolves to another path gets the update
/// `(from, raw, old, new)`, every update is such a row's, and there are as
/// many updates as owed rows.
pub proof fn lemma_relink_covers_owed_rows(rows: Seq<(Seq<char>, Seq<char>, Seq<char>, Option<Seq<char>>)>)
    ensures
        forall|i: int|
            0 <= i < rows.len() && owes_update(#[trigger] rows[i]) ==> relinks(rows).contains(
                (rows[i].0, rows[i].1, rows[i].2, rows[i].3->0),
            ),
        forall|k: int|
            0 <= k < relinks(rows).len() ==> exists|i: int|
                0 <= i < rows.len() && owes_update(#[trigger] rows[i]) && #[trigger] relinks(rows)[k] == (
                    rows[i].0,
                    rows[i].1,
                    rows[i].2,
                    rows[i].3->0,
                ),
        relinks(rows).len() == rows.filter(|r: (Seq<char>, Seq<char>, Seq<char>, Option<Seq<char>>)| owes_update(r)).len(),
    decreases rows.len(),
{
    if rows.len() > 0 {
        let prev = rows.drop_last();
        lemma_relink_covers_owed_rows(prev);
        let r = rows.last();
        let p = relinks(prev);
        let all = relinks(rows);
        reveal_with_fuel(Seq::filter, 1);
        assert forall|i: int|
            0 <= i < rows.len() && owes_update(#[trigger] rows[i]) implies all.contains(
            (rows[i].0, rows[i].1, rows[i].2, rows[i].3->0),
        ) by {
            if i < prev.len() {
                assert(prev[i] == rows[i]);
                let x = (rows[i].0, rows[i].1, rows[i].2, rows[i].3->0);
                assert(p.contains(x));
                let w = choose|w: int| 0 <= w < p.len() && p[w] == x;
                if owes_update(r) {
                    assert(all[w] == x);
                } else {
                    assert(all == p);
                }
            } else {
                assert(rows[i] == r);
                assert(all[all.len() - 1] == (r.0, r.1, r.2, r.3->0));
            }
        }
        assert forall|k: int| 0 <= k < all.len() implies exists|i: int|
            0 <= i < rows.len() && owes_update(#[trigger] rows[i]) && #[trigger] all[k] == (
                rows[i].0,
                rows[i].1,
                rows[i].2,
                rows[i].3->0,
            ) by {
            if k < p.len() {
                let i = choose|i: int|
                    0 <= i < prev.len() && owes_update(#[trigger] prev[i]) && p[k] == (
                        prev[i].0,
                        prev[i].1,
                        prev[i].2,
                        prev[i].3->0,
                    );
                assert(rows[i] == prev[i]);
                assert(all[k] == p[k]);
            } else {
                assert(owes_update(r));
                assert(rows[rows.len() - 1] == r);
            }
        }
    }
}

} // verus!
