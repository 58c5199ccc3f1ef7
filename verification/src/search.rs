//! The decisions of a search: how many hits are shown, which hits go to the
//! reranker, the order that the reranker's answer gives them, and which
//! lines of a hit are printed.
use vstd::prelude::*;

use crate::config::given_or;
use crate::text::at_least_one;
use crate::strings::{from_chars, lines, split_lines, string_views, to_chars};

verus! {

/// The lines of a hit printed unless the full text is asked for.
pub const DEFAULT_PREVIEW_LINES: usize = 10;

/// How many hits are shown at most: the asked number, else the configured
/// default, and at least 1.
pub fn effective_top_k(top_k: Option<usize>, default_top_k: usize) -> (r: usize)
    ensures
        r == at_least_one(given_or(top_k, default_top_k)),
{
    let k = match top_k {
        Some(k) => k,
        None => default_top_k,
    };
    if k < 1 {
        1
    } else {
        k
    }
}

/// How many hits are shown: the effective top-k, but no more than there are.
pub fn display_limit(effective_top_k: usize, hit_count: usize) -> (r: usize)
    ensures
        r == (if effective_top_k < hit_count {
            effective_top_k
        } else {
            hit_count
        }),
{
    if effective_top_k < hit_count {
        effective_top_k
    } else {
        hit_count
    }
}

/// How many of the best hits go to the reranker: `None` when there are fewer
/// than two hits (nothing to reorder); else the larger of `rerank_top_n` and
/// the top-k (at least 1), but no more than there are hits.
pub open spec fn rerank_candidates(hit_count: int, rerank_top_n: int, top_k: int) -> Option<int> {
    if hit_count < 2 {
        None
    } else {
        let k = at_least_one(top_k);
        let m = if rerank_top_n > k {
            rerank_top_n
        } else {
            k
        };
        Some(
            if m < hit_count {
                m
            } else {
                hit_count
            },
        )
    }
}

/// How many of the best hits go to the reranker, `None` when reranking is
/// skipped.
pub fn rerank_candidate_count(hit_count: usize, rerank_top_n: usize, requested_top_k: usize) -> (r:
    Option<usize>)
    ensures
        match r {
            Some(c) => rerank_candidates(hit_count as int, rerank_top_n as int, requested_top_k as int)
                == Some(c as int),
            None => rerank_candidates(
                hit_count as int,
                rerank_top_n as int,
                requested_top_k as int,
            ) is None,
        },
{
    if hit_count < 2 {
        return None;
    }
    let k = if requested_top_k < 1 {
        1
    } else {
        requested_top_k
    };
    let m = if rerank_top_n > k {
        rerank_top_n
    } else {
        k
    };
    Some(
        if m < hit_count {
            m
        } else {
            hit_count
        },
    )
}

// ---------------------------------------------------------------------------
// Reordering by the reranker's answer
// ---------------------------------------------------------------------------

/// Whether candidate `x` is already placed in `o`.
pub open spec fn placed(o: Seq<(usize, usize)>, x: int) -> bool {
    exists|k: int| 0 <= k < o.len() && (#[trigger] o[k]).0 == x
}

/// The candidates that the reranker's answer `picks` names, in its order:
/// each entry names a candidate (by its position among `n`) and the entry's
/// own position; entries that name no candidate, or one named before, are
/// passed over.
pub open spec fn picked_order(n: int, picks: Seq<usize>) -> Seq<(usize, usize)>
    decreases picks.len(),
{
    if picks.len() == 0 {
        Seq::empty()
    } else {
        let o = picked_order(n, picks.drop_last());
        let x = picks.last();
        if x < n && !placed(o, x as int) {
            o.push((x, (picks.len() - 1) as usize))
        } else {
            o
        }
    }
}

/// The candidates below `m` that `o` does not place, in ascending order.
pub open spec fn unplaced(o: Seq<(usize, usize)>, m: int) -> Seq<usize>
    decreases m,
{
    if m <= 0 {
        Seq::empty()
    } else if placed(o, m - 1) {
        unplaced(o, m - 1)
    } else {
        unplaced(o, m - 1).push((m - 1) as usize)
    }
}

/// The new order of `n` candidates: those that the reranker named, in its
/// order and with the position of the entry that scored them, then the others
/// in their old order, unscored.
pub open spec fn rerank_order(n: int, picks: Seq<usize>) -> Seq<(usize, Option<usize>)> {
    let o = picked_order(n, picks);
    o.map_values(|p: (usize, usize)| (p.0, Some(p.1))) + unplaced(o, n).map_values(
        |i: usize| (i, None::<usize>),
    )
}

/// Whether candidate `i` has a place in the order `r`.
pub open spec fn appears(r: Seq<(usize, Option<usize>)>, i: int) -> bool {
    exists|k: int| 0 <= k < r.len() && (#[trigger] r[k]).0 == i
}

/// How many of the first `m` flags are set.
pub open spec fn count_set(s: Seq<bool>, m: int) -> nat
    decreases m,
{
    if m <= 0 {
        0
    } else {
        count_set(s, m - 1) + if s[m - 1] {
            1nat
        } else {
            0nat
        }
    }
}

proof fn lemma_count_set_update(s: Seq<bool>, x: int, m: int)
    requires
        0 <= x < m <= s.len(),
        !s[x],
    ensures
        count_set(s.update(x, true), m) == count_set(s, m) + 1,
    decreases m,
{
    if m - 1 > x {
        lemma_count_set_update(s, x, m - 1);
    } else {
        lemma_count_set_same(s, s.update(x, true), x);
    }
}

proof fn lemma_count_set_same(s: Seq<bool>, t: Seq<bool>, m: int)
    requires
        0 <= m <= s.len(),
        m <= t.len(),
        forall|i: int| 0 <= i < m ==> s[i] == t[i],
    ensures
        count_set(s, m) == count_set(t, m),
    decreases m,
{
    if m > 0 {
        lemma_count_set_same(s, t, m - 1);
    }
}

proof fn lemma_count_set_bound(s: Seq<bool>, m: int)
    requires
        0 <= m <= s.len(),
    ensures
        count_set(s, m) <= m,
    decreases m,
{
    if m > 0 {
        lemma_count_set_bound(s, m - 1);
    }
}

/// The new order of `candidate_count` candidates after reranking, given the
/// candidate position that each entry of the reranker's answer names: each
/// element is a candidate and, for a candidate the answer scored, the position
/// of the scoring entry.
pub fn reorder_by_rerank(candidate_count: usize, picks: &[usize]) -> (r: Vec<(usize, Option<usize>)>)
    ensures
        r@ == rerank_order(candidate_count as int, picks@),
        r.len() == candidate_count,
        forall|k: int| 0 <= k < r.len() ==> (#[trigger] r@[k]).0 < candidate_count,
        forall|a: int, b: int| 0 <= a < b < r.len() ==> (#[trigger] r@[a]).0 != (#[trigger] r@[b]).0,
        forall|i: int| 0 <= i < candidate_count ==> #[trigger] appears(r@, i),
{
    let n = candidate_count;
    let mut slots: Vec<bool> = Vec::new();
    let mut i: usize = 0;
    while i < n
        invariant
            i <= n,
            slots.len() == i,
            forall|k: int| 0 <= k < i ==> !(#[trigger] slots@[k]),
        decreases n - i,
    {
        slots.push(false);
        i = i + 1;
    }
    proof {
        assert(count_set(slots@, 0) == 0);
        assert forall|m: int| 0 <= m <= n implies count_set(slots@, m) == 0 by {
            lemma_count_zero(slots@, m);
        }
    }
    let mut order: Vec<(usize, Option<usize>)> = Vec::new();
    let mut j: usize = 0;
    while j < picks.len()
        invariant
            j <= picks.len(),
            slots.len() == n,
            order@ == picked_order(n as int, picks@.take(j as int)).map_values(
                |p: (usize, usize)| (p.0, Some(p.1)),
            ),
            forall|x: int|
                0 <= x < n ==> (#[trigger] slots@[x] <==> placed(
                    picked_order(n as int, picks@.take(j as int)),
                    x,
                )),
            forall|k: int| 0 <= k < order.len() ==> (#[trigger] order@[k]).0 < n,
            forall|a: int, b: int|
                0 <= a < b < order.len() ==> (#[trigger] order@[a]).0 != (#[trigger] order@[b]).0,
            order.len() == count_set(slots@, n as int),
        decreases picks.len() - j,
    {
        let ghost o = picked_order(n as int, picks@.take(j as int));
        assert(picks@.take(j + 1).drop_last() == picks@.take(j as int));
        assert(picks@.take(j + 1).last() == picks@[j as int]);
        let x = picks[j];
        if x < n && !slots[x] {
            proof {
                lemma_count_set_update(slots@, x as int, n as int);
            }
            let ghost old_slots = slots@;
            slots.set(x, true);
            order.push((x, Some(j)));
            proof {
                let o2 = o.push((x, j));
                assert(o2 == picked_order(n as int, picks@.take(j + 1)));
                assert(order@ =~= o2.map_values(|p: (usize, usize)| (p.0, Some(p.1))));
                assert forall|y: int| 0 <= y < n implies (#[trigger] slots@[y] <==> placed(o2, y)) by {
                    if y == x {
                        assert(o2[o.len() as int].0 == x);
                    } else {
                        assert(slots@[y] == old_slots[y]);
                        if placed(o2, y) {
                            let k = choose|k: int| 0 <= k < o2.len() && (#[trigger] o2[k]).0 == y;
                            assert(o[k] == o2[k]);
                        }
                        if placed(o, y) {
                            let k = choose|k: int| 0 <= k < o.len() && (#[trigger] o[k]).0 == y;
                            assert(o2[k] == o[k]);
                        }
                    }
                }
                assert forall|a: int, b: int|
                    0 <= a < b < order.len() implies (#[trigger] order@[a]).0 != (
                    #[trigger] order@[b]).0 by {
                    if b == order.len() - 1 {
                        assert(order@[a].0 == o[a].0);
                        if o[a].0 == x {
                            assert(placed(o, x as int));
                        }
                    }
                }
            }
        } else {
            proof {
                if x < n {
                    assert(placed(o, x as int));
                }
            }
        }
        j = j + 1;
    }
    assert(picks@.take(picks.len() as int) == picks@);
    let ghost o = picked_order(n as int, picks@);
    let ghost first_len = order.len();
    let mut i: usize = 0;
    while i < n
        invariant
            i <= n,
            slots.len() == n,
            first_len == count_set(slots@, n as int),
            order.len() == first_len + unplaced(o, i as int).len(),
            order@ == o.map_values(|p: (usize, usize)| (p.0, Some(p.1))) + unplaced(
                o,
                i as int,
            ).map_values(|k: usize| (k, None::<usize>)),
            forall|x: int| 0 <= x < n ==> (#[trigger] slots@[x] <==> placed(o, x)),
            forall|k: int| 0 <= k < order.len() ==> (#[trigger] order@[k]).0 < n,
            forall|k: int| first_len <= k < order.len() ==> (#[trigger] order@[k]).0 < i,
            forall|k: int| 0 <= k < first_len ==> placed(o, (#[trigger] order@[k]).0 as int),
            forall|k: int| first_len <= k < order.len() ==> !placed(o, (#[trigger] order@[k]).0 as int),
            forall|a: int, b: int|
                0 <= a < b < order.len() ==> (#[trigger] order@[a]).0 != (#[trigger] order@[b]).0,
            forall|y: int| 0 <= y < i ==> #[trigger] appears(order@, y),
            unplaced(o, i as int).len() + count_set(slots@, i as int) == i,
        decreases n - i,
    {
        if !slots[i] {
            let ghost prev = order@;
            order.push((i, None));
            proof {
                assert(unplaced(o, i + 1) == unplaced(o, i as int).push(i));
                assert(order@ =~= o.map_values(|p: (usize, usize)| (p.0, Some(p.1))) + unplaced(
                    o,
                    i + 1,
                ).map_values(|k: usize| (k, None::<usize>)));
                assert(order@[order.len() - 1].0 == i);
                assert(appears(order@, i as int));
                assert forall|y: int| 0 <= y < i implies #[trigger] appears(order@, y) by {
                    assert(appears(prev, y));
                    let k = choose|k: int| 0 <= k < prev.len() && (#[trigger] prev[k]).0 == y;
                    assert(order@[k] == prev[k]);
                }
            }
        } else {
            proof {
                assert(unplaced(o, i + 1) == unplaced(o, i as int));
                let k = choose|k: int| 0 <= k < o.len() && (#[trigger] o[k]).0 == i;
                assert(order@[k].0 == i);
                assert(appears(order@, i as int));
            }
        }
        i = i + 1;
    }
    proof {
        lemma_count_set_bound(slots@, n as int);
    }
    order
}

proof fn lemma_count_zero(s: Seq<bool>, m: int)
    requires
        0 <= m <= s.len(),
        forall|k: int| 0 <= k < s.len() ==> !(#[trigger] s[k]),
    ensures
        count_set(s, m) == 0,
    decreases m,
{
    if m > 0 {
        lemma_count_zero(s, m - 1);
    }
}

// ---------------------------------------------------------------------------
// Printing a hit
// ---------------------------------------------------------------------------

/// The lines of a hit's text that are printed: all of them for the full text,
/// else at most the first ten; and whether a `...` marks that lines were left
/// out.
pub open spec fn snippet_of(text: Seq<char>, full: bool) -> (Seq<Seq<char>>, bool) {
    let ls = lines(text);
    if full || ls.len() <= DEFAULT_PREVIEW_LINES {
        (ls, false)
    } else {
        (ls.take(DEFAULT_PREVIEW_LINES as int), true)
    }
}

/// The lines of a hit that are printed, and whether more follow.
pub fn snippet_lines(text: &str, full: bool) -> (r: (Vec<String>, bool))
    ensures
        (string_views(r.0@), r.1) == snippet_of(text@, full),
{
    let chars = to_chars(text);
    let ls = split_lines(chars.as_slice());
    let limit = if full || ls.len() <= DEFAULT_PREVIEW_LINES {
        ls.len()
    } else {
        DEFAULT_PREVIEW_LINES
    };
    let mut out: Vec<String> = Vec::new();
    let mut i: usize = 0;
    while i < limit
        invariant
            i <= limit <= ls.len(),
            string_views(out@) == crate::strings::views(ls@).take(i as int),
        decreases limit - i,
    {
        out.push(from_chars(ls[i].as_slice()));
        assert(crate::strings::views(ls@).take(i + 1) == crate::strings::views(ls@).take(
            i as int,
        ).push(ls@[i as int]@));
        assert(string_views(out@) =~= crate::strings::views(ls@).take(i + 1));
        i = i + 1;
    }
    assert(crate::strings::views(ls@).take(ls.len() as int) == crate::strings::views(ls@));
    (out, !full && ls.len() > DEFAULT_PREVIEW_LINES)
}

} // verus!
