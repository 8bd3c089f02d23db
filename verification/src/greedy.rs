//! Greedy first-fit grouping of a sequence of widths under a budget.
//!
//! A group takes its first item whatever its width, and then every further
//! item for as long as the running total stays within the budget. The word
//! breaker groups the characters of one fragment in this way, the line
//! wrapper the fragments of one segment.

use crate::ranges::{lemma_tiles_prepend, ranges_of, tiles};
use crate::width::{lemma_total_extend, lemma_total_monotone, total};
use vstd::prelude::*;

verus! {

/// The widths as natural numbers.
pub open spec fn nats_of(widths: Seq<u128>) -> Seq<nat> {
    Seq::new(widths.len(), |i: int| widths[i] as nat)
}

/// End of the group that begins at `start`, given that the items in
/// `start..k` already belong to it: the first index at or after `k` whose
/// item would push the total over the budget, or the end of the sequence.
pub open spec fn group_end(ws: Seq<nat>, budget: nat, start: int, k: int) -> int
    decreases ws.len() - k,
{
    if k < 0 || k >= ws.len() {
        ws.len() as int
    } else if total(ws.subrange(start, k)) + ws[k] > budget {
        k
    } else {
        group_end(ws, budget, start, k + 1)
    }
}

/// The groups of `ws` from index `start` on, each as a half-open range of
/// indices.
pub open spec fn groups_from(ws: Seq<nat>, budget: nat, start: int) -> Seq<(int, int)>
    decreases ws.len() - start,
{
    if start < 0 || start >= ws.len() {
        Seq::empty()
    } else {
        let end = group_end(ws, budget, start, start + 1);
        proof {
            lemma_group_end_bounds(ws, budget, start, start + 1);
        }
        seq![(start, end)] + groups_from(ws, budget, end)
    }
}

/// The groups into which a sequence of widths falls under a budget.
pub open spec fn groups(ws: Seq<nat>, budget: nat) -> Seq<(int, int)> {
    groups_from(ws, budget, 0)
}

/// Whether a range of widths is an acceptable group: it is not empty, and
/// it stays within the budget unless it holds a single item.
pub open spec fn fits_or_single(ws: Seq<nat>, budget: nat, range: (int, int)) -> bool {
    &&& 0 <= range.0 < range.1 <= ws.len()
    &&& (total(ws.subrange(range.0, range.1)) <= budget || range.1 == range.0 + 1)
}

/// Whether a group is as long as it can be: it ends with the sequence, or
/// the item after it would push its total over the budget.
pub open spec fn is_maximal(ws: Seq<nat>, budget: nat, range: (int, int)) -> bool {
    range.1 < ws.len() ==> total(ws.subrange(range.0, range.1)) + ws[range.1] > budget
}

/// A group ends at or after the point up to which it was scanned, and
/// inside the sequence.
pub proof fn lemma_group_end_bounds(ws: Seq<nat>, budget: nat, start: int, k: int)
    requires
        0 <= start < k <= ws.len(),
    ensures
        k <= group_end(ws, budget, start, k) <= ws.len(),
    decreases ws.len() - k,
{
    if k < ws.len() && total(ws.subrange(start, k)) + ws[k] <= budget {
        lemma_group_end_bounds(ws, budget, start, k + 1);
    }
}

/// A group that is within the budget as far as it was scanned, or holds
/// one item so far, ends as an acceptable and maximal group.
pub proof fn lemma_group_end_fits(ws: Seq<nat>, budget: nat, start: int, k: int)
    requires
        0 <= start < k <= ws.len(),
        total(ws.subrange(start, k)) <= budget || k == start + 1,
    ensures
        fits_or_single(ws, budget, (start, group_end(ws, budget, start, k))),
        is_maximal(ws, budget, (start, group_end(ws, budget, start, k))),
    decreases ws.len() - k,
{
    if k < ws.len() && total(ws.subrange(start, k)) + ws[k] <= budget {
        lemma_total_extend(ws, start, k);
        lemma_group_end_fits(ws, budget, start, k + 1);
    }
}

/// The groups divide the indices among them, and each is acceptable and
/// as long as it can be.
pub proof fn lemma_groups_shape(ws: Seq<nat>, budget: nat, start: int)
    requires
        0 <= start <= ws.len(),
    ensures
        tiles(groups_from(ws, budget, start), start, ws.len() as int),
        forall|i: int|
            0 <= i < groups_from(ws, budget, start).len() ==> fits_or_single(
                ws,
                budget,
                #[trigger] groups_from(ws, budget, start)[i],
            ) && is_maximal(ws, budget, groups_from(ws, budget, start)[i]),
    decreases ws.len() - start,
{
    if start < ws.len() {
        let end = group_end(ws, budget, start, start + 1);
        lemma_group_end_bounds(ws, budget, start, start + 1);
        lemma_group_end_fits(ws, budget, start, start + 1);
        lemma_groups_shape(ws, budget, end);
        let all = groups_from(ws, budget, start);
        let rest = groups_from(ws, budget, end);
        lemma_tiles_prepend((start, end), rest, ws.len() as int);
        assert(all =~= seq![(start, end)] + rest);
        assert forall|i: int| 0 <= i < all.len() implies fits_or_single(ws, budget, #[trigger] all[i])
            && is_maximal(ws, budget, all[i]) by {
            if i > 0 {
                assert(all[i] == rest[i - 1]);
            }
        }
    }
}

/// A group that was scanned up to `k` and whose whole remainder fits the
/// budget runs to the end of the sequence.
pub proof fn lemma_group_end_all(ws: Seq<nat>, budget: nat, start: int, k: int)
    requires
        0 <= start < k <= ws.len(),
        total(ws.subrange(start, ws.len() as int)) <= budget,
    ensures
        group_end(ws, budget, start, k) == ws.len(),
    decreases ws.len() - k,
{
    if k < ws.len() {
        lemma_total_monotone(ws, start, k + 1, ws.len() as int);
        lemma_total_extend(ws, start, k);
        lemma_group_end_all(ws, budget, start, k + 1);
    }
}

/// Items that fit the budget together form a single group.
pub proof fn lemma_groups_single(ws: Seq<nat>, budget: nat)
    requires
        ws.len() > 0,
        total(ws) <= budget,
    ensures
        groups(ws, budget) == seq![(0int, ws.len() as int)],
{
    assert(ws.subrange(0, ws.len() as int) =~= ws);
    lemma_group_end_all(ws, budget, 0, 1);
    assert(groups_from(ws, budget, ws.len() as int) =~= Seq::<(int, int)>::empty());
    assert(groups_from(ws, budget, 0) =~= seq![(0int, ws.len() as int)]);
}

/// Groups a sequence of widths greedily: a group takes items for as long
/// as their widths together stay within `budget`, and the first item that
/// would overflow begins the next group. An item that is by itself wider
/// than `budget` has a group of its own. Each group comes as a half-open
/// range of indices.
pub fn greedy_groups(widths: &[u128], budget: u16) -> (ranges: Vec<(usize, usize)>)
    ensures
        ranges_of(ranges@) == groups(nats_of(widths@), budget as nat),
{
    let n = widths.len();
    let ghost ws = nats_of(widths@);
    let ghost limit = budget as nat;
    let mut ranges: Vec<(usize, usize)> = Vec::new();
    let mut start: usize = 0;
    let mut width: u128 = 0;
    let mut idx: usize = 0;
    proof {
        assert(ws.subrange(0, 0) =~= Seq::<nat>::empty());
        assert(ranges_of(ranges@) =~= Seq::<(int, int)>::empty());
    }
    while idx < n
        invariant
            n == widths.len(),
            ws == nats_of(widths@),
            limit == budget as nat,
            0 <= start <= idx <= n,
            start < idx || idx == 0,
            width as nat == total(ws.subrange(start as int, idx as int)),
            start < idx ==> group_end(ws, limit, start as int, start + 1) == group_end(
                ws,
                limit,
                start as int,
                idx as int,
            ),
            ranges_of(ranges@) + groups_from(ws, limit, start as int) == groups(ws, limit),
        decreases n - idx,
    {
        let w = widths[idx];
        proof {
            assert(ws[idx as int] == w);
            lemma_total_extend(ws, start as int, idx as int);
        }
        if idx > start && (width > budget as u128 || w > budget as u128 - width) {
            proof {
                lemma_group_end_bounds(ws, limit, start as int, start + 1);
                assert(group_end(ws, limit, start as int, idx as int) == idx);
                assert(groups_from(ws, limit, start as int) =~= seq![(start as int, idx as int)]
                    + groups_from(ws, limit, idx as int));
            }
            let ghost before = ranges_of(ranges@);
            ranges.push((start, idx));
            proof {
                assert(ranges_of(ranges@) =~= before.push((start as int, idx as int)));
                assert(ranges_of(ranges@) + groups_from(ws, limit, idx as int) =~= before
                    + groups_from(ws, limit, start as int));
                assert(ws.subrange(idx as int, idx as int) =~= Seq::<nat>::empty());
                lemma_total_extend(ws, idx as int, idx as int);
            }
            start = idx;
            width = w;
        } else {
            width = width + w;
        }
        idx = idx + 1;
    }
    if start < n {
        proof {
            assert(group_end(ws, limit, start as int, n as int) == n);
            assert(groups_from(ws, limit, n as int) =~= Seq::<(int, int)>::empty());
        }
        let ghost before = ranges_of(ranges@);
        ranges.push((start, n));
        proof {
            assert(ranges_of(ranges@) =~= before.push((start as int, n as int)));
        }
    } else {
        proof {
            assert(groups_from(ws, limit, n as int) =~= Seq::<(int, int)>::empty());
        }
    }
    ranges
}

} // verus!
