//! Half-open ranges of indices that divide a sequence into consecutive
//! parts.

use crate::text::split_chars;
use vstd::prelude::*;

verus! {

/// Index ranges as pairs of mathematical integers.
pub open spec fn ranges_of(ranges: Seq<(usize, usize)>) -> Seq<(int, int)> {
    Seq::new(ranges.len(), |i: int| (ranges[i].0 as int, ranges[i].1 as int))
}

/// The parts of `s` that the ranges select, in the order of the ranges.
pub open spec fn slices<A>(s: Seq<A>, ranges: Seq<(int, int)>) -> Seq<Seq<A>> {
    Seq::new(ranges.len(), |i: int| s.subrange(ranges[i].0, ranges[i].1))
}

/// Whether the ranges divide the indices from `from` up to `to` among
/// them: the first begins at `from`, each further one where the one before
/// it ends, and the last ends at `to`. No ranges divide nothing.
pub open spec fn tiles(ranges: Seq<(int, int)>, from: int, to: int) -> bool {
    &&& ranges.len() == 0 ==> from == to
    &&& ranges.len() > 0 ==> ranges.first().0 == from && ranges.last().1 == to
    &&& forall|i: int| 0 <= i < ranges.len() ==> (#[trigger] ranges[i]).0 <= ranges[i].1
    &&& forall|i: int| 0 <= i < ranges.len() - 1 ==> (#[trigger] ranges[i]).1 == ranges[i + 1].0
}

/// A range followed by ranges that divide what comes after it divides the
/// whole.
pub proof fn lemma_tiles_prepend(head: (int, int), rest: Seq<(int, int)>, to: int)
    requires
        head.0 <= head.1,
        tiles(rest, head.1, to),
    ensures
        tiles(seq![head] + rest, head.0, to),
{
    let all = seq![head] + rest;
    assert(all[0] == head);
    assert forall|i: int| 0 <= i < all.len() implies (#[trigger] all[i]).0 <= all[i].1 by {
        if i > 0 {
            assert(all[i] == rest[i - 1]);
        }
    }
    assert forall|i: int| 0 <= i < all.len() - 1 implies (#[trigger] all[i]).1 == all[i + 1].0 by {
        assert(all[i + 1] == rest[i]);
        if i > 0 {
            assert(all[i] == rest[i - 1]);
        }
    }
    if rest.len() > 0 {
        assert(all.last() == rest.last());
    }
}

/// Ranges that divide a sequence begin and end within it, in order.
pub proof fn lemma_tiles_bounds(ranges: Seq<(int, int)>, from: int, to: int, i: int)
    requires
        tiles(ranges, from, to),
        0 <= i < ranges.len(),
    ensures
        from <= ranges[i].0 <= ranges[i].1 <= to,
    decreases ranges.len() - i, i,
{
    if i > 0 {
        lemma_tiles_bounds_low(ranges, from, to, i);
    }
    if i < ranges.len() - 1 {
        lemma_tiles_bounds(ranges, from, to, i + 1);
    }
}

/// A range of a division begins at or after the start of what is divided.
proof fn lemma_tiles_bounds_low(ranges: Seq<(int, int)>, from: int, to: int, i: int)
    requires
        tiles(ranges, from, to),
        0 <= i < ranges.len(),
    ensures
        from <= ranges[i].0,
    decreases i,
{
    if i > 0 {
        lemma_tiles_bounds_low(ranges, from, to, i - 1);
    }
}

/// The parts that a division selects, put together again, are the
/// sequence that was divided.
pub proof fn lemma_slices_flatten<A>(s: Seq<A>, ranges: Seq<(int, int)>, from: int)
    requires
        0 <= from,
        tiles(ranges, from, s.len() as int),
    ensures
        slices(s, ranges).flatten() == s.subrange(from, s.len() as int),
    decreases ranges.len(),
{
    if ranges.len() == 0 {
        assert(slices(s, ranges) =~= Seq::<Seq<A>>::empty());
        assert(s.subrange(from, s.len() as int) =~= Seq::<A>::empty());
    } else {
        let head = ranges.first();
        let rest = ranges.drop_first();
        lemma_tiles_bounds(ranges, from, s.len() as int, 0);
        assert(tiles(rest, head.1, s.len() as int)) by {
            assert forall|i: int| 0 <= i < rest.len() implies (#[trigger] rest[i]).0 <= rest[i].1 by {
                assert(rest[i] == ranges[i + 1]);
            }
            assert forall|i: int| 0 <= i < rest.len() - 1 implies (#[trigger] rest[i]).1 == rest[i
                + 1].0 by {
                assert(rest[i] == ranges[i + 1]);
                assert(rest[i + 1] == ranges[i + 2]);
            }
            if rest.len() > 0 {
                assert(rest.first() == ranges[1]);
                assert(rest.last() == ranges.last());
            }
        }
        lemma_slices_flatten(s, rest, head.1);
        assert(slices(s, ranges).drop_first() =~= slices(s, rest));
        assert(s.subrange(head.0, head.1) + s.subrange(head.1, s.len() as int) =~= s.subrange(
            from,
            s.len() as int,
        ));
    }
}

/// The parts of a string that a division of its characters selects: each
/// a slice of the string.
pub(crate) fn take_ranges<'a>(text: &'a str, ranges: &[(usize, usize)]) -> (parts: Vec<&'a str>)
    requires
        tiles(ranges_of(ranges@), 0, text@.len() as int),
    ensures
        parts.deep_view() == slices(text@, ranges_of(ranges@)),
{
    let ghost all = ranges_of(ranges@);
    let mut parts: Vec<&'a str> = Vec::new();
    let mut rest = text;
    let mut i: usize = 0;
    proof {
        assert(text@.skip(0) =~= text@);
        assert(parts.deep_view() =~= slices(text@, all).take(0));
    }
    while i < ranges.len()
        invariant
            0 <= i <= ranges.len(),
            all == ranges_of(ranges@),
            tiles(all, 0, text@.len() as int),
            i < ranges.len() ==> rest@ == text@.skip(all[i as int].0),
            parts.deep_view() == slices(text@, all).take(i as int),
        decreases ranges.len() - i,
    {
        let (first, last) = ranges[i];
        proof {
            assert(all[i as int] == (first as int, last as int));
            lemma_tiles_bounds(all, 0, text@.len() as int, i as int);
        }
        let ghost before = parts.deep_view();
        let (part, tail) = split_chars(rest, last - first);
        parts.push(part);
        proof {
            assert(part@ =~= text@.subrange(first as int, last as int));
            assert(tail@ =~= text@.skip(last as int));
            assert(parts.deep_view() =~= before.push(part@));
            assert(slices(text@, all).take(i + 1) =~= slices(text@, all).take(i as int).push(
                slices(text@, all)[i as int],
            ));
        }
        rest = tail;
        i = i + 1;
    }
    proof {
        assert(slices(text@, all).take(i as int) =~= slices(text@, all));
    }
    parts
}

} // verus!
