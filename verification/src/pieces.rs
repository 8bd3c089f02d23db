//! Cutting a text into consecutive pieces, each ending just after a
//! boundary character.
//!
//! Hard-break segments are the pieces that end after a newline; wrapping
//! fragments are the pieces that end after a whitespace character. Where
//! the cuts fall depends only on which characters are boundaries, so the
//! cutting itself works on a sequence of marks, one for each character.

use crate::ranges::{
    lemma_slices_flatten, lemma_tiles_prepend, ranges_of, slices, take_ranges, tiles,
};
use crate::text::is_space;
use vstd::prelude::*;

verus! {

/// The characters after which a piece ends.
#[derive(Clone, Copy, Debug, PartialEq, Eq)]
pub enum Boundary {
    /// A piece ends after each newline character.
    Newline,
    /// A piece ends after each whitespace character.
    Whitespace,
}

/// Whether a piece of the given kind ends immediately after `c`.
pub open spec fn ends_piece(kind: Boundary, c: char) -> bool {
    match kind {
        Boundary::Newline => c == '\n',
        Boundary::Whitespace => is_space(c),
    }
}

/// For each character of a text, whether a piece ends after it.
pub open spec fn marks_of(s: Seq<char>, kind: Boundary) -> Seq<bool> {
    Seq::new(s.len(), |i: int| ends_piece(kind, s[i]))
}

/// Index just past the piece that begins at `from`: the position after
/// the first mark at or after `from`, or the end of the marks where none
/// follows.
pub open spec fn cut_end(marks: Seq<bool>, from: int) -> int
    decreases marks.len() - from,
{
    if from < 0 || from >= marks.len() {
        marks.len() as int
    } else if marks[from] {
        from + 1
    } else {
        cut_end(marks, from + 1)
    }
}

/// The pieces from index `from` on, in order, each as a half-open range of
/// indices.
pub open spec fn cuts_from(marks: Seq<bool>, from: int) -> Seq<(int, int)>
    decreases marks.len() - from,
{
    if from < 0 || from >= marks.len() {
        Seq::empty()
    } else {
        let end = cut_end(marks, from);
        proof {
            lemma_cut_end_bounds(marks, from);
        }
        seq![(from, end)] + cuts_from(marks, end)
    }
}

/// The pieces into which a sequence of marks cuts the indices: a cut
/// falls immediately after each mark, and nowhere else.
pub open spec fn cuts(marks: Seq<bool>) -> Seq<(int, int)> {
    cuts_from(marks, 0)
}

/// The pieces of a text of the given kind.
pub open spec fn pieces(s: Seq<char>, kind: Boundary) -> Seq<Seq<char>> {
    slices(s, cuts(marks_of(s, kind)))
}

/// Whether `range` has the shape of a piece: it is not empty, no mark
/// stands before its last position, and a mark stands there unless it is
/// the last piece.
pub open spec fn well_cut(marks: Seq<bool>, range: (int, int), is_last: bool) -> bool {
    &&& 0 <= range.0 < range.1 <= marks.len()
    &&& forall|j: int| range.0 <= j < range.1 - 1 ==> !#[trigger] marks[j]
    &&& !is_last ==> marks[range.1 - 1]
}

/// A piece that begins inside the marks is not empty and ends inside them.
pub proof fn lemma_cut_end_bounds(marks: Seq<bool>, from: int)
    requires
        0 <= from < marks.len(),
    ensures
        from < cut_end(marks, from) <= marks.len(),
    decreases marks.len() - from,
{
    if !marks[from] {
        if from + 1 < marks.len() {
            lemma_cut_end_bounds(marks, from + 1);
        } else {
            assert(cut_end(marks, from + 1) == marks.len());
        }
    }
}

/// No mark stands before the last position of a piece, and one stands
/// there unless the piece runs to the end of the marks.
pub proof fn lemma_cut_end_shape(marks: Seq<bool>, from: int)
    requires
        0 <= from < marks.len(),
    ensures
        forall|j: int| from <= j < cut_end(marks, from) - 1 ==> !#[trigger] marks[j],
        cut_end(marks, from) < marks.len() ==> marks[cut_end(marks, from) - 1],
    decreases marks.len() - from,
{
    lemma_cut_end_bounds(marks, from);
    if !marks[from] {
        if from + 1 < marks.len() {
            lemma_cut_end_shape(marks, from + 1);
            lemma_cut_end_bounds(marks, from + 1);
        } else {
            assert(cut_end(marks, from + 1) == marks.len());
        }
    }
}

/// Going past positions without a mark does not move the end of the piece.
pub proof fn lemma_cut_end_skip(marks: Seq<bool>, from: int, to: int)
    requires
        0 <= from <= to <= marks.len(),
        forall|j: int| from <= j < to ==> !#[trigger] marks[j],
    ensures
        cut_end(marks, from) == cut_end(marks, to),
    decreases to - from,
{
    if from < to {
        lemma_cut_end_skip(marks, from + 1, to);
    }
}

/// The pieces divide the indices among them, and each has the shape of a
/// piece.
pub proof fn lemma_cuts_shape(marks: Seq<bool>, from: int)
    requires
        0 <= from <= marks.len(),
    ensures
        tiles(cuts_from(marks, from), from, marks.len() as int),
        forall|i: int|
            0 <= i < cuts_from(marks, from).len() ==> well_cut(
                marks,
                #[trigger] cuts_from(marks, from)[i],
                i == cuts_from(marks, from).len() - 1,
            ),
    decreases marks.len() - from,
{
    if from < marks.len() {
        let end = cut_end(marks, from);
        lemma_cut_end_bounds(marks, from);
        lemma_cut_end_shape(marks, from);
        lemma_cuts_shape(marks, end);
        let rest = cuts_from(marks, end);
        let all = cuts_from(marks, from);
        lemma_tiles_prepend((from, end), rest, marks.len() as int);
        assert(all =~= seq![(from, end)] + rest);
        assert forall|i: int| 0 <= i < all.len() implies well_cut(
            marks,
            #[trigger] all[i],
            i == all.len() - 1,
        ) by {
            if i > 0 {
                assert(all[i] == rest[i - 1]);
            } else if all.len() > 1 {
                assert(rest.len() > 0);
            }
        }
    }
}

/// The pieces of a text, put together again, are the text.
pub proof fn lemma_pieces_flatten(s: Seq<char>, kind: Boundary)
    ensures
        pieces(s, kind).flatten() == s,
{
    let marks = marks_of(s, kind);
    lemma_cuts_shape(marks, 0);
    lemma_slices_flatten(s, cuts(marks), 0);
    assert(s.subrange(0, s.len() as int) =~= s);
}

/// Whether `piece` has the shape of a piece of a text: it is not empty, it
/// holds no boundary character before its last position, and it ends with
/// one unless it is the last piece of its text.
pub open spec fn well_formed_piece(piece: Seq<char>, kind: Boundary, is_last: bool) -> bool {
    &&& piece.len() > 0
    &&& forall|j: int| 0 <= j < piece.len() - 1 ==> !ends_piece(kind, #[trigger] piece[j])
    &&& !is_last ==> ends_piece(kind, piece.last())
}

/// Every piece of a text is well formed: a cut stands immediately after
/// each boundary character, and nowhere else.
pub proof fn lemma_pieces_shape(s: Seq<char>, kind: Boundary)
    ensures
        forall|i: int|
            0 <= i < pieces(s, kind).len() ==> well_formed_piece(
                #[trigger] pieces(s, kind)[i],
                kind,
                i == pieces(s, kind).len() - 1,
            ),
{
    let marks = marks_of(s, kind);
    let ranges = cuts(marks);
    lemma_cuts_shape(marks, 0);
    assert forall|i: int| 0 <= i < pieces(s, kind).len() implies well_formed_piece(
        #[trigger] pieces(s, kind)[i],
        kind,
        i == pieces(s, kind).len() - 1,
    ) by {
        let range = ranges[i];
        let piece = pieces(s, kind)[i];
        assert(well_cut(marks, range, i == ranges.len() - 1));
        assert forall|j: int| 0 <= j < piece.len() - 1 implies !ends_piece(
            kind,
            #[trigger] piece[j],
        ) by {
            assert(!marks[range.0 + j]);
        }
        if i < ranges.len() - 1 {
            assert(marks[range.1 - 1]);
        }
    }
}

/// Marks the characters of a string after which a piece ends.
pub fn mark_boundaries(text: &str, kind: Boundary) -> (marks: Vec<bool>)
    ensures
        marks@ == marks_of(text@, kind),
{
    let mut marks: Vec<bool> = Vec::new();
    for c in it: text.chars()
        invariant
            it.seq() == text@,
            marks@ == marks_of(text@, kind).take(it.index() as int),
    {
        let ghost before = marks@;
        let mark = match kind {
            Boundary::Newline => c == '\n',
            Boundary::Whitespace => c.is_whitespace(),
        };
        marks.push(mark);
        proof {
            assert(marks@ =~= marks_of(text@, kind).take(it.index() + 1));
        }
    }
    proof {
        assert(marks_of(text@, kind).take(text@.len() as int) =~= marks_of(text@, kind));
    }
    marks
}

/// Cuts the indices of a sequence of marks into pieces: a piece ends
/// immediately after each mark, and the last piece with the sequence.
/// Each piece comes as a half-open range of indices.
pub fn cut_after(marks: &[bool]) -> (ranges: Vec<(usize, usize)>)
    ensures
        ranges_of(ranges@) == cuts(marks@),
{
    let n = marks.len();
    let mut ranges: Vec<(usize, usize)> = Vec::new();
    let mut start: usize = 0;
    let mut i: usize = 0;
    proof {
        assert(ranges_of(ranges@) =~= Seq::<(int, int)>::empty());
    }
    while i < n
        invariant
            n == marks.len(),
            0 <= start <= i <= n,
            forall|j: int| start <= j < i ==> !#[trigger] marks@[j],
            ranges_of(ranges@) + cuts_from(marks@, start as int) == cuts(marks@),
        decreases n - i,
    {
        let mark = marks[i];
        i = i + 1;
        if mark {
            proof {
                lemma_cut_end_skip(marks@, start as int, i - 1);
                assert(cut_end(marks@, start as int) == i);
            }
            let ghost before = ranges_of(ranges@);
            ranges.push((start, i));
            proof {
                assert(ranges_of(ranges@) =~= before.push((start as int, i as int)));
                assert(ranges_of(ranges@) + cuts_from(marks@, i as int) =~= before + cuts_from(
                    marks@,
                    start as int,
                ));
            }
            start = i;
        }
    }
    if start < n {
        proof {
            lemma_cut_end_skip(marks@, start as int, n as int);
            assert(cut_end(marks@, start as int) == n);
            assert(cuts_from(marks@, n as int) =~= Seq::<(int, int)>::empty());
        }
        let ghost before = ranges_of(ranges@);
        ranges.push((start, n));
        proof {
            assert(ranges_of(ranges@) =~= before.push((start as int, n as int)));
        }
    } else {
        proof {
            assert(cuts_from(marks@, n as int) =~= Seq::<(int, int)>::empty());
        }
    }
    ranges
}

/// Cuts a string into its pieces of the given kind; each is a slice of
/// the string.
pub fn cut_pieces<'a>(text: &'a str, kind: Boundary) -> (parts: Vec<&'a str>)
    ensures
        parts.deep_view() == pieces(text@, kind),
{
    let marks = mark_boundaries(text, kind);
    let ranges = cut_after(marks.as_slice());
    proof {
        lemma_cuts_shape(marks@, 0);
    }
    take_ranges(text, ranges.as_slice())
}

} // verus!
