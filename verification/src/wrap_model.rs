//! What wrapping a text means: the lines that a text yields under a width
//! budget, and the laws that hold of them.
//!
//! A text is cut into segments after each newline. A segment is cut into
//! fragments after each whitespace character; a fragment wider than the
//! budget is broken into pieces; the fragments are then packed greedily
//! into lines.

use crate::greedy::{fits_or_single, groups, lemma_groups_shape, lemma_groups_single};
use crate::pieces::{lemma_pieces_flatten, pieces, Boundary};
use crate::ranges::{lemma_slices_flatten, slices};
use crate::width::{
    char_widths, lemma_char_widths_subrange, lemma_text_width_concat, lemma_total_push, text_width,
    total,
};
use vstd::prelude::*;
use vstd::seq_lib::lemma_flatten_concat;

verus! {

/// The pieces into which a word is broken so that each stays within the
/// budget: the greedy groups of its characters.
pub open spec fn break_word(word: Seq<char>, budget: nat) -> Seq<Seq<char>> {
    slices(word, groups(char_widths(word), budget))
}

/// A fragment as the word breaker leaves it: broken where it is wider than
/// the budget, whole otherwise.
pub open spec fn break_text(word: Seq<char>, budget: nat) -> Seq<Seq<char>> {
    if text_width(word) > budget {
        break_word(word, budget)
    } else {
        seq![word]
    }
}

/// The fragments of a segment after the word breaker has gone over them.
pub open spec fn break_texts(frags: Seq<Seq<char>>, budget: nat) -> Seq<Seq<char>> {
    Seq::new(frags.len(), |i: int| break_text(frags[i], budget)).flatten()
}

/// The display width of each fragment.
pub open spec fn text_widths(frags: Seq<Seq<char>>) -> Seq<nat> {
    Seq::new(frags.len(), |i: int| text_width(frags[i]))
}

/// The ranges of fragments that make up the lines: the greedy groups of
/// the fragments' widths. Without any fragment there is one empty line.
pub open spec fn first_fit(ws: Seq<nat>, budget: nat) -> Seq<(int, int)> {
    if ws.len() == 0 {
        seq![(0int, 0int)]
    } else {
        groups(ws, budget)
    }
}

/// The lines into which fragments are packed.
pub open spec fn pack_lines(frags: Seq<Seq<char>>, budget: nat) -> Seq<Seq<char>> {
    let ranges = first_fit(text_widths(frags), budget);
    Seq::new(ranges.len(), |i: int| frags.subrange(ranges[i].0, ranges[i].1).flatten())
}

/// The lines of one segment, which holds no newline but possibly at its end.
pub open spec fn wrap_segment(seg: Seq<char>, budget: nat) -> Seq<Seq<char>> {
    pack_lines(break_texts(pieces(seg, Boundary::Whitespace), budget), budget)
}

/// The lines of a text: those of its segments, in order.
pub open spec fn wrap_lines(text: Seq<char>, budget: nat) -> Seq<Seq<char>> {
    let segs = pieces(text, Boundary::Newline);
    Seq::new(segs.len(), |i: int| wrap_segment(segs[i], budget)).flatten()
}

/// Whether a line respects the budget: it is no wider, or it is a single
/// character, which cannot be divided.
pub open spec fn within_budget(line: Seq<char>, budget: nat) -> bool {
    text_width(line) <= budget || line.len() == 1
}

/// Flattening twice is flattening each inner sequence first.
pub proof fn lemma_flatten_twice<A>(xss: Seq<Seq<Seq<A>>>)
    ensures
        Seq::new(xss.len(), |i: int| xss[i].flatten()).flatten() == xss.flatten().flatten(),
    decreases xss.len(),
{
    let inner = Seq::new(xss.len(), |i: int| xss[i].flatten());
    if xss.len() == 0 {
        assert(inner =~= Seq::<Seq<A>>::empty());
    } else {
        let rest = xss.drop_first();
        lemma_flatten_twice(rest);
        let inner_rest = Seq::new(rest.len(), |i: int| rest[i].flatten());
        assert(inner.drop_first() =~= inner_rest);
        assert(inner.first() == xss.first().flatten());
        lemma_flatten_concat(xss.first(), rest.flatten());
    }
}

/// What holds of every element of every inner sequence holds of every
/// element of the flattened sequence.
pub proof fn lemma_flatten_all<A>(xs: Seq<Seq<A>>, p: spec_fn(A) -> bool)
    requires
        forall|i: int, j: int| 0 <= i < xs.len() && 0 <= j < xs[i].len() ==> p(#[trigger] xs[i][j]),
    ensures
        forall|k: int| 0 <= k < xs.flatten().len() ==> p(#[trigger] xs.flatten()[k]),
    decreases xs.len(),
{
    if xs.len() > 0 {
        let rest = xs.drop_first();
        assert forall|i: int, j: int| 0 <= i < rest.len() && 0 <= j < rest[i].len() implies p(
            #[trigger] rest[i][j],
        ) by {
            assert(rest[i][j] == xs[i + 1][j]);
        }
        lemma_flatten_all(rest, p);
        let flat = xs.flatten();
        assert forall|k: int| 0 <= k < flat.len() implies p(#[trigger] flat[k]) by {
            if k < xs.first().len() {
                assert(flat[k] == xs[0][k]);
            } else {
                assert(flat[k] == rest.flatten()[k - xs.first().len()]);
            }
        }
    }
}

/// Flattening a sequence of one-element sequences gives the elements.
pub proof fn lemma_flatten_singletons<A>(xs: Seq<A>)
    ensures
        Seq::new(xs.len(), |i: int| seq![xs[i]]).flatten() == xs,
    decreases xs.len(),
{
    let wrapped = Seq::new(xs.len(), |i: int| seq![xs[i]]);
    if xs.len() == 0 {
        assert(xs =~= Seq::<A>::empty());
    } else {
        let rest = xs.drop_first();
        lemma_flatten_singletons(rest);
        assert(wrapped.drop_first() =~= Seq::new(rest.len(), |i: int| seq![rest[i]]));
        assert(wrapped.flatten() =~= xs);
    }
}

/// The width of fragments put together is the sum of their widths.
pub proof fn lemma_text_width_flatten(frags: Seq<Seq<char>>)
    ensures
        text_width(frags.flatten()) == total(text_widths(frags)),
    decreases frags.len(),
{
    if frags.len() == 0 {
        assert(char_widths(frags.flatten()) =~= Seq::<nat>::empty());
        assert(text_widths(frags) =~= Seq::<nat>::empty());
    } else {
        let init = frags.drop_last();
        lemma_text_width_flatten(init);
        assert(frags =~= init.push(frags.last()));
        init.lemma_flatten_push(frags.last());
        lemma_text_width_concat(init.flatten(), frags.last());
        assert(text_widths(frags) =~= text_widths(init).push(text_width(frags.last())));
        lemma_total_push(text_widths(init), text_width(frags.last()));
    }
}

/// No width in a sequence exceeds the sum of them all.
pub proof fn lemma_total_bounds_each(ws: Seq<nat>, i: int)
    requires
        0 <= i < ws.len(),
    ensures
        ws[i] <= total(ws),
    decreases ws.len(),
{
    if i < ws.len() - 1 {
        lemma_total_bounds_each(ws.drop_last(), i);
    }
}

/// The pieces of a broken word, put together again, are the word.
pub proof fn lemma_break_word_flatten(word: Seq<char>, budget: nat)
    ensures
        break_word(word, budget).flatten() == word,
{
    lemma_groups_shape(char_widths(word), budget, 0);
    lemma_slices_flatten(word, groups(char_widths(word), budget), 0);
    assert(word.subrange(0, word.len() as int) =~= word);
}

/// Each piece of a broken word is within the budget or a single character,
/// and none is empty.
pub proof fn lemma_break_word_pieces(word: Seq<char>, budget: nat)
    ensures
        forall|i: int|
            0 <= i < break_word(word, budget).len() ==> within_budget(
                #[trigger] break_word(word, budget)[i],
                budget,
            ) && break_word(word, budget)[i].len() > 0,
{
    let ws = char_widths(word);
    let ranges = groups(ws, budget);
    lemma_groups_shape(ws, budget, 0);
    assert forall|i: int| 0 <= i < break_word(word, budget).len() implies within_budget(
        #[trigger] break_word(word, budget)[i],
        budget,
    ) && break_word(word, budget)[i].len() > 0 by {
        let range = ranges[i];
        assert(fits_or_single(ws, budget, range));
        lemma_char_widths_subrange(word, range.0, range.1);
    }
}

/// Breaking fragments changes nothing of the text they make up.
pub proof fn lemma_break_texts_flatten(frags: Seq<Seq<char>>, budget: nat)
    ensures
        break_texts(frags, budget).flatten() == frags.flatten(),
{
    let broken = Seq::new(frags.len(), |i: int| break_text(frags[i], budget));
    lemma_flatten_twice(broken);
    assert forall|i: int| 0 <= i < frags.len() implies #[trigger] broken[i].flatten() == frags[i] by {
        if text_width(frags[i]) > budget {
            lemma_break_word_flatten(frags[i], budget);
        } else {
            seq![frags[i]].lemma_flatten_one_element();
        }
    }
    assert(Seq::new(broken.len(), |i: int| broken[i].flatten()) =~= frags);
}

/// After the word breaker every fragment is within the budget or a single
/// character.
pub proof fn lemma_break_texts_within(frags: Seq<Seq<char>>, budget: nat)
    ensures
        forall|k: int|
            0 <= k < break_texts(frags, budget).len() ==> within_budget(
                #[trigger] break_texts(frags, budget)[k],
                budget,
            ),
{
    let broken = Seq::new(frags.len(), |i: int| break_text(frags[i], budget));
    let p = |f: Seq<char>| within_budget(f, budget);
    assert forall|i: int, j: int| 0 <= i < broken.len() && 0 <= j < broken[i].len() implies p(
        #[trigger] broken[i][j],
    ) by {
        if text_width(frags[i]) > budget {
            lemma_break_word_pieces(frags[i], budget);
        }
    }
    lemma_flatten_all(broken, p);
    assert forall|k: int| 0 <= k < break_texts(frags, budget).len() implies within_budget(
        #[trigger] break_texts(frags, budget)[k],
        budget,
    ) by {
        assert(p(broken.flatten()[k]));
    }
}

/// Packing fragments into lines changes nothing of the text they make up.
pub proof fn lemma_pack_lines_flatten(frags: Seq<Seq<char>>, budget: nat)
    ensures
        pack_lines(frags, budget).flatten() == frags.flatten(),
{
    let ws = text_widths(frags);
    let ranges = first_fit(ws, budget);
    let parts = slices(frags, ranges);
    lemma_flatten_twice(parts);
    assert(pack_lines(frags, budget) =~= Seq::new(parts.len(), |i: int| parts[i].flatten()));
    if frags.len() == 0 {
        assert(text_widths(frags).len() == 0);
        assert(parts.len() == 1);
        assert(parts[0] =~= Seq::<Seq<char>>::empty());
        assert(parts =~= seq![Seq::<Seq<char>>::empty()]);
        parts.lemma_flatten_one_element();
        assert(frags =~= Seq::<Seq<char>>::empty());
    } else {
        lemma_groups_shape(ws, budget, 0);
        lemma_slices_flatten(frags, ranges, 0);
        assert(frags.subrange(0, frags.len() as int) =~= frags);
    }
}

/// Fragments that are each within the budget or a single character are
/// packed into lines of which the same holds.
pub proof fn lemma_pack_lines_within(frags: Seq<Seq<char>>, budget: nat)
    requires
        forall|k: int| 0 <= k < frags.len() ==> within_budget(#[trigger] frags[k], budget),
    ensures
        forall|i: int|
            0 <= i < pack_lines(frags, budget).len() ==> within_budget(
                #[trigger] pack_lines(frags, budget)[i],
                budget,
            ),
{
    let ws = text_widths(frags);
    let ranges = first_fit(ws, budget);
    let lines = pack_lines(frags, budget);
    assert forall|i: int| 0 <= i < lines.len() implies within_budget(#[trigger] lines[i], budget) by {
        let range = ranges[i];
        let part = frags.subrange(range.0, range.1);
        assert(lines[i] == part.flatten());
        lemma_text_width_flatten(part);
        if frags.len() == 0 {
            assert(part =~= Seq::<Seq<char>>::empty());
        } else {
            lemma_groups_shape(ws, budget, 0);
            assert(fits_or_single(ws, budget, range));
            assert(text_widths(part) =~= ws.subrange(range.0, range.1));
            if range.1 == range.0 + 1 {
                part.lemma_flatten_one_element();
                assert(part.first() == frags[range.0]);
            }
        }
    }
}

/// The lines of a segment, put together again, are the segment.
pub proof fn lemma_wrap_segment_flatten(seg: Seq<char>, budget: nat)
    ensures
        wrap_segment(seg, budget).flatten() == seg,
{
    let frags = pieces(seg, Boundary::Whitespace);
    lemma_pack_lines_flatten(break_texts(frags, budget), budget);
    lemma_break_texts_flatten(frags, budget);
    lemma_pieces_flatten(seg, Boundary::Whitespace);
}

/// Every line of a segment is within the budget or a single character.
pub proof fn lemma_wrap_segment_within(seg: Seq<char>, budget: nat)
    ensures
        forall|i: int|
            0 <= i < wrap_segment(seg, budget).len() ==> within_budget(
                #[trigger] wrap_segment(seg, budget)[i],
                budget,
            ),
{
    let frags = pieces(seg, Boundary::Whitespace);
    lemma_break_texts_within(frags, budget);
    lemma_pack_lines_within(break_texts(frags, budget), budget);
}

/// A segment that fits the budget is its own single line: wrapping it
/// takes nothing apart.
pub proof fn lemma_wrap_segment_fits(seg: Seq<char>, budget: nat)
    requires
        text_width(seg) <= budget,
    ensures
        wrap_segment(seg, budget) == seq![seg],
{
    let frags = pieces(seg, Boundary::Whitespace);
    let ws = text_widths(frags);
    lemma_pieces_flatten(seg, Boundary::Whitespace);
    lemma_text_width_flatten(frags);
    let whole = Seq::new(frags.len(), |i: int| break_text(frags[i], budget));
    assert forall|i: int| 0 <= i < frags.len() implies #[trigger] whole[i] == seq![frags[i]] by {
        lemma_total_bounds_each(ws, i);
    }
    assert(whole =~= Seq::new(frags.len(), |i: int| seq![frags[i]]));
    lemma_flatten_singletons(frags);
    assert(break_texts(frags, budget) == frags);
    let lines = pack_lines(frags, budget);
    if frags.len() == 0 {
        assert(frags.subrange(0, 0) =~= frags);
        assert(lines =~= seq![seg]);
    } else {
        lemma_groups_single(ws, budget);
        assert(frags.subrange(0, frags.len() as int) =~= frags);
        assert(lines =~= seq![seg]);
    }
}

/// Round trip: the lines of a text, put together again, are the text.
/// Nothing is dropped and nothing is added, and a newline stays at the end
/// of the line that it closes.
pub proof fn lemma_wrap_round_trip(text: Seq<char>, budget: nat)
    ensures
        wrap_lines(text, budget).flatten() == text,
{
    let segs = pieces(text, Boundary::Newline);
    let wrapped = Seq::new(segs.len(), |i: int| wrap_segment(segs[i], budget));
    lemma_flatten_twice(wrapped);
    assert forall|i: int| 0 <= i < segs.len() implies #[trigger] wrapped[i].flatten() == segs[i] by {
        lemma_wrap_segment_flatten(segs[i], budget);
    }
    assert(Seq::new(wrapped.len(), |i: int| wrapped[i].flatten()) =~= segs);
    lemma_pieces_flatten(text, Boundary::Newline);
}

/// Width bound: no line of a text is wider than the budget, except a line
/// that consists of a single character wider than the budget.
pub proof fn lemma_wrap_width_bound(text: Seq<char>, budget: nat)
    ensures
        forall|i: int|
            0 <= i < wrap_lines(text, budget).len() ==> within_budget(
                #[trigger] wrap_lines(text, budget)[i],
                budget,
            ),
{
    let segs = pieces(text, Boundary::Newline);
    let wrapped = Seq::new(segs.len(), |i: int| wrap_segment(segs[i], budget));
    let p = |line: Seq<char>| within_budget(line, budget);
    assert forall|i: int, j: int| 0 <= i < wrapped.len() && 0 <= j < wrapped[i].len() implies p(
        #[trigger] wrapped[i][j],
    ) by {
        lemma_wrap_segment_within(segs[i], budget);
    }
    lemma_flatten_all(wrapped, p);
    assert forall|i: int| 0 <= i < wrap_lines(text, budget).len() implies within_budget(
        #[trigger] wrap_lines(text, budget)[i],
        budget,
    ) by {
        assert(p(wrapped.flatten()[i]));
    }
}

} // verus!
