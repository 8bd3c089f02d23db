//! Wrapping text into lines of a bounded display width.
//!
//! A text goes through four steps. It is cut into segments after each
//! newline. Each segment is cut into fragments after each whitespace
//! character; a fragment wider than the line is broken into pieces; and the
//! fragments are packed greedily into lines. Every fragment and every line
//! is a slice of the text.

use crate::greedy::{greedy_groups, groups, lemma_groups_shape, nats_of};
use crate::pieces::{
    cut_pieces, lemma_pieces_flatten, lemma_pieces_shape, pieces, well_formed_piece, Boundary,
};
use crate::ranges::{lemma_tiles_bounds, ranges_of, slices, take_ranges, tiles};
use crate::text::byte_len;
use crate::width::{char_widths, display_width, fits_within, measure_chars, text_width};
use crate::wrap_model::{
    break_text, break_texts, break_word, first_fit, lemma_break_texts_flatten,
    lemma_break_texts_within, lemma_flatten_all, lemma_wrap_round_trip, lemma_wrap_segment_fits,
    lemma_wrap_width_bound, text_widths, within_budget, wrap_lines, wrap_segment,
};
use std::borrow::Cow;
use vstd::prelude::*;
use vstd::seq_lib::lemma_flatten_concat;

verus! {

/// A wrapping unit: a slice of the text with its measured display width.
///
/// `whitespace` is to be inserted after the word unless it ends a line, and
/// `penalty` where it does. The fragments that this module cuts from a
/// text keep both empty: a trailing whitespace character is part of `word`.
#[derive(Debug, Copy, Clone, PartialEq, Eq)]
pub struct WhiteSpaceWord<'a> {
    /// Word content, which may be a single whitespace character.
    pub word: &'a str,
    /// Display width of `word` in columns.
    pub width: u128,
    /// Whitespace to insert if the word does not fall at the end of a line.
    pub whitespace: &'a str,
    /// Penalty string to insert if the word falls at the end of a line.
    pub penalty: &'a str,
}

/// What a fragment stands for: its texts and its width.
pub struct Fragment {
    pub text: Seq<char>,
    pub width: nat,
    pub whitespace: Seq<char>,
    pub penalty: Seq<char>,
}

impl<'a> View for WhiteSpaceWord<'a> {
    type V = Fragment;

    open spec fn view(&self) -> Fragment {
        Fragment {
            text: self.word@,
            width: self.width as nat,
            whitespace: self.whitespace@,
            penalty: self.penalty@,
        }
    }
}

impl<'a> DeepView for WhiteSpaceWord<'a> {
    type V = Fragment;

    open spec fn deep_view(&self) -> Fragment {
        self@
    }
}

/// The fragment that a text makes by itself: measured, with no whitespace
/// and no penalty.
pub open spec fn plain(text: Seq<char>) -> Fragment {
    Fragment {
        text,
        width: text_width(text),
        whitespace: Seq::empty(),
        penalty: Seq::empty(),
    }
}

/// The plain fragments of a sequence of texts.
pub open spec fn plain_all(texts: Seq<Seq<char>>) -> Seq<Fragment> {
    Seq::new(texts.len(), |i: int| plain(texts[i]))
}

/// The texts of a sequence of fragments.
pub open spec fn texts(frags: Seq<Fragment>) -> Seq<Seq<char>> {
    Seq::new(frags.len(), |i: int| frags[i].text)
}

/// The recorded widths of a sequence of fragments.
pub open spec fn widths(frags: Seq<Fragment>) -> Seq<nat> {
    Seq::new(frags.len(), |i: int| frags[i].width)
}

/// Whether the recorded width of a fragment is the width of its text.
pub open spec fn measured(frag: Fragment) -> bool {
    frag.width == text_width(frag.text)
}

/// The fragments of a segment: its pieces that end after each whitespace
/// character, measured.
pub open spec fn fragments_of(seg: Seq<char>) -> Seq<Fragment> {
    plain_all(pieces(seg, Boundary::Whitespace))
}

/// The pieces into which the word breaker cuts a fragment: each is
/// measured anew; the whitespace and the penalty of the fragment go to the
/// last piece, and the others have none.
pub open spec fn break_fragment(frag: Fragment, budget: nat) -> Seq<Fragment> {
    let parts = break_word(frag.text, budget);
    Seq::new(
        parts.len(),
        |i: int|
            if i == parts.len() - 1 {
                Fragment {
                    text: parts[i],
                    width: text_width(parts[i]),
                    whitespace: frag.whitespace,
                    penalty: frag.penalty,
                }
            } else {
                plain(parts[i])
            },
    )
}

/// A fragment as the word breaker leaves it: cut into pieces where its
/// recorded width exceeds the budget, unchanged otherwise.
pub open spec fn break_or_keep(frag: Fragment, budget: nat) -> Seq<Fragment> {
    if frag.width > budget {
        break_fragment(frag, budget)
    } else {
        seq![frag]
    }
}

/// The fragments that the word breaker makes of a sequence of fragments.
pub open spec fn break_fragments(frags: Seq<Fragment>, budget: nat) -> Seq<Fragment> {
    Seq::new(frags.len(), |i: int| break_or_keep(frags[i], budget)).flatten()
}

/// Whether `after` is `before` with lines added at its end, each of them
/// a borrowed slice.
pub open spec fn appended_borrowed<'a>(before: Seq<Cow<'a, str>>, after: Seq<Cow<'a, str>>) -> bool {
    &&& before.len() <= after.len()
    &&& forall|i: int| 0 <= i < before.len() ==> after[i] == before[i]
    &&& forall|i: int| before.len() <= i < after.len() ==> after[i] is Borrowed
}

/// The fragments of a segment are measured, and their texts in order make
/// up the segment: nothing of it is lost and nothing is added.
pub proof fn lemma_fragments_make_up(seg: Seq<char>)
    ensures
        texts(fragments_of(seg)).flatten() == seg,
        forall|i: int| 0 <= i < fragments_of(seg).len() ==> measured(#[trigger] fragments_of(seg)[i]),
{
    assert(texts(fragments_of(seg)) =~= pieces(seg, Boundary::Whitespace));
    lemma_pieces_flatten(seg, Boundary::Whitespace);
}

/// Every fragment of a segment is a run of characters that are no
/// whitespace, followed by one whitespace character; only the last
/// fragment may be without the whitespace character, and no fragment is
/// empty.
pub proof fn lemma_fragments_shape(seg: Seq<char>)
    ensures
        forall|i: int|
            0 <= i < fragments_of(seg).len() ==> well_formed_piece(
                (#[trigger] fragments_of(seg)[i]).text,
                Boundary::Whitespace,
                i == fragments_of(seg).len() - 1,
            ),
{
    lemma_pieces_shape(seg, Boundary::Whitespace);
    assert forall|i: int| 0 <= i < fragments_of(seg).len() implies well_formed_piece(
        (#[trigger] fragments_of(seg)[i]).text,
        Boundary::Whitespace,
        i == fragments_of(seg).len() - 1,
    ) by {
        assert(fragments_of(seg)[i].text == pieces(seg, Boundary::Whitespace)[i]);
    }
}

/// The texts of flattened fragments are the flattened texts.
proof fn lemma_texts_flatten(xs: Seq<Seq<Fragment>>)
    ensures
        texts(xs.flatten()) == Seq::new(xs.len(), |i: int| texts(xs[i])).flatten(),
    decreases xs.len(),
{
    let mapped = Seq::new(xs.len(), |i: int| texts(xs[i]));
    if xs.len() == 0 {
        assert(texts(xs.flatten()) =~= Seq::<Seq<char>>::empty());
        assert(mapped =~= Seq::<Seq<Seq<char>>>::empty());
    } else {
        let rest = xs.drop_first();
        lemma_texts_flatten(rest);
        assert(mapped.drop_first() =~= Seq::new(rest.len(), |i: int| texts(rest[i])));
        assert(texts(xs.first() + rest.flatten()) =~= texts(xs.first()) + texts(rest.flatten()));
    }
}

/// On measured fragments the word breaker does to the fragments what it
/// does to their texts, and it leaves them measured.
pub proof fn lemma_break_fragments_texts(frags: Seq<Fragment>, budget: nat)
    requires
        forall|i: int| 0 <= i < frags.len() ==> measured(#[trigger] frags[i]),
    ensures
        texts(break_fragments(frags, budget)) == break_texts(texts(frags), budget),
        forall|k: int|
            0 <= k < break_fragments(frags, budget).len() ==> measured(
                #[trigger] break_fragments(frags, budget)[k],
            ),
{
    let broken = Seq::new(frags.len(), |i: int| break_or_keep(frags[i], budget));
    lemma_texts_flatten(broken);
    let mapped = Seq::new(broken.len(), |i: int| texts(broken[i]));
    let wanted = Seq::new(frags.len(), |i: int| break_text(texts(frags)[i], budget));
    assert forall|i: int| 0 <= i < frags.len() implies #[trigger] mapped[i] == wanted[i] by {
        assert(measured(frags[i]));
        assert(texts(break_or_keep(frags[i], budget)) =~= break_text(frags[i].text, budget));
    }
    assert(mapped =~= wanted);
    let p = |f: Fragment| measured(f);
    assert forall|i: int, j: int| 0 <= i < broken.len() && 0 <= j < broken[i].len() implies p(
        #[trigger] broken[i][j],
    ) by {
        assert(measured(frags[i]));
    }
    lemma_flatten_all(broken, p);
    assert forall|k: int| 0 <= k < break_fragments(frags, budget).len() implies measured(
        #[trigger] break_fragments(frags, budget)[k],
    ) by {
        assert(p(broken.flatten()[k]));
    }
}

/// Where a run of consecutive texts lies in the flattened whole: it
/// begins after all that the texts before it hold.
pub proof fn lemma_flatten_range(xs: Seq<Seq<char>>, a: int, e: int)
    requires
        0 <= a <= e <= xs.len(),
    ensures
        xs.subrange(0, a).flatten().len() + xs.subrange(a, e).flatten().len() == xs.subrange(
            0,
            e,
        ).flatten().len(),
        xs.subrange(0, e).flatten().len() <= xs.flatten().len(),
        xs.flatten().subrange(
            xs.subrange(0, a).flatten().len() as int,
            xs.subrange(0, e).flatten().len() as int,
        ) == xs.subrange(a, e).flatten(),
{
    let before = xs.subrange(0, a);
    let run = xs.subrange(a, e);
    let after = xs.subrange(e, xs.len() as int);
    assert(xs.subrange(0, e) =~= before + run);
    assert(xs =~= xs.subrange(0, e) + after);
    lemma_flatten_concat(before, run);
    lemma_flatten_concat(xs.subrange(0, e), after);
    assert(xs.flatten().subrange(
        before.flatten().len() as int,
        xs.subrange(0, e).flatten().len() as int,
    ) =~= run.flatten());
}

impl<'a> From<&'a str> for WhiteSpaceWord<'a> {
    /// A fragment of the given text, measured, with no whitespace and no
    /// penalty.
    fn from(word: &'a str) -> (frag: Self)
        ensures
            frag@ == plain(word@),
    {
        proof {
            reveal_strlit("");
            assert(""@ =~= Seq::<char>::empty());
        }
        WhiteSpaceWord { word, width: display_width(word), whitespace: "", penalty: "" }
    }
}

impl<'a> vstd::std_specs::convert::FromSpecImpl<&'a str> for WhiteSpaceWord<'a> {
    open spec fn obeys_from_spec() -> bool {
        true
    }

    open spec fn from_spec(word: &'a str) -> Self {
        WhiteSpaceWord { word, width: text_width(word@) as u128, whitespace: "", penalty: "" }
    }
}

impl<'a> WhiteSpaceWord<'a> {
    /// The text of the fragment.
    pub fn text(&self) -> (t: &'a str)
        ensures
            t == self.word,
    {
        self.word
    }

    /// Whether the fragment's text is a single newline character.
    pub fn is_newline(&self) -> (b: bool)
        ensures
            b == (self.word@ == seq!['\n']),
    {
        let mut seen = false;
        for c in it: self.word.chars()
            invariant
                it.seq() == self.word@,
                seen == (it.index() > 0),
                it.index() <= 1,
                seen ==> self.word@[0] == '\n',
        {
            if seen || c != '\n' {
                return false;
            }
            seen = true;
        }
        proof {
            if seen {
                assert(self.word@ =~= seq!['\n']);
            }
        }
        seen
    }

    /// The same fragment with the given whitespace after it.
    pub fn with_whitespace(self, whitespace: &'a str) -> (frag: Self)
        ensures
            frag == (WhiteSpaceWord { whitespace, ..self }),
    {
        WhiteSpaceWord {
            word: self.word,
            width: self.width,
            whitespace,
            penalty: self.penalty,
        }
    }

    /// Breaks this fragment into pieces of a width of at most `line_width`
    /// each, cutting right before the character that would overflow. A
    /// character is never divided, so a piece may be a single character
    /// wider than `line_width`. The whitespace and the penalty of this
    /// fragment go to the last piece.
    pub fn break_apart(&self, line_width: u16) -> (parts: Vec<WhiteSpaceWord<'a>>)
        ensures
            parts.deep_view() == break_fragment(self@, line_width as nat),
    {
        let ghost budget = line_width as nat;
        let cells = measure_chars(self.word);
        let ranges = greedy_groups(cells.as_slice(), line_width);
        proof {
            assert(nats_of(cells@) =~= char_widths(self.word@));
            lemma_groups_shape(char_widths(self.word@), budget, 0);
            reveal_strlit("");
            assert(""@ =~= Seq::<char>::empty());
        }
        let found = take_ranges(self.word, ranges.as_slice());
        let ghost wanted = break_fragment(self@, budget);
        let mut parts: Vec<WhiteSpaceWord<'a>> = Vec::new();
        let mut i: usize = 0;
        proof {
            assert(parts.deep_view() =~= wanted.take(0));
        }
        while i < found.len()
            invariant
                0 <= i <= found.len(),
                budget == line_width as nat,
                ""@ == Seq::<char>::empty(),
                found.deep_view() == break_word(self.word@, budget),
                wanted == break_fragment(self@, budget),
                parts.deep_view() == wanted.take(i as int),
            decreases found.len() - i,
        {
            let word = found[i];
            let width = display_width(word);
            let ghost before = parts.deep_view();
            let piece = if i + 1 == found.len() {
                WhiteSpaceWord { word, width, whitespace: self.whitespace, penalty: self.penalty }
            } else {
                WhiteSpaceWord { word, width, whitespace: "", penalty: "" }
            };
            parts.push(piece);
            proof {
                assert(word@ == found.deep_view()[i as int]);
                assert(piece@ == wanted[i as int]);
                assert(parts.deep_view() =~= before.push(piece@));
                assert(wanted.take(i + 1) =~= wanted.take(i as int).push(wanted[i as int]));
            }
            i = i + 1;
        }
        proof {
            assert(wanted.take(i as int) =~= wanted);
        }
        parts
    }
}

/// Cuts a segment into fragments. A fragment ends immediately after each
/// whitespace character, so the fragments in order make up the segment.
pub fn separate_into_fragments<'a>(text: &'a str) -> (frags: Vec<WhiteSpaceWord<'a>>)
    ensures
        frags.deep_view() == fragments_of(text@),
        texts(frags.deep_view()).flatten() == text@,
{
    let found = cut_pieces(text, Boundary::Whitespace);
    let ghost wanted = fragments_of(text@);
    let mut frags: Vec<WhiteSpaceWord<'a>> = Vec::new();
    let mut i: usize = 0;
    proof {
        assert(frags.deep_view() =~= wanted.take(0));
    }
    while i < found.len()
        invariant
            0 <= i <= found.len(),
            found.deep_view() == pieces(text@, Boundary::Whitespace),
            wanted == fragments_of(text@),
            frags.deep_view() == wanted.take(i as int),
        decreases found.len() - i,
    {
        let ghost before = frags.deep_view();
        let frag = WhiteSpaceWord::from(found[i]);
        frags.push(frag);
        proof {
            assert(found[i as int]@ == found.deep_view()[i as int]);
            assert(frags.deep_view() =~= before.push(frag@));
            assert(wanted.take(i + 1) =~= wanted.take(i as int).push(wanted[i as int]));
        }
        i = i + 1;
    }
    proof {
        assert(wanted.take(i as int) =~= wanted);
        lemma_fragments_make_up(text@);
    }
    frags
}

/// Forcibly breaks the fragments that are wider than `line_width` into
/// smaller ones; the others pass unchanged.
pub fn break_words<'a>(words: Vec<WhiteSpaceWord<'a>>, line_width: u16) -> (out: Vec<
    WhiteSpaceWord<'a>,
>)
    ensures
        out.deep_view() == break_fragments(words.deep_view(), line_width as nat),
        (forall|i: int| 0 <= i < words.len() ==> measured(#[trigger] words.deep_view()[i]))
            ==> forall|k: int|
            0 <= k < out.len() ==> measured(#[trigger] out.deep_view()[k]) && within_budget(
                out.deep_view()[k].text,
                line_width as nat,
            ),
{
    let ghost budget = line_width as nat;
    let ghost input = words.deep_view();
    let mut out: Vec<WhiteSpaceWord<'a>> = Vec::new();
    let mut i: usize = 0;
    proof {
        assert(Seq::new(0, |j: int| break_or_keep(input[j], budget)) =~= Seq::<
            Seq<Fragment>,
        >::empty());
        assert(out.deep_view() =~= Seq::<Fragment>::empty());
    }
    while i < words.len()
        invariant
            0 <= i <= words.len(),
            budget == line_width as nat,
            input == words.deep_view(),
            out.deep_view() == Seq::new(i as nat, |j: int| break_or_keep(input[j], budget)).flatten(),
        decreases words.len() - i,
    {
        let word = words[i];
        let ghost before = out.deep_view();
        let ghost handled = Seq::new(i as nat, |j: int| break_or_keep(input[j], budget));
        if word.width > line_width as u128 {
            let mut parts = word.break_apart(line_width);
            let ghost added = parts.deep_view();
            out.append(&mut parts);
            proof {
                assert(out.deep_view() =~= before + added);
            }
        } else {
            out.push(word);
            proof {
                assert(out.deep_view() =~= before + seq![word@]);
            }
        }
        proof {
            assert(input[i as int] == word@);
            let piece = break_or_keep(input[i as int], budget);
            assert(Seq::new((i + 1) as nat, |j: int| break_or_keep(input[j], budget)) =~= handled.push(
                piece,
            ));
            handled.lemma_flatten_push(piece);
        }
        i = i + 1;
    }
    proof {
        assert(Seq::new(i as nat, |j: int| break_or_keep(input[j], budget)) =~= Seq::new(
            input.len(),
            |j: int| break_or_keep(input[j], budget),
        ));
        if forall|i: int| 0 <= i < input.len() ==> measured(#[trigger] input[i]) {
            lemma_break_fragments_texts(input, budget);
            lemma_break_texts_within(texts(input), budget);
            assert forall|k: int| 0 <= k < out.len() implies within_budget(
                (#[trigger] out.deep_view()[k]).text,
                budget,
            ) by {
                assert(texts(out.deep_view())[k] == out.deep_view()[k].text);
            }
        }
    }
    out
}

/// Packs fragments into lines, greedily: a line takes fragments for as
/// long as their recorded widths together stay within `line_width`, and
/// the first that would overflow begins the next line. A fragment that is
/// by itself wider than `line_width` has a line of its own. Each line comes
/// as a half-open range of indices; without fragments there is one empty
/// line.
pub fn wrap_first_fit(fragments: &[WhiteSpaceWord<'_>], line_width: u16) -> (lines: Vec<
    (usize, usize),
>)
    ensures
        ranges_of(lines@) == first_fit(widths(fragments.deep_view()), line_width as nat),
{
    let mut cells: Vec<u128> = Vec::new();
    let mut i: usize = 0;
    while i < fragments.len()
        invariant
            0 <= i <= fragments.len(),
            cells@.len() == i,
            forall|j: int| 0 <= j < i ==> cells@[j] == fragments@[j].width,
        decreases fragments.len() - i,
    {
        cells.push(fragments[i].width);
        i = i + 1;
    }
    proof {
        assert(nats_of(cells@) =~= widths(fragments.deep_view()));
    }
    if fragments.len() == 0 {
        let mut lines: Vec<(usize, usize)> = Vec::new();
        lines.push((0, 0));
        proof {
            assert(ranges_of(lines@) =~= seq![(0int, 0int)]);
        }
        lines
    } else {
        greedy_groups(cells.as_slice(), line_width)
    }
}

/// The ranges of characters of a segment that its lines take up, given
/// the fragments of the segment and the ranges of fragments that make up
/// the lines.
fn line_spans(broken: &[WhiteSpaceWord<'_>], groups: &[(usize, usize)], limit: usize) -> (spans: Vec<
    (usize, usize),
>)
    requires
        tiles(ranges_of(groups@), 0, broken@.len() as int),
        groups@.len() > 0,
        texts(broken.deep_view()).flatten().len() <= limit,
    ensures
        tiles(ranges_of(spans@), 0, texts(broken.deep_view()).flatten().len() as int),
        spans@.len() == groups@.len(),
        forall|g: int|
            0 <= g < groups@.len() ==> slices(
                texts(broken.deep_view()).flatten(),
                ranges_of(spans@),
            )[g] == #[trigger] texts(broken.deep_view()).subrange(
                ranges_of(groups@)[g].0,
                ranges_of(groups@)[g].1,
            ).flatten(),
{
    let ghost parts = texts(broken.deep_view());
    let ghost ranges = ranges_of(groups@);
    let mut spans: Vec<(usize, usize)> = Vec::new();
    let mut pos: usize = 0;
    let mut g: usize = 0;
    proof {
        assert(parts.subrange(0, 0) =~= Seq::<Seq<char>>::empty());
    }
    while g < groups.len()
        invariant
            0 <= g <= groups.len(),
            parts == texts(broken.deep_view()),
            parts.len() == broken@.len(),
            ranges == ranges_of(groups@),
            tiles(ranges, 0, broken@.len() as int),
            groups@.len() > 0,
            parts.flatten().len() <= limit,
            spans@.len() == g,
            g < groups.len() ==> pos == parts.subrange(0, ranges[g as int].0).flatten().len(),
            g == groups.len() ==> pos == parts.flatten().len(),
            g > 0 ==> ranges_of(spans@).first().0 == 0 && ranges_of(spans@).last().1 == pos,
            forall|k: int| 0 <= k < g ==> (#[trigger] ranges_of(spans@)[k]).0 <= ranges_of(spans@)[k].1,
            forall|k: int|
                0 <= k < g - 1 ==> (#[trigger] ranges_of(spans@)[k]).1 == ranges_of(spans@)[k + 1].0,
            forall|k: int|
                0 <= k < g ==> parts.flatten().subrange(
                    (#[trigger] ranges_of(spans@)[k]).0,
                    ranges_of(spans@)[k].1,
                ) == parts.subrange(ranges[k].0, ranges[k].1).flatten(),
        decreases groups.len() - g,
    {
        let (first, last) = groups[g];
        proof {
            assert(ranges[g as int] == (first as int, last as int));
            lemma_tiles_bounds(ranges, 0, broken@.len() as int, g as int);
            lemma_flatten_range(parts, first as int, first as int);
            assert(parts.subrange(first as int, first as int) =~= Seq::<Seq<char>>::empty());
        }
        let mut len: usize = 0;
        let mut j: usize = first;
        while j < last
            invariant
                first <= j <= last <= broken@.len(),
                parts == texts(broken.deep_view()),
                parts.len() == broken@.len(),
                parts.flatten().len() <= limit,
                pos == parts.subrange(0, first as int).flatten().len(),
                len == parts.subrange(first as int, j as int).flatten().len(),
                pos + len == parts.subrange(0, j as int).flatten().len(),
            decreases last - j,
        {
            let count = broken[j].word.unicode_len();
            proof {
                assert(parts[j as int] == broken[j as int].word@);
                assert(parts.subrange(first as int, j + 1) =~= parts.subrange(
                    first as int,
                    j as int,
                ).push(parts[j as int]));
                parts.subrange(first as int, j as int).lemma_flatten_push(parts[j as int]);
                lemma_flatten_range(parts, first as int, j + 1);
            }
            len = len + count;
            j = j + 1;
        }
        proof {
            lemma_flatten_range(parts, first as int, last as int);
        }
        let ghost before = ranges_of(spans@);
        spans.push((pos, pos + len));
        proof {
            let after = ranges_of(spans@);
            assert(after =~= before.push((pos as int, pos + len)));
            assert forall|k: int| 0 <= k < g + 1 implies parts.flatten().subrange(
                (#[trigger] after[k]).0,
                after[k].1,
            ) == parts.subrange(ranges[k].0, ranges[k].1).flatten() by {
                if k < g {
                    assert(after[k] == before[k]);
                }
            }
            assert forall|k: int| 0 <= k < g implies (#[trigger] after[k]).1 == after[k + 1].0 by {
                assert(after[k] == before[k]);
                if k + 1 < g {
                    assert(after[k + 1] == before[k + 1]);
                }
            }
            assert forall|k: int| 0 <= k < g + 1 implies (#[trigger] after[k]).0 <= after[k].1 by {
                if k < g {
                    assert(after[k] == before[k]);
                }
            }
            if g > 0 {
                assert(after.first() == before.first());
            }
            if g + 1 < groups.len() {
                assert(ranges[g as int].1 == ranges[g + 1].0);
            } else {
                assert(ranges.last().1 == broken@.len());
                assert(parts.subrange(0, parts.len() as int) =~= parts);
            }
        }
        pos = pos + len;
        g = g + 1;
    }
    proof {
        let found = ranges_of(spans@);
        assert forall|k: int| 0 <= k < groups@.len() implies slices(parts.flatten(), found)[k]
            == #[trigger] parts.subrange(ranges[k].0, ranges[k].1).flatten() by {
            assert(parts.flatten().subrange(found[k].0, found[k].1) == parts.subrange(
                ranges[k].0,
                ranges[k].1,
            ).flatten());
        }
    }
    spans
}

/// Wraps a single segment by cutting it into fragments, breaking those
/// that are too wide, and packing them into lines.
pub fn wrap_single_line_slow_path<'a>(line: &'a str, width: u16, lines: &mut Vec<Cow<'a, str>>)
    ensures
        final(lines).deep_view() == old(lines).deep_view() + wrap_segment(line@, width as nat),
        appended_borrowed(old(lines)@, final(lines)@),
{
    let ghost budget = width as nat;
    let ghost earlier = lines.deep_view();
    let words = separate_into_fragments(line);
    let broken = break_words(words, width);
    let packed = broken.as_slice();
    let groups = wrap_first_fit(packed, width);
    let limit = byte_len(line);
    let ghost frags = broken.deep_view();
    let ghost parts = texts(frags);
    let ghost wrapped = wrap_segment(line@, budget);
    proof {
        let cut = pieces(line@, Boundary::Whitespace);
        assert(texts(fragments_of(line@)) =~= cut);
        lemma_break_fragments_texts(fragments_of(line@), budget);
        assert(parts == break_texts(cut, budget));
        assert(widths(frags) =~= text_widths(parts)) by {
            assert forall|i: int| 0 <= i < frags.len() implies widths(frags)[i] == text_widths(
                parts,
            )[i] by {
                assert(measured(frags[i]));
            }
        }
        assert(packed.deep_view() =~= frags);
        lemma_break_texts_flatten(cut, budget);
        lemma_pieces_flatten(line@, Boundary::Whitespace);
        assert(parts.flatten() == line@);
        if frags.len() > 0 {
            lemma_groups_shape(text_widths(parts), budget, 0);
        }
    }
    let spans = line_spans(packed, groups.as_slice(), limit);
    let found = take_ranges(line, spans.as_slice());
    proof {
        assert(found.deep_view() =~= wrapped) by {
            assert forall|g: int| 0 <= g < wrapped.len() implies found.deep_view()[g] == wrapped[g] by {
                assert(slices(line@, ranges_of(spans@))[g] == parts.subrange(
                    ranges_of(groups@)[g].0,
                    ranges_of(groups@)[g].1,
                ).flatten());
            }
        }
        assert(earlier + wrapped.take(0) =~= earlier);
    }
    let mut g: usize = 0;
    while g < found.len()
        invariant
            0 <= g <= found.len(),
            found.deep_view() == wrapped,
            lines.deep_view() == earlier + wrapped.take(g as int),
            appended_borrowed(old(lines)@, lines@),
        decreases found.len() - g,
    {
        let ghost before = lines.deep_view();
        let text = found[g];
        lines.push(Cow::Borrowed(text));
        proof {
            assert(text@ == found.deep_view()[g as int]);
            assert(lines.deep_view() =~= before.push(text@));
            assert(wrapped.take(g + 1) =~= wrapped.take(g as int).push(wrapped[g as int]));
        }
        g = g + 1;
    }
    proof {
        assert(wrapped.take(g as int) =~= wrapped);
    }
}

/// Wraps a single segment, appending its lines to `lines`. A segment that
/// fits the width is appended as it is, which is what cutting and packing
/// it would give.
pub fn wrap_single_line<'a>(line: &'a str, width: u16, lines: &mut Vec<Cow<'a, str>>)
    ensures
        final(lines).deep_view() == old(lines).deep_view() + wrap_segment(line@, width as nat),
        appended_borrowed(old(lines)@, final(lines)@),
{
    if fits_within(line, width) {
        let ghost before = lines.deep_view();
        lines.push(Cow::Borrowed(line));
        proof {
            lemma_wrap_segment_fits(line@, width as nat);
            assert(lines.deep_view() =~= before + seq![line@]);
        }
    } else {
        wrap_single_line_slow_path(line, width, lines)
    }
}

/// Wraps `text` into lines of a display width of at most `width` columns.
///
/// The text is split after each newline, and each of the segments is
/// wrapped by itself, so no line runs across a newline; the newline stays
/// at the end of the line that it closes. Every line is a slice of `text`,
/// and the lines in order make up `text`. An empty text has no line.
pub fn wrap<'a>(text: &'a str, width: u16) -> (lines: Vec<Cow<'a, str>>)
    ensures
        lines.deep_view() == wrap_lines(text@, width as nat),
        lines.deep_view().flatten() == text@,
        forall|i: int|
            0 <= i < lines.len() ==> within_budget(#[trigger] lines.deep_view()[i], width as nat),
        forall|i: int| 0 <= i < lines.len() ==> #[trigger] lines@[i] is Borrowed,
{
    let ghost budget = width as nat;
    let segments = cut_pieces(text, Boundary::Newline);
    let ghost segs = segments.deep_view();
    let mut lines: Vec<Cow<'a, str>> = Vec::new();
    let mut i: usize = 0;
    proof {
        assert(lines.deep_view() =~= Seq::<Seq<char>>::empty());
        assert(Seq::new(0, |j: int| wrap_segment(segs[j], budget)) =~= Seq::<Seq<Seq<char>>>::empty());
    }
    while i < segments.len()
        invariant
            0 <= i <= segments.len(),
            budget == width as nat,
            segs == segments.deep_view(),
            segs == pieces(text@, Boundary::Newline),
            forall|j: int| 0 <= j < lines.len() ==> #[trigger] lines@[j] is Borrowed,
            lines.deep_view() == Seq::new(i as nat, |j: int| wrap_segment(segs[j], budget)).flatten(),
        decreases segments.len() - i,
    {
        let ghost handled = Seq::new(i as nat, |j: int| wrap_segment(segs[j], budget));
        let segment = segments[i];
        proof {
            assert(segment@ == segs[i as int]);
            assert(Seq::new((i + 1) as nat, |j: int| wrap_segment(segs[j], budget)) =~= handled.push(
                wrap_segment(segs[i as int], budget),
            ));
            handled.lemma_flatten_push(wrap_segment(segs[i as int], budget));
        }
        wrap_single_line(segment, width, &mut lines);
        i = i + 1;
    }
    proof {
        assert(Seq::new(i as nat, |j: int| wrap_segment(segs[j], budget)) =~= Seq::new(
            segs.len(),
            |j: int| wrap_segment(segs[j], budget),
        ));
        lemma_wrap_round_trip(text@, budget);
        lemma_wrap_width_bound(text@, budget);
    }
    lines
}

} // verus!
