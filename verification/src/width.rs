//! Display-cell widths of characters and of runs of text.
//!
//! Widths are counted in terminal columns. A sum of widths over a text is
//! held in `u128`, which no text that fits in memory can overflow: a single
//! character is at most three columns wide.

use crate::text::byte_len;
use unicode_width::UnicodeWidthChar;
use vstd::prelude::*;

verus! {

/// The width that the `unicode-width` tables assign to a character, in
/// terminal columns; `None` for a control character.
pub uninterp spec fn unicode_cells(c: char) -> Option<usize>;

/// Calls `UnicodeWidthChar::width` of the `unicode-width` crate.
///
/// The result is a fixed function of the character, and the crate's lookup
/// never yields more than three columns for one character (its table
/// entries are two bits wide, and the one special case above two is three).
#[verifier::external_body]
fn unicode_cells_of(c: char) -> (w: Option<usize>)
    ensures
        w == unicode_cells(c),
        w matches Some(n) ==> n <= 3,
{
    UnicodeWidthChar::width(c)
}

/// Number of terminal columns that a character occupies; a control
/// character occupies none.
pub open spec fn char_width(c: char) -> nat {
    match unicode_cells(c) {
        Some(n) => n as nat,
        None => 0,
    }
}

/// Number of columns by which a character moves the cursor: a newline
/// counts as one column, any other character as its display width.
pub open spec fn cursor_width(c: char) -> nat {
    if c == '\n' {
        1
    } else {
        char_width(c)
    }
}

/// Sum of a sequence of widths.
pub open spec fn total(ws: Seq<nat>) -> nat
    decreases ws.len(),
{
    if ws.len() == 0 {
        0
    } else {
        total(ws.drop_last()) + ws.last()
    }
}

/// The display width of each character of a text.
pub open spec fn char_widths(s: Seq<char>) -> Seq<nat> {
    Seq::new(s.len(), |i: int| char_width(s[i]))
}

/// The cursor width of each character of a text.
pub open spec fn cursor_widths(s: Seq<char>) -> Seq<nat> {
    Seq::new(s.len(), |i: int| cursor_width(s[i]))
}

/// Display width of a text: the sum of its characters' display widths.
pub open spec fn text_width(s: Seq<char>) -> nat {
    total(char_widths(s))
}

/// Distance that a text moves the cursor: the sum of its characters'
/// cursor widths.
pub open spec fn cursor_text_width(s: Seq<char>) -> nat {
    total(cursor_widths(s))
}

/// Appending one width adds it to the sum.
pub proof fn lemma_total_push(ws: Seq<nat>, w: nat)
    ensures
        total(ws.push(w)) == total(ws) + w,
{
    assert(ws.push(w).drop_last() =~= ws);
}

/// The sum over a concatenation is the sum of the sums.
pub proof fn lemma_total_concat(a: Seq<nat>, b: Seq<nat>)
    ensures
        total(a + b) == total(a) + total(b),
    decreases b.len(),
{
    if b.len() == 0 {
        assert(a + b =~= a);
    } else {
        lemma_total_concat(a, b.drop_last());
        assert((a + b).drop_last() =~= a + b.drop_last());
    }
}

/// A range that grows by one element grows in sum by that element.
pub proof fn lemma_total_extend(ws: Seq<nat>, a: int, k: int)
    requires
        0 <= a <= k < ws.len(),
    ensures
        total(ws.subrange(a, k + 1)) == total(ws.subrange(a, k)) + ws[k],
{
    assert(ws.subrange(a, k + 1).drop_last() =~= ws.subrange(a, k));
}

/// A range of widths sums to no more than a range that contains it.
pub proof fn lemma_total_monotone(ws: Seq<nat>, a: int, k: int, m: int)
    requires
        0 <= a <= k <= m <= ws.len(),
    ensures
        total(ws.subrange(a, k)) <= total(ws.subrange(a, m)),
    decreases m - k,
{
    if k < m {
        lemma_total_monotone(ws, a, k, m - 1);
        lemma_total_extend(ws, a, m - 1);
    }
}

/// The widths of a part of a text are that part of the text's widths.
pub proof fn lemma_char_widths_subrange(s: Seq<char>, a: int, b: int)
    requires
        0 <= a <= b <= s.len(),
    ensures
        char_widths(s.subrange(a, b)) == char_widths(s).subrange(a, b),
        cursor_widths(s.subrange(a, b)) == cursor_widths(s).subrange(a, b),
{
    assert(char_widths(s.subrange(a, b)) =~= char_widths(s).subrange(a, b));
    assert(cursor_widths(s.subrange(a, b)) =~= cursor_widths(s).subrange(a, b));
}

/// The width of a concatenation is the sum of the widths.
pub proof fn lemma_text_width_concat(a: Seq<char>, b: Seq<char>)
    ensures
        text_width(a + b) == text_width(a) + text_width(b),
        cursor_text_width(a + b) == cursor_text_width(a) + cursor_text_width(b),
{
    assert(char_widths(a + b) =~= char_widths(a) + char_widths(b));
    lemma_total_concat(char_widths(a), char_widths(b));
    assert(cursor_widths(a + b) =~= cursor_widths(a) + cursor_widths(b));
    lemma_total_concat(cursor_widths(a), cursor_widths(b));
}

/// Appending one character adds its width to the width of the text.
pub proof fn lemma_text_width_push(s: Seq<char>, c: char)
    ensures
        text_width(s.push(c)) == text_width(s) + char_width(c),
        cursor_text_width(s.push(c)) == cursor_text_width(s) + cursor_width(c),
{
    assert(char_widths(s.push(c)) =~= char_widths(s).push(char_width(c)));
    lemma_total_push(char_widths(s), char_width(c));
    assert(cursor_widths(s.push(c)) =~= cursor_widths(s).push(cursor_width(c)));
    lemma_total_push(cursor_widths(s), cursor_width(c));
}

/// Number of terminal columns that `c` occupies when displayed.
pub fn compute_character_width(c: char) -> (w: u16)
    ensures
        w as nat == char_width(c),
        w <= 3,
{
    match unicode_cells_of(c) {
        Some(n) => n as u16,
        None => 0,
    }
}

/// Number of columns by which `c` moves the cursor.
pub fn compute_cursor_width(c: char) -> (w: u16)
    ensures
        w as nat == cursor_width(c),
        w <= 3,
{
    if c == '\n' {
        1
    } else {
        compute_character_width(c)
    }
}

/// The display width of each character of a string.
pub fn measure_chars(text: &str) -> (widths: Vec<u128>)
    ensures
        widths@.len() == text@.len(),
        forall|i: int| 0 <= i < widths@.len() ==> widths@[i] as nat == char_width(text@[i]),
{
    let mut widths: Vec<u128> = Vec::new();
    for c in it: text.chars()
        invariant
            it.seq() == text@,
            widths@.len() == it.index(),
            forall|i: int| 0 <= i < widths@.len() ==> widths@[i] as nat == char_width(text@[i]),
    {
        widths.push(compute_character_width(c) as u128);
    }
    widths
}

/// Display width of a string: the sum of its characters' display widths.
pub fn display_width(text: &str) -> (w: u128)
    ensures
        w as nat == text_width(text@),
{
    let limit = byte_len(text);
    let mut w: u128 = 0;
    proof {
        assert(char_widths(text@.take(0)) =~= Seq::<nat>::empty());
    }
    for c in it: text.chars()
        invariant
            it.seq() == text@,
            text@.len() <= limit,
            w as nat == text_width(text@.take(it.index() as int)),
            w <= 3 * it.index(),
    {
        proof {
            lemma_text_width_push(text@.take(it.index() as int), c);
            assert(text@.take(it.index() as int).push(c) =~= text@.take(it.index() + 1));
        }
        w = w + compute_character_width(c) as u128;
    }
    proof {
        assert(text@.take(text@.len() as int) =~= text@);
    }
    w
}

/// Whether a string is no wider than `budget` columns.
pub fn fits_within(text: &str, budget: u16) -> (fits: bool)
    ensures
        fits == (text_width(text@) <= budget),
{
    let ghost ws = char_widths(text@);
    let mut w: u16 = 0;
    proof {
        assert(ws.subrange(0, 0) =~= Seq::<nat>::empty());
    }
    for c in it: text.chars()
        invariant
            it.seq() == text@,
            ws == char_widths(text@),
            w as nat == total(ws.subrange(0, it.index() as int)),
            w <= budget,
    {
        let cw = compute_character_width(c);
        proof {
            lemma_total_extend(ws, 0, it.index() as int);
        }
        if cw > budget - w {
            proof {
                lemma_total_monotone(ws, 0, it.index() + 1, ws.len() as int);
                assert(ws.subrange(0, ws.len() as int) =~= ws);
            }
            return false;
        }
        w = w + cw;
    }
    proof {
        assert(ws.subrange(0, ws.len() as int) =~= ws);
    }
    true
}

} // verus!
