//! Placing the cursor: from an offset in the text to a column and a row
//! among the wrapped lines, and from there to a point of the drawing area.

use crate::text::byte_len;
use crate::width::{
    compute_cursor_width, cursor_text_width, cursor_widths, lemma_text_width_push,
};
use crate::wrap::wrap;
use crate::wrap_model::wrap_lines;
use std::borrow::Cow;
use vstd::prelude::*;

verus! {

/// The distance by which a line moves the cursor, and whether the line
/// ends with a newline.
#[derive(Debug, Clone, Copy, PartialEq, Eq)]
pub struct LineWidth(pub u128, pub bool);

/// What a line counts for when the cursor is placed: the distance by
/// which it moves the cursor, and whether it ends with a newline.
pub type Measure = (nat, bool);

impl View for LineWidth {
    type V = Measure;

    open spec fn view(&self) -> Measure {
        (self.0 as nat, self.1)
    }
}

impl DeepView for LineWidth {
    type V = Measure;

    open spec fn deep_view(&self) -> Measure {
        self@
    }
}

/// Whether a text ends with a newline character.
pub open spec fn ends_with_newline(s: Seq<char>) -> bool {
    s.len() > 0 && s.last() == '\n'
}

/// The measure of a line: a newline counts as one column, any other
/// character as its display width.
pub open spec fn line_measure(line: Seq<char>) -> Measure {
    (cursor_text_width(line), ends_with_newline(line))
}

/// The measures of a sequence of lines.
pub open spec fn line_measures(lines: Seq<Seq<char>>) -> Seq<Measure> {
    Seq::new(lines.len(), |i: int| line_measure(lines[i]))
}

/// Column and row of an offset that is `x` columns past the start of
/// line `i`.
///
/// Lines that are shorter than what is left of the offset are passed by.
/// On the line that holds the offset the cursor stands at that column,
/// except at the very end of the line: there it moves on to the start of
/// the next row, if a line follows or the line ends with a newline. An
/// offset that lies past all lines is counted from the row after the last,
/// and takes the last line for the one that it stands at the end of.
pub open spec fn walk(lines: Seq<Measure>, i: int, x: nat) -> (nat, nat)
    decreases lines.len() - i,
{
    if i < 0 || i >= lines.len() {
        if lines.len() > 0 && x == lines.last().0 && lines.last().1 {
            (0, lines.len() + 1)
        } else {
            (x, lines.len())
        }
    } else if x > lines[i].0 {
        walk(lines, i + 1, (x - lines[i].0) as nat)
    } else if x == lines[i].0 && (i + 1 < lines.len() || lines[i].1) {
        (0, (i + 1) as nat)
    } else {
        (x, i as nat)
    }
}

/// Column and row, counted from zero, of the cursor that stands `offset`
/// columns into the text whose wrapped lines have the given measures.
/// Where there is no line the cursor is at the origin.
pub open spec fn cursor_position(offset: nat, lines: Seq<Measure>) -> (nat, nat) {
    if lines.len() == 0 {
        (0, 0)
    } else {
        walk(lines, 0, offset)
    }
}

/// The point of a rectangle at which a cursor at column `x` and row `y` is
/// drawn: columns beyond the width fold into further rows, and a cursor
/// that ends up below the rectangle, or any cursor in an empty rectangle,
/// is not drawn.
pub open spec fn point_in_rect(x: nat, y: nat, width: nat, height: nat) -> Option<(nat, nat)> {
    if width == 0 || height == 0 || y + x / width >= height {
        None
    } else {
        Some((x % width, y + x / width))
    }
}

/// The point of a rectangle at which the cursor of a text is drawn, where
/// the text is wrapped to the width of the rectangle and the cursor stands
/// `offset` columns into it.
pub open spec fn cursor_in_rect(text: Seq<char>, offset: nat, width: nat, height: nat) -> Option<
    (nat, nat),
> {
    let position = cursor_position(offset, line_measures(wrap_lines(text, width)));
    point_in_rect(position.0, position.1, width, height)
}

/// A walk from line `i` on ends in row `i` or below.
pub proof fn lemma_walk_row_bounds(lines: Seq<Measure>, i: int, x: nat)
    requires
        0 <= i <= lines.len(),
    ensures
        i <= walk(lines, i, x).1 <= lines.len() + 1,
    decreases lines.len() - i,
{
    if i < lines.len() && x > lines[i].0 {
        lemma_walk_row_bounds(lines, i + 1, (x - lines[i].0) as nat);
    }
}

/// Of two offsets into the same line, the larger is projected to the same
/// row or a lower one, and in the same row to the same column or one
/// further right.
pub proof fn lemma_walk_monotonic(lines: Seq<Measure>, i: int, x: nat, y: nat)
    requires
        0 <= i <= lines.len(),
        x <= y,
        x == y || walk(lines, i, x).1 <= lines.len(),
    ensures
        walk(lines, i, x).1 <= walk(lines, i, y).1,
        walk(lines, i, x).1 == walk(lines, i, y).1 ==> walk(lines, i, x).0 <= walk(lines, i, y).0,
    decreases lines.len() - i,
{
    if i < lines.len() {
        let w = lines[i].0;
        if x > w {
            lemma_walk_monotonic(lines, i + 1, (x - w) as nat, (y - w) as nat);
        } else if y > w {
            lemma_walk_row_bounds(lines, i + 1, (y - w) as nat);
        }
    }
}

/// Monotonicity: for growing offsets over the same lines the row never
/// decreases, and within a row the column never decreases.
///
/// One kind of first offset is left out: one that lies past all lines by
/// exactly the width of the last line, while that line ends with a newline.
/// It is projected to the second row after the last line, and any larger
/// offset to the row before that.
pub proof fn lemma_cursor_monotonic(lines: Seq<Measure>, first: nat, second: nat)
    requires
        first <= second,
        first == second || cursor_position(first, lines).1 <= lines.len(),
    ensures
        cursor_position(first, lines).1 <= cursor_position(second, lines).1,
        cursor_position(first, lines).1 == cursor_position(second, lines).1 ==> cursor_position(
            first,
            lines,
        ).0 <= cursor_position(second, lines).0,
{
    if lines.len() > 0 {
        lemma_walk_monotonic(lines, 0, first, second);
    }
}

/// Clamper totality: a cursor is not drawn exactly where the rectangle is
/// empty or the cursor, its surplus columns folded into rows, lies below
/// it; a point that is drawn lies inside the rectangle.
pub proof fn lemma_point_in_rect(x: nat, y: nat, width: nat, height: nat)
    ensures
        point_in_rect(x, y, width, height) is None <==> (width == 0 || height == 0 || y + x / width
            >= height),
        point_in_rect(x, y, width, height) matches Some(p) ==> p.0 < width && p.1 < height,
{
    if width > 0 {
        assert(x % width < width) by (nonlinear_arith)
            requires
                width > 0,
        ;
    }
}

/// The string that a line holds.
fn line_text<'b>(line: &'b Cow<'_, str>) -> (text: &'b str)
    ensures
        text@ == line@,
{
    match line {
        Cow::Borrowed(text) => text,
        Cow::Owned(text) => text.as_str(),
    }
}

/// Measures one line: the distance by which it moves the cursor, a
/// newline counting as one column, and whether it ends with a newline.
pub fn measure_line(text: &str) -> (measure: LineWidth)
    ensures
        measure@ == line_measure(text@),
{
    let limit = byte_len(text);
    let mut w: u128 = 0;
    let mut newline = false;
    proof {
        assert(cursor_widths(text@.take(0)) =~= Seq::<nat>::empty());
    }
    for c in it: text.chars()
        invariant
            it.seq() == text@,
            text@.len() <= limit,
            w as nat == cursor_text_width(text@.take(it.index() as int)),
            w <= 3 * it.index(),
            newline == ends_with_newline(text@.take(it.index() as int)),
    {
        proof {
            lemma_text_width_push(text@.take(it.index() as int), c);
            assert(text@.take(it.index() as int).push(c) =~= text@.take(it.index() + 1));
        }
        w = w + compute_cursor_width(c) as u128;
        newline = c == '\n';
    }
    proof {
        assert(text@.take(text@.len() as int) =~= text@);
    }
    LineWidth(w, newline)
}

/// Measures each line, for the placing of the cursor among them.
pub fn compute_line_widths(lines: &[Cow<'_, str>]) -> (widths: Vec<LineWidth>)
    ensures
        widths.deep_view() == line_measures(lines.deep_view()),
{
    let mut widths: Vec<LineWidth> = Vec::new();
    let mut i: usize = 0;
    while i < lines.len()
        invariant
            0 <= i <= lines.len(),
            widths.len() == i,
            forall|j: int| 0 <= j < i ==> (#[trigger] widths[j])@ == line_measure(lines.deep_view()[j]),
        decreases lines.len() - i,
    {
        let measure = measure_line(line_text(&lines[i]));
        widths.push(measure);
        i = i + 1;
    }
    proof {
        assert(widths.deep_view() =~= line_measures(lines.deep_view()));
    }
    widths
}

/// Computes the column and the row of the cursor, counted from zero, from
/// its offset in the text and the widths of the wrapped lines.
pub fn compute_cursor_position(cursor_offset: u128, widths: &[LineWidth]) -> (position: (
    u128,
    u128,
))
    ensures
        (position.0 as nat, position.1 as nat) == cursor_position(
            cursor_offset as nat,
            widths.deep_view(),
        ),
{
    let ghost measures = widths.deep_view();
    let n = widths.len();
    if n == 0 {
        return (0, 0);
    }
    let mut x = cursor_offset;
    let mut i: usize = 0;
    while i < n
        invariant
            0 <= i <= n,
            n == widths.len(),
            n > 0,
            x <= cursor_offset,
            measures == widths.deep_view(),
            walk(measures, i as int, x as nat) == cursor_position(cursor_offset as nat, measures),
        decreases n - i,
    {
        proof {
            assert(measures[i as int] == widths[i as int]@);
        }
        let width = widths[i].0;
        let newline = widths[i].1;
        if x > width {
            x = x - width;
            i = i + 1;
        } else if x == width && (i + 1 < n || newline) {
            return (0, i as u128 + 1);
        } else {
            return (x, i as u128);
        }
    }
    proof {
        assert(measures.last() == widths[n - 1]@);
    }
    if x == widths[n - 1].0 && widths[n - 1].1 {
        (0, n as u128 + 1)
    } else {
        (x, n as u128)
    }
}

/// A point of the screen as a pair of natural numbers.
pub open spec fn point_of(point: Option<(u16, u16)>) -> Option<(nat, nat)> {
    match point {
        Some(p) => Some((p.0 as nat, p.1 as nat)),
        None => None,
    }
}

/// Given a column and a row and the width and height of a rectangle,
/// returns the point of the rectangle at which the cursor is drawn, or
/// `None` if it cannot be drawn there.
pub fn cursor_within_rect(x: u128, y: u128, width: u16, height: u16) -> (point: Option<(u16, u16)>)
    ensures
        point is None <==> (width == 0 || height == 0 || y + x / (width as u128) >= height),
        point matches Some(p) ==> p.0 < width && p.1 < height,
        point_of(point) == point_in_rect(x as nat, y as nat, width as nat, height as nat),
{
    if width == 0 || height == 0 {
        return None;
    }
    if y >= height as u128 {
        return None;
    }
    let rows = x / width as u128;
    if rows >= height as u128 - y {
        return None;
    }
    let new_x = x % width as u128;
    let new_y = y + rows;
    Some((new_x as u16, new_y as u16))
}

/// Wraps `text` to the width of a rectangle and returns the point of the
/// rectangle at which the cursor is drawn that stands `cursor_offset`
/// columns into the text, or `None` if it cannot be drawn there.
pub fn cursor_point(text: &str, cursor_offset: u128, width: u16, height: u16) -> (point: Option<
    (u16, u16),
>)
    ensures
        point_of(point) == cursor_in_rect(
            text@,
            cursor_offset as nat,
            width as nat,
            height as nat,
        ),
{
    let wrapped = wrap(text, width);
    let lines = wrapped.as_slice();
    let measured = compute_line_widths(lines);
    let widths = measured.as_slice();
    proof {
        assert(lines.deep_view() =~= wrapped.deep_view());
        assert(widths.deep_view() =~= measured.deep_view());
    }
    let position = compute_cursor_position(cursor_offset, widths);
    cursor_within_rect(position.0, position.1, width, height)
}

} // verus!
