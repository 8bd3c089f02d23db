//! The buffer of an editable text field: its characters, the index at
//! which typing inserts, and the display offset of that index, which every
//! operation keeps in step with it.

use crate::cursor::{cursor_in_rect, cursor_point, point_of};
use crate::text::collect_chars;
use crate::width::{
    compute_cursor_width, cursor_text_width, cursor_width, cursor_widths, lemma_text_width_push,
};
use vstd::prelude::*;

verus! {

/// An editable text: a buffer of characters with an insert index.
pub struct EditableText {
    autofill_text: Option<String>,
    chars: Vec<char>,
    cursor_offset: u128,
    focused: bool,
    insert_ind: usize,
}

/// What an editable text holds.
pub struct FieldState {
    /// The characters of the buffer.
    pub chars: Seq<char>,
    /// Where the next typed character goes: between zero and the length of
    /// the buffer.
    pub insert_index: nat,
    /// Whether the field has the editing focus.
    pub focused: bool,
    /// The suggested completion that is on offer, if any.
    pub autofill: Option<Seq<char>>,
}

/// The display offset of the insert index: the distance by which the
/// characters before it move the cursor.
pub open spec fn display_offset(state: FieldState) -> nat {
    cursor_text_width(state.chars.take(state.insert_index as int))
}

/// A key as the field understands it.
#[derive(Debug, Clone, Copy, PartialEq, Eq)]
pub enum FieldKey {
    /// Begin a new line.
    Newline,
    /// Ask for a suggested completion.
    Suggest,
    /// Take up the suggestion that is on offer.
    Accept,
    /// Type a character.
    Char(char),
    /// Delete the character before the insert index.
    Erase,
    /// Move the insert index to the left.
    Left,
    /// Move the insert index to the right.
    Right,
    /// A key that means nothing to the field.
    Other,
}

impl FieldState {
    /// The field after `c` was typed: `c` stands at the insert index, the
    /// index has moved past it, and no suggestion is on offer.
    pub open spec fn typed(self, c: char) -> FieldState {
        FieldState {
            chars: self.chars.insert(self.insert_index as int, c),
            insert_index: self.insert_index + 1,
            autofill: None,
            ..self
        }
    }

    /// The field after a new line was begun: a newline stands at the insert
    /// index, and the index has moved past it.
    pub open spec fn with_newline(self) -> FieldState {
        FieldState {
            chars: self.chars.insert(self.insert_index as int, '\n'),
            insert_index: self.insert_index + 1,
            ..self
        }
    }

    /// The field after the character before the insert index was deleted;
    /// at the start of the buffer, the field as it was.
    pub open spec fn erased(self) -> FieldState {
        if self.insert_index > 0 {
            FieldState {
                chars: self.chars.remove(self.insert_index - 1),
                insert_index: (self.insert_index - 1) as nat,
                autofill: None,
                ..self
            }
        } else {
            self
        }
    }

    /// The field with the insert index one character further left; at the
    /// start of the buffer, the field as it was.
    pub open spec fn left(self) -> FieldState {
        if self.insert_index > 0 {
            FieldState { insert_index: (self.insert_index - 1) as nat, ..self }
        } else {
            self
        }
    }

    /// The field with the insert index one character further right; at the
    /// end of the buffer, the field as it was.
    pub open spec fn right(self) -> FieldState {
        if self.insert_index < self.chars.len() {
            FieldState { insert_index: self.insert_index + 1, ..self }
        } else {
            self
        }
    }

    /// The field after the suggestion was taken up: its characters stand at
    /// the end of the buffer, and the insert index after them. Without a
    /// suggestion, the field as it was.
    pub open spec fn completed(self) -> FieldState {
        match self.autofill {
            Some(added) => FieldState {
                chars: self.chars + added,
                insert_index: self.chars.len() + added.len(),
                autofill: None,
                ..self
            },
            None => self,
        }
    }

    /// The field after the focus was given or taken: no suggestion is on
    /// offer.
    pub open spec fn refocused(self) -> FieldState {
        FieldState { focused: !self.focused, autofill: None, ..self }
    }

    /// The field after a key.
    pub open spec fn after_key(self, key: FieldKey) -> FieldState {
        match key {
            FieldKey::Newline => self.with_newline(),
            FieldKey::Suggest => self,
            FieldKey::Accept => self.completed(),
            FieldKey::Char(c) => self.typed(c),
            FieldKey::Erase => self.erased(),
            FieldKey::Left => self.left(),
            FieldKey::Right => self.right(),
            FieldKey::Other => self,
        }
    }
}

/// Whether no character of a text moves the cursor by more than three
/// columns.
pub open spec fn narrow(s: Seq<char>) -> bool {
    forall|i: int| 0 <= i < s.len() ==> cursor_width(#[trigger] s[i]) <= 3
}

/// The start of a text of narrow characters moves the cursor by at most
/// three columns for each character.
pub proof fn lemma_narrow_offset(s: Seq<char>, k: int)
    requires
        narrow(s),
        0 <= k <= s.len(),
    ensures
        cursor_text_width(s.take(k)) <= 3 * k,
    decreases k,
{
    if k == 0 {
        assert(cursor_widths(s.take(0)) =~= Seq::<nat>::empty());
    } else {
        lemma_narrow_offset(s, k - 1);
        lemma_offset_step(s, k - 1);
    }
}

/// Moving the insert index over one character changes the display offset
/// by the cursor width of that character.
pub proof fn lemma_offset_step(s: Seq<char>, k: int)
    requires
        0 <= k < s.len(),
    ensures
        cursor_text_width(s.take(k + 1)) == cursor_text_width(s.take(k)) + cursor_width(s[k]),
{
    lemma_text_width_push(s.take(k), s[k]);
    assert(s.take(k).push(s[k]) =~= s.take(k + 1));
}

impl View for EditableText {
    type V = FieldState;

    closed spec fn view(&self) -> FieldState {
        FieldState {
            chars: self.chars@,
            insert_index: self.insert_ind as nat,
            focused: self.focused,
            autofill: match self.autofill_text {
                Some(text) => Some(text@),
                None => None,
            },
        }
    }
}

impl EditableText {
    /// The display offset that the field keeps beside the insert index.
    pub closed spec fn kept_offset(&self) -> nat {
        self.cursor_offset as nat
    }

    /// The field is consistent: the insert index lies within the buffer,
    /// and the offset kept beside it is the display offset of that index.
    pub open spec fn wf(&self) -> bool {
        &&& self@.insert_index <= self@.chars.len()
        &&& self.kept_offset() == display_offset(self@)
        &&& narrow(self@.chars)
    }

    /// A field that holds `base_content`, with the insert index at its end.
    pub fn new(base_content: &str) -> (field: Self)
        ensures
            field.wf(),
            field@ == (FieldState {
                chars: base_content@,
                insert_index: base_content@.len(),
                focused: false,
                autofill: None,
            }),
    {
        let chars = collect_chars(base_content);
        let n = chars.len();
        let mut offset: u128 = 0;
        let mut i: usize = 0;
        proof {
            assert(cursor_widths(chars@.take(0)) =~= Seq::<nat>::empty());
        }
        while i < n
            invariant
                0 <= i <= n,
                n == chars.len(),
                offset as nat == cursor_text_width(chars@.take(i as int)),
                offset <= 3 * i,
                forall|j: int| 0 <= j < i ==> cursor_width(#[trigger] chars@[j]) <= 3,
            decreases n - i,
        {
            proof {
                lemma_offset_step(chars@, i as int);
            }
            offset = offset + compute_cursor_width(chars[i]) as u128;
            i = i + 1;
        }
        EditableText {
            autofill_text: None,
            chars,
            cursor_offset: offset,
            focused: false,
            insert_ind: n,
        }
    }

    /// The characters of the buffer as a string.
    pub fn text(&self) -> (text: String)
        ensures
            text@ == self@.chars,
    {
        let mut text = String::new();
        let mut i: usize = 0;
        while i < self.chars.len()
            invariant
                0 <= i <= self.chars.len(),
                text@ == self.chars@.take(i as int),
            decreases self.chars.len() - i,
        {
            text.push(self.chars[i]);
            proof {
                assert(self.chars@.take(i as int).push(self.chars@[i as int]) =~= self.chars@.take(
                    i + 1,
                ));
            }
            i = i + 1;
        }
        proof {
            assert(self.chars@.take(i as int) =~= self.chars@);
        }
        text
    }

    /// Whether the buffer holds no character.
    pub fn is_empty(&self) -> (empty: bool)
        ensures
            empty == (self@.chars.len() == 0),
    {
        self.chars.is_empty()
    }

    /// The number of characters in the buffer.
    pub fn len(&self) -> (len: usize)
        ensures
            len == self@.chars.len(),
    {
        self.chars.len()
    }

    /// The index at which the next typed character is inserted.
    pub fn insert_index(&self) -> (index: usize)
        ensures
            index == self@.insert_index,
    {
        self.insert_ind
    }

    /// The display offset of the insert index.
    pub fn cursor_offset(&self) -> (offset: u128)
        requires
            self.wf(),
        ensures
            offset as nat == display_offset(self@),
    {
        self.cursor_offset
    }

    /// Whether the field has the editing focus.
    pub fn is_focused(&self) -> (focused: bool)
        ensures
            focused == self@.focused,
    {
        self.focused
    }

    /// The suggested completion that is on offer, if any.
    pub fn autofill_text(&self) -> (text: Option<&String>)
        ensures
            match text {
                Some(t) => self@.autofill == Some(t@),
                None => self@.autofill is None,
            },
    {
        self.autofill_text.as_ref()
    }

    /// Gives or takes the editing focus, and withdraws any suggestion.
    pub fn toggle_focus(&mut self)
        ensures
            final(self)@ == old(self)@.refocused(),
            final(self).kept_offset() == old(self).kept_offset(),
            old(self).wf() ==> final(self).wf(),
    {
        self.focused = !self.focused;
        self.autofill_text = None;
    }

    /// Puts a suggestion on offer, or withdraws the one that is.
    pub fn set_autofill_text(&mut self, suggestion: Option<String>)
        ensures
            final(self)@ == (FieldState {
                autofill: match suggestion {
                    Some(text) => Some(text@),
                    None => None,
                },
                ..old(self)@
            }),
            final(self).kept_offset() == old(self).kept_offset(),
            old(self).wf() ==> final(self).wf(),
    {
        self.autofill_text = suggestion;
    }

    /// Inserts `c` at the insert index and moves the index past it.
    fn insert_at_index(&mut self, c: char)
        requires
            old(self).wf(),
        ensures
            final(self).wf(),
            final(self)@ == (FieldState {
                chars: old(self)@.chars.insert(old(self)@.insert_index as int, c),
                insert_index: old(self)@.insert_index + 1,
                ..old(self)@
            }),
            display_offset(final(self)@) == display_offset(old(self)@) + cursor_width(c),
    {
        let ghost before = self.chars@;
        let ghost at = self.insert_ind as int;
        let w = compute_cursor_width(c) as u128;
        self.chars.insert(self.insert_ind, c);
        proof {
            let after = self.chars@;
            assert(after.len() == before.len() + 1);
            assert(after.take(at) =~= before.take(at));
            assert(after[at] == c);
            lemma_offset_step(after, at);
            lemma_narrow_offset(before, at);
            assert forall|i: int| 0 <= i < after.len() implies cursor_width(#[trigger] after[i])
                <= 3 by {
                if i < at {
                    assert(after[i] == before[i]);
                } else if i > at {
                    assert(after[i] == before[i - 1]);
                }
            }
        }
        assert(self.chars.len() == self.chars@.len());
        self.insert_ind = self.insert_ind + 1;
        self.cursor_offset = self.cursor_offset + w;
    }

    /// Inserts a typed character at the insert index. The index moves past
    /// it, the display offset grows by its cursor width, and any suggestion
    /// is withdrawn.
    pub fn insert_char(&mut self, c: char)
        requires
            old(self).wf(),
        ensures
            final(self).wf(),
            final(self)@ == old(self)@.typed(c),
            display_offset(final(self)@) == display_offset(old(self)@) + cursor_width(c),
    {
        self.insert_at_index(c);
        self.autofill_text = None;
    }

    /// Inserts a newline at the insert index. The index moves past it and
    /// the display offset grows by one; a suggestion stays on offer.
    pub fn insert_newline(&mut self)
        requires
            old(self).wf(),
        ensures
            final(self).wf(),
            final(self)@ == old(self)@.with_newline(),
            display_offset(final(self)@) == display_offset(old(self)@) + 1,
    {
        self.insert_at_index('\n');
    }

    /// Deletes the character before the insert index, if there is one. The
    /// index moves back over it, the display offset shrinks by its cursor
    /// width, and any suggestion is withdrawn. At the start of the buffer
    /// nothing changes. Returns whether a character was deleted.
    pub fn delete_previous(&mut self) -> (deleted: bool)
        requires
            old(self).wf(),
        ensures
            final(self).wf(),
            final(self)@ == old(self)@.erased(),
            deleted == (old(self)@.insert_index > 0),
            deleted ==> display_offset(final(self)@) + cursor_width(
                old(self)@.chars[old(self)@.insert_index - 1],
            ) == display_offset(old(self)@),
    {
        if self.insert_ind == 0 {
            return false;
        }
        let ghost before = self.chars@;
        let ghost at = self.insert_ind as int;
        let c = self.chars.remove(self.insert_ind - 1);
        proof {
            let after = self.chars@;
            assert(after.take(at - 1) =~= before.take(at - 1));
            lemma_offset_step(before, at - 1);
            assert forall|i: int| 0 <= i < after.len() implies cursor_width(#[trigger] after[i])
                <= 3 by {
                if i < at - 1 {
                    assert(after[i] == before[i]);
                } else {
                    assert(after[i] == before[i + 1]);
                }
            }
        }
        self.insert_ind = self.insert_ind - 1;
        self.cursor_offset = self.cursor_offset - compute_cursor_width(c) as u128;
        self.autofill_text = None;
        true
    }

    /// Moves the insert index one character to the left, and the display
    /// offset back by the cursor width of that character. At the start of
    /// the buffer nothing changes. Returns whether the index moved.
    pub fn move_left(&mut self) -> (moved: bool)
        requires
            old(self).wf(),
        ensures
            final(self).wf(),
            final(self)@ == old(self)@.left(),
            moved == (old(self)@.insert_index > 0),
            moved ==> display_offset(final(self)@) + cursor_width(
                old(self)@.chars[old(self)@.insert_index - 1],
            ) == display_offset(old(self)@),
    {
        if self.insert_ind == 0 {
            return false;
        }
        proof {
            lemma_offset_step(self.chars@, self.insert_ind - 1);
        }
        self.insert_ind = self.insert_ind - 1;
        let c = self.chars[self.insert_ind];
        self.cursor_offset = self.cursor_offset - compute_cursor_width(c) as u128;
        true
    }

    /// Moves the insert index one character to the right, and the display
    /// offset on by the cursor width of that character. At the end of the
    /// buffer nothing changes. Returns whether the index moved.
    pub fn move_right(&mut self) -> (moved: bool)
        requires
            old(self).wf(),
        ensures
            final(self).wf(),
            final(self)@ == old(self)@.right(),
            moved == (old(self)@.insert_index < old(self)@.chars.len()),
            moved ==> display_offset(final(self)@) == display_offset(old(self)@) + cursor_width(
                old(self)@.chars[old(self)@.insert_index as int],
            ),
    {
        if self.insert_ind >= self.chars.len() {
            return false;
        }
        proof {
            lemma_offset_step(self.chars@, self.insert_ind as int);
            lemma_narrow_offset(self.chars@, self.insert_ind as int);
        }
        let c = self.chars[self.insert_ind];
        self.insert_ind = self.insert_ind + 1;
        self.cursor_offset = self.cursor_offset + compute_cursor_width(c) as u128;
        true
    }

    /// Takes up the suggestion that is on offer, if there is one: its
    /// characters are added at the end of the buffer, and the insert index
    /// moves to the end. Returns whether there was a suggestion.
    pub fn accept_autofill(&mut self) -> (accepted: bool)
        requires
            old(self).wf(),
        ensures
            final(self).wf(),
            final(self)@ == old(self)@.completed(),
            accepted == old(self)@.autofill is Some,
    {
        let suggestion = match self.autofill_text.take() {
            Some(text) => text,
            None => {
                return false;
            },
        };
        let added = collect_chars(suggestion.as_str());
        let ghost before = self.chars@;
        while self.insert_ind < self.chars.len()
            invariant
                self.wf(),
                self.chars@ == before,
                self.focused == old(self).focused,
                self.autofill_text is None,
            decreases self.chars.len() - self.insert_ind,
        {
            proof {
                lemma_offset_step(self.chars@, self.insert_ind as int);
                lemma_narrow_offset(self.chars@, self.insert_ind as int);
            }
            let c = self.chars[self.insert_ind];
            self.insert_ind = self.insert_ind + 1;
            self.cursor_offset = self.cursor_offset + compute_cursor_width(c) as u128;
        }
        let mut i: usize = 0;
        proof {
            assert(before + added@.take(0) =~= before);
        }
        while i < added.len()
            invariant
                0 <= i <= added.len(),
                self.wf(),
                self.chars@ == before + added@.take(i as int),
                self.insert_ind == self.chars.len(),
                self.focused == old(self).focused,
                self.autofill_text is None,
            decreases added.len() - i,
        {
            let c = added[i];
            let ghost held = self.chars@;
            let w = compute_cursor_width(c) as u128;
            self.chars.push(c);
            proof {
                let after = self.chars@;
                assert(after.take(held.len() as int) =~= held);
                assert(held.take(held.len() as int) =~= held);
                lemma_offset_step(after, held.len() as int);
                lemma_narrow_offset(held, held.len() as int);
                assert(after =~= before + added@.take(i + 1));
            }
            let len = self.chars.len();
            self.insert_ind = len;
            self.cursor_offset = self.cursor_offset + w;
            i = i + 1;
        }
        proof {
            assert(added@.take(i as int) =~= added@);
        }
        true
    }

    /// Does to the field what `key` asks for. Returns whether the key asks
    /// for a suggestion, which is for the caller to find and to put on
    /// offer with `set_autofill_text`.
    pub fn handle_key(&mut self, key: FieldKey) -> (suggest: bool)
        requires
            old(self).wf(),
        ensures
            final(self).wf(),
            final(self)@ == old(self)@.after_key(key),
            suggest == (key is Suggest),
    {
        match key {
            FieldKey::Newline => {
                self.insert_newline();
                false
            },
            FieldKey::Suggest => true,
            FieldKey::Accept => {
                self.accept_autofill();
                false
            },
            FieldKey::Char(c) => {
                self.insert_char(c);
                false
            },
            FieldKey::Erase => {
                self.delete_previous();
                false
            },
            FieldKey::Left => {
                self.move_left();
                false
            },
            FieldKey::Right => {
                self.move_right();
                false
            },
            FieldKey::Other => false,
        }
    }

    /// The point of a rectangle of the given width and height at which the
    /// cursor of the field is drawn when the text is wrapped to that width,
    /// or `None` if it cannot be drawn there.
    pub fn cursor_point(&self, width: u16, height: u16) -> (point: Option<(u16, u16)>)
        requires
            self.wf(),
        ensures
            point_of(point) == cursor_in_rect(
                self@.chars,
                display_offset(self@),
                width as nat,
                height as nat,
            ),
    {
        let content = self.text();
        cursor_point(content.as_str(), self.cursor_offset, width, height)
    }
}

impl Default for EditableText {
    /// An empty field without focus.
    fn default() -> (field: Self)
        ensures
            field.wf(),
            field@ == (FieldState {
                chars: Seq::empty(),
                insert_index: 0,
                focused: false,
                autofill: None,
            }),
    {
        proof {
            assert(cursor_widths(Seq::<char>::empty().take(0)) =~= Seq::<nat>::empty());
        }
        EditableText {
            autofill_text: None,
            chars: Vec::new(),
            cursor_offset: 0,
            focused: false,
            insert_ind: 0,
        }
    }
}

} // verus!
