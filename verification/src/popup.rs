//! A prompt with a row of choices, one of which is highlighted.

use vstd::prelude::*;

verus! {

/// A prompt with choices to pick from.
pub struct PopUpComponent {
    prompt: String,
    choices: Vec<String>,
    highlit: u16,
}

/// What a prompt holds.
pub struct PopUpState {
    /// The question that is asked.
    pub prompt: Seq<char>,
    /// The answers on offer.
    pub choices: Seq<Seq<char>>,
    /// The index of the highlighted answer.
    pub highlit: nat,
}

/// A key as the prompt understands it.
#[derive(Debug, Clone, Copy, PartialEq, Eq)]
pub enum PopUpKey {
    /// Leave the prompt without an answer.
    Escape,
    /// Give the highlighted choice as the answer.
    Enter,
    /// Move the highlight to the left.
    Left,
    /// Move the highlight to the right.
    Right,
    /// A key that means nothing to the prompt.
    Other,
}

/// What a key on the prompt asks of whoever shows the prompt.
#[derive(Debug, Clone, Copy, PartialEq, Eq, Structural)]
pub enum PopUpOutcome {
    /// The prompt is to be closed without an answer.
    Close,
    /// The highlighted choice is the answer.
    Confirm,
    /// The prompt stays open.
    Stay,
}

/// The index that is highlighted after a move to the left: the index
/// before, and the first index where there is none before it.
pub open spec fn previous_highlight(highlit: nat) -> nat {
    if highlit == 0 {
        0
    } else {
        (highlit - 1) as nat
    }
}

/// The index that is highlighted after a move to the right: the next
/// index, but no index past the last of `count` choices nor past the
/// largest index that can be held. Without choices the index stays.
pub open spec fn next_highlight(highlit: nat, count: nat) -> nat {
    if count == 0 {
        highlit
    } else if highlit + 1 <= count - 1 && highlit + 1 <= u16::MAX {
        highlit + 1
    } else if count - 1 <= u16::MAX {
        (count - 1) as nat
    } else {
        u16::MAX as nat
    }
}

impl PopUpState {
    /// The prompt after a key: the arrow keys move the highlight, and no
    /// other key changes anything.
    pub open spec fn after_key(self, key: PopUpKey) -> PopUpState {
        match key {
            PopUpKey::Left => PopUpState { highlit: previous_highlight(self.highlit), ..self },
            PopUpKey::Right => PopUpState {
                highlit: next_highlight(self.highlit, self.choices.len()),
                ..self
            },
            _ => self,
        }
    }
}

/// What a key asks for: escape closes the prompt, enter confirms the
/// highlighted choice, and after any other key the prompt stays open.
pub open spec fn outcome_of(key: PopUpKey) -> PopUpOutcome {
    match key {
        PopUpKey::Escape => PopUpOutcome::Close,
        PopUpKey::Enter => PopUpOutcome::Confirm,
        _ => PopUpOutcome::Stay,
    }
}

impl View for PopUpComponent {
    type V = PopUpState;

    closed spec fn view(&self) -> PopUpState {
        PopUpState {
            prompt: self.prompt@,
            choices: self.choices.deep_view(),
            highlit: self.highlit as nat,
        }
    }
}

impl PopUpComponent {
    /// A prompt with the given choices. The choice at `initial_ind` is
    /// highlighted, or the first where no index is given.
    pub fn new(prompt: String, choices: Vec<String>, initial_ind: Option<u16>) -> (popup: Self)
        ensures
            popup@ == (PopUpState {
                prompt: prompt@,
                choices: choices.deep_view(),
                highlit: match initial_ind {
                    Some(index) => index as nat,
                    None => 0,
                },
            }),
    {
        Self {
            prompt,
            choices,
            highlit: match initial_ind {
                Some(index) => index,
                None => 0,
            },
        }
    }

    /// The index of the highlighted choice.
    pub fn get_choice(&self) -> (choice: u16)
        ensures
            choice == self@.highlit,
    {
        self.highlit
    }

    /// The question that the prompt asks.
    pub fn prompt(&self) -> (prompt: &String)
        ensures
            prompt@ == self@.prompt,
    {
        &self.prompt
    }

    /// The choices on offer.
    pub fn choices(&self) -> (choices: &Vec<String>)
        ensures
            choices.deep_view() == self@.choices,
    {
        &self.choices
    }

    /// Moves the highlight one choice to the left; on the first choice it
    /// stays.
    pub fn highlight_previous(&mut self)
        ensures
            final(self)@ == (PopUpState {
                highlit: previous_highlight(old(self)@.highlit),
                ..old(self)@
            }),
    {
        if self.highlit > 0 {
            self.highlit = self.highlit - 1;
        }
    }

    /// Moves the highlight one choice to the right, and no further than the
    /// last choice. Without choices it stays where it is.
    pub fn highlight_next(&mut self)
        ensures
            final(self)@ == (PopUpState {
                highlit: next_highlight(old(self)@.highlit, old(self)@.choices.len()),
                ..old(self)@
            }),
    {
        let count = self.choices.len();
        if count == 0 {
            return;
        }
        let last: u16 = if count - 1 > u16::MAX as usize {
            u16::MAX
        } else {
            (count - 1) as u16
        };
        self.highlit = if self.highlit < last {
            self.highlit + 1
        } else {
            last
        };
    }

    /// Does to the prompt what `key` asks for, and returns what the key
    /// asks of whoever shows the prompt.
    pub fn handle_key(&mut self, key: PopUpKey) -> (outcome: PopUpOutcome)
        ensures
            final(self)@ == old(self)@.after_key(key),
            outcome == outcome_of(key),
    {
        match key {
            PopUpKey::Escape => PopUpOutcome::Close,
            PopUpKey::Enter => PopUpOutcome::Confirm,
            PopUpKey::Left => {
                self.highlight_previous();
                PopUpOutcome::Stay
            },
            PopUpKey::Right => {
                self.highlight_next();
                PopUpOutcome::Stay
            },
            PopUpKey::Other => PopUpOutcome::Stay,
        }
    }
}

} // verus!
