//! The cells or rows of a table that are selected, in the order in which
//! they were selected.

use vstd::prelude::*;

verus! {

/// A selected cell or row.
///
/// A cell is given as row and column, in that order.
#[derive(Debug, Eq, Clone, Copy)]
pub enum MultiTableSelection {
    /// A cell, by its row and its column.
    Cell((usize, usize)),
    /// A row, by its index.
    Row(usize),
}

impl PartialEq for MultiTableSelection {
    fn eq(&self, other: &Self) -> (equal: bool) {
        match (self, other) {
            (MultiTableSelection::Cell(a), MultiTableSelection::Cell(b)) => a.0 == b.0 && a.1 == b.1,
            (MultiTableSelection::Row(a), MultiTableSelection::Row(b)) => *a == *b,
            _ => false,
        }
    }
}

impl vstd::std_specs::cmp::PartialEqSpecImpl for MultiTableSelection {
    open spec fn obeys_eq_spec() -> bool {
        true
    }

    open spec fn eq_spec(&self, other: &Self) -> bool {
        *self == *other
    }
}

impl From<(usize, usize)> for MultiTableSelection {
    /// The selection of the cell in row `value.0` and column `value.1`.
    fn from(value: (usize, usize)) -> (selection: Self) {
        MultiTableSelection::Cell(value)
    }
}

impl vstd::std_specs::convert::FromSpecImpl<(usize, usize)> for MultiTableSelection {
    open spec fn obeys_from_spec() -> bool {
        true
    }

    open spec fn from_spec(value: (usize, usize)) -> Self {
        MultiTableSelection::Cell(value)
    }
}

impl From<usize> for MultiTableSelection {
    /// The selection of the row with index `value`.
    fn from(value: usize) -> (selection: Self) {
        MultiTableSelection::Row(value)
    }
}

impl vstd::std_specs::convert::FromSpecImpl<usize> for MultiTableSelection {
    open spec fn obeys_from_spec() -> bool {
        true
    }

    open spec fn from_spec(value: usize) -> Self {
        MultiTableSelection::Row(value)
    }
}

/// Index of the last occurrence of `x` in `s`, or -1 where there is none.
pub open spec fn last_position(s: Seq<MultiTableSelection>, x: MultiTableSelection) -> int
    decreases s.len(),
{
    if s.len() == 0 {
        -1
    } else if s.last() == x {
        s.len() - 1
    } else {
        last_position(s.drop_last(), x)
    }
}

/// The selections after `x` was chosen: if it was selected, its latest
/// occurrence is taken out; if it was not, it is added at the end, unless
/// `max` selections are held already.
pub open spec fn toggled(s: Seq<MultiTableSelection>, max: nat, x: MultiTableSelection) -> Seq<
    MultiTableSelection,
> {
    if last_position(s, x) >= 0 {
        s.remove(last_position(s, x))
    } else if s.len() < max {
        s.push(x)
    } else {
        s
    }
}

/// Whether no selection occurs twice.
pub open spec fn distinct(s: Seq<MultiTableSelection>) -> bool {
    forall|i: int, j: int| 0 <= i < j < s.len() ==> s[i] != s[j]
}

/// The last position of an element is an index at which it occurs, with no
/// occurrence after it; it is -1 exactly where the element is absent.
pub proof fn lemma_last_position(s: Seq<MultiTableSelection>, x: MultiTableSelection)
    ensures
        -1 <= last_position(s, x) < s.len(),
        last_position(s, x) >= 0 ==> s[last_position(s, x)] == x,
        forall|j: int| 0 <= j < s.len() && s[j] == x ==> j <= last_position(s, x),
    decreases s.len(),
{
    if s.len() > 0 && s.last() != x {
        let init = s.drop_last();
        lemma_last_position(init, x);
        assert forall|j: int| 0 <= j < s.len() && s[j] == x implies j <= last_position(s, x) by {
            assert(init[j] == x);
        }
    }
}

/// Choosing a selection keeps the selections distinct and within the
/// maximum, and makes a selected one unselected and an unselected one,
/// where there is room, selected.
pub proof fn lemma_toggled(s: Seq<MultiTableSelection>, max: nat, x: MultiTableSelection)
    requires
        distinct(s),
        s.len() <= max,
    ensures
        distinct(toggled(s, max, x)),
        toggled(s, max, x).len() <= max,
        s.contains(x) ==> !toggled(s, max, x).contains(x),
        !s.contains(x) && s.len() < max ==> toggled(s, max, x).contains(x),
{
    lemma_last_position(s, x);
    let t = toggled(s, max, x);
    let at = last_position(s, x);
    if at >= 0 {
        assert forall|i: int, j: int| 0 <= i < j < t.len() implies t[i] != t[j] by {
            let oi = if i < at { i } else { i + 1 };
            let oj = if j < at { j } else { j + 1 };
            assert(t[i] == s[oi] && t[j] == s[oj]);
        }
        assert forall|i: int| 0 <= i < t.len() implies t[i] != x by {
            let oi = if i < at { i } else { i + 1 };
            assert(t[i] == s[oi]);
        }
    } else {
        assert(!s.contains(x)) by {
            if s.contains(x) {
                let j = choose|j: int| 0 <= j < s.len() && s[j] == x;
                assert(j <= at);
            }
        }
        if s.len() < max {
            assert(t[s.len() as int] == x);
            assert forall|i: int, j: int| 0 <= i < j < t.len() implies t[i] != t[j] by {
                if j == s.len() {
                    assert(t[i] == s[i]);
                    assert(s.contains(s[i]));
                }
            }
        }
    }
}

/// The selections of a table: at most a given number of them.
pub struct MultiTableState {
    max_selections: usize,
    selections: Vec<MultiTableSelection>,
}

/// What the selections of a table hold.
pub struct SelectionState {
    /// How many selections there can be at most.
    pub max_selections: nat,
    /// The selections, oldest first.
    pub selections: Seq<MultiTableSelection>,
}

impl View for MultiTableState {
    type V = SelectionState;

    closed spec fn view(&self) -> SelectionState {
        SelectionState {
            max_selections: self.max_selections as nat,
            selections: self.selections@,
        }
    }
}

impl MultiTableState {
    /// The selections are distinct and no more than the maximum.
    pub open spec fn wf(&self) -> bool {
        &&& distinct(self@.selections)
        &&& self@.selections.len() <= self@.max_selections
    }

    /// No selections, with room for `max_selections`.
    pub fn new(max_selections: usize) -> (state: Self)
        ensures
            state.wf(),
            state@ == (SelectionState {
                max_selections: max_selections as nat,
                selections: Seq::empty(),
            }),
    {
        Self { max_selections, selections: Vec::new() }
    }

    /// The selections, oldest first.
    pub fn selections(&self) -> (selections: &[MultiTableSelection])
        ensures
            selections@ == self@.selections,
    {
        self.selections.as_slice()
    }

    /// How many selections there can be at most.
    pub fn max_selections(&self) -> (max: usize)
        ensures
            max == self@.max_selections,
    {
        self.max_selections
    }

    /// The index of `selection` among the selections: that of its first
    /// occurrence, or `None` if it is not selected.
    pub fn index_of(&self, selection: MultiTableSelection) -> (index: Option<usize>)
        ensures
            match index {
                Some(i) => {
                    &&& i < self@.selections.len()
                    &&& self@.selections[i as int] == selection
                    &&& forall|j: int| 0 <= j < i ==> self@.selections[j] != selection
                },
                None => !self@.selections.contains(selection),
            },
    {
        let mut i: usize = 0;
        while i < self.selections.len()
            invariant
                0 <= i <= self.selections.len(),
                forall|j: int| 0 <= j < i ==> self.selections@[j] != selection,
            decreases self.selections.len() - i,
        {
            if self.selections[i] == selection {
                return Some(i);
            }
            i = i + 1;
        }
        None
    }

    /// Selects `selection`, or unselects it if it is selected already. A
    /// new selection goes to the end, so that older selections come first;
    /// it is dropped where the maximum is reached. Returns whether the
    /// selection was added.
    pub fn select(&mut self, selection: MultiTableSelection) -> (added: bool)
        ensures
            final(self)@ == (SelectionState {
                selections: toggled(old(self)@.selections, old(self)@.max_selections, selection),
                ..old(self)@
            }),
            added == (last_position(old(self)@.selections, selection) == -1
                && old(self)@.selections.len() < old(self)@.max_selections),
            old(self).wf() ==> final(self).wf(),
    {
        proof {
            lemma_last_position(self.selections@, selection);
            if self.wf() {
                lemma_toggled(self@.selections, self@.max_selections, selection);
            }
        }
        let mut i: usize = self.selections.len();
        proof {
            assert(self.selections@.take(i as int) =~= self.selections@);
        }
        while i > 0
            invariant
                0 <= i <= self.selections.len(),
                self.selections@ == old(self).selections@,
                self.max_selections == old(self).max_selections,
                last_position(self.selections@, selection) == last_position(
                    self.selections@.take(i as int),
                    selection,
                ),
            decreases i,
        {
            proof {
                let upto = self.selections@.take(i as int);
                assert(upto.drop_last() =~= self.selections@.take(i - 1));
                assert(upto.last() == self.selections@[i - 1]);
            }
            i = i - 1;
            if self.selections[i] == selection {
                self.selections.remove(i);
                return false;
            }
        }
        proof {
            assert(self.selections@.take(0) =~= Seq::<MultiTableSelection>::empty());
        }
        if self.selections.len() < self.max_selections {
            self.selections.push(selection);
            return true;
        }
        false
    }

    /// Unselects everything.
    pub fn clear(&mut self)
        ensures
            final(self)@ == (SelectionState { selections: Seq::empty(), ..old(self)@ }),
            final(self).wf(),
    {
        self.selections.clear();
    }

    /// Sets the maximum number of selections. Where more are held, the
    /// latest are dropped.
    pub fn set_max_selections(&mut self, new_max: usize)
        ensures
            final(self)@ == (SelectionState {
                max_selections: new_max as nat,
                selections: if new_max < old(self)@.selections.len() {
                    old(self)@.selections.take(new_max as int)
                } else {
                    old(self)@.selections
                },
            }),
            old(self).wf() ==> final(self).wf(),
    {
        self.selections.truncate(new_max);
        self.max_selections = new_max;
        proof {
            if new_max >= old(self)@.selections.len() {
                assert(self.selections@ =~= old(self)@.selections);
            } else {
                assert(self.selections@ =~= old(self)@.selections.take(new_max as int));
            }
        }
    }
}

impl Default for MultiTableState {
    /// No selections, with room for one.
    fn default() -> (state: Self)
        ensures
            state.wf(),
            state@ == (SelectionState { max_selections: 1, selections: Seq::empty() }),
    {
        Self { max_selections: 1, selections: Vec::new() }
    }
}

} // verus!
