//! The editing commands that a table offers.

use vstd::prelude::*;

verus! {

/// A way of editing the rows of a table.
#[derive(Debug, Clone, Copy, PartialEq, Eq, Structural)]
pub enum EditCommand {
    Add,
    Modify,
    Delete,
    Reorder,
    Swap,
}

impl EditCommand {
    /// How many selections the command works on.
    pub open spec fn selections(self) -> nat {
        match self {
            EditCommand::Add => 0,
            EditCommand::Modify => 1,
            EditCommand::Delete => 1,
            EditCommand::Reorder => 4,
            EditCommand::Swap => 2,
        }
    }

    /// The number of selections that the command needs before it can run.
    pub fn num_selections(&self) -> (count: usize)
        ensures
            count == self.selections(),
    {
        match self {
            Self::Add => 0,
            Self::Modify => 1,
            Self::Delete => 1,
            Self::Reorder => 4,
            Self::Swap => 2,
        }
    }

    /// Whether the command selects whole rows; only `Modify` selects single
    /// cells.
    pub fn uses_rows(&self) -> (rows: bool)
        ensures
            rows == !(self is Modify),
    {
        !matches!(self, Self::Modify)
    }

    /// The name under which the command is shown.
    pub fn name(&self) -> (name: &'static str)
        ensures
            name@ == match self {
                EditCommand::Add => "Add"@,
                EditCommand::Modify => "Modify"@,
                EditCommand::Delete => "Delete"@,
                EditCommand::Reorder => "Reorder"@,
                EditCommand::Swap => "Swap"@,
            },
    {
        match self {
            Self::Add => "Add",
            Self::Modify => "Modify",
            Self::Delete => "Delete",
            Self::Reorder => "Reorder",
            Self::Swap => "Swap",
        }
    }
}

} // verus!
