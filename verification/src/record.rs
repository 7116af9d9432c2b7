use vstd::prelude::*;

verus! {

/// The (row, column) location at which a token's match began.
///
/// Rows start at 1. A column is 0 right after a newline and grows by one
/// for every other consumed character, so the first character of a row
/// sits in column 1.
#[derive(Debug, Clone, Copy)]
pub struct Record {
    pub(crate) pos: (usize, usize),
}

impl View for Record {
    type V = (int, int);

    open(crate) spec fn view(&self) -> (int, int) {
        (self.pos.0 as int, self.pos.1 as int)
    }
}

impl Record {
    /// The recorded row.
    pub fn row(&self) -> (r: usize)
        ensures
            r as int == self@.0,
    {
        self.pos.0
    }

    /// The recorded column.
    pub fn col(&self) -> (c: usize)
        ensures
            c as int == self@.1,
    {
        self.pos.1
    }
}

} // verus!
