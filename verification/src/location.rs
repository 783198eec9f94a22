//! Source locations for tokens of a generated lexer: row, column, and the
//! originating file.

use vstd::prelude::*;

verus! {

/// A struct containing source location information for a token.
#[derive(Clone, Copy, PartialEq, Eq, PartialOrd, Ord, Debug, Hash)]
pub struct Location<'a> {
    /// The row number.
    pub row: u64,
    /// The column number.
    pub col: u64,
    /// The name of the originator file (optional).
    pub filename: Option<&'a str>,
}

impl<'a> Location<'a> {
    /// Creates a new location without a filename.
    pub fn new() -> (r: Self)
        ensures
            r.row == 1,
            r.col == 1,
            r.filename is None,
    {
        Location { row: 1, col: 1, filename: None }
    }

    /// Creates a new location with a filename.
    pub fn from_file(filename: &'a str) -> (r: Self)
        ensures
            r.row == 1,
            r.col == 1,
            r.filename == Some(filename),
    {
        Location { row: 1, col: 1, filename: Some(filename) }
    }

    /// Advances the location according to the read character: a newline
    /// starts the next row at column 1, anything else moves one column on.
    pub fn advance(&mut self, c: char)
        requires
            old(self).row < u64::MAX,
            old(self).col < u64::MAX,
        ensures
            final(self).filename == old(self).filename,
            c == '\n' ==> final(self).row == old(self).row + 1 && final(self).col == 1,
            c != '\n' ==> final(self).row == old(self).row && final(self).col == old(self).col
                + 1,
    {
        if c == '\n' {
            self.row = self.row + 1;
            self.col = 1;
        } else {
            self.col = self.col + 1;
        }
    }
}

/// A struct representing a token returned from a lexer.
#[derive(Clone, Copy, PartialEq, Eq, PartialOrd, Ord, Debug, Hash)]
pub struct Token<'a, 'b, Symbol> {
    /// The symbol represented by this token.
    pub symbol: Symbol,
    /// The attribute of this token, represented by a slice of its input.
    pub attribute: &'a str,
    /// The location of this token.
    pub location: Location<'b>,
}

} // verus!
