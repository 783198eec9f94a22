//! Positions in an input string: row, column and byte offset.

use vstd::prelude::*;

verus! {

/// The number of bytes of the UTF-8 encoding of a character.
pub open spec fn char_utf8_len(c: char) -> int {
    let u = c as u32;
    if u < 0x80 {
        1
    } else if u < 0x800 {
        2
    } else if u < 0x10000 {
        3
    } else {
        4
    }
}

/// A position in an input string.
#[derive(Debug, Clone, Copy, PartialEq, Eq, PartialOrd, Ord, Hash, Structural)]
pub struct Position {
    /// The row of the next character to read, starting at 1.
    pub row: usize,
    /// The column of the next character to read, starting at 1.
    pub col: usize,
    /// The byte offset reached so far, following the characters' UTF-8 widths.
    pub index: usize,
}

/// The position reached after reading `c` at position `p`.
pub open spec fn spec_advance(p: Position, c: char) -> Position {
    if c == '\n' {
        Position { row: (p.row + 1) as usize, col: 1, index: (p.index + char_utf8_len(c)) as usize }
    } else {
        Position {
            row: p.row,
            col: (p.col + 1) as usize,
            index: (p.index + char_utf8_len(c)) as usize,
        }
    }
}

/// `advance` does not overflow when this holds.
pub open spec fn can_advance(p: Position, c: char) -> bool {
    &&& p.row + 1 <= usize::MAX
    &&& p.col + 1 <= usize::MAX
    &&& p.index + char_utf8_len(c) <= usize::MAX
}

impl Position {
    /// The first position of any input.
    pub open spec fn spec_new() -> Position {
        Position { row: 1, col: 1, index: 0 }
    }

    /// Create a new Position representing the first character of any input.
    pub fn new() -> (r: Self)
        ensures
            r == Position::spec_new(),
    {
        Position { row: 1, col: 1, index: 0 }
    }

    /// The number of bytes of the UTF-8 encoding of a character.
    pub fn utf8_len(c: char) -> (n: usize)
        ensures
            n == char_utf8_len(c),
    {
        let u = c as u32;
        if u < 0x80 {
            1
        } else if u < 0x800 {
            2
        } else if u < 0x10000 {
            3
        } else {
            4
        }
    }

    /// Advance the position after reading a specific character.
    ///
    /// Advancing past a newline increments the row and resets the column to 1;
    /// any other character increments the column. The byte index always grows
    /// by the character's UTF-8 width.
    pub fn advance(&mut self, character: char)
        requires
            can_advance(*old(self), character),
        ensures
            *final(self) == spec_advance(*old(self), character),
    {
        if character == '\n' {
            self.row = self.row + 1;
            self.col = 1;
        } else {
            self.col = self.col + 1;
        }
        self.index = self.index + Position::utf8_len(character);
    }
}

/// A half-open range of two positions, used to slice the original input
/// and to report diagnostics.
#[derive(Debug, Clone, Copy, PartialEq, Eq, Hash, Structural)]
pub struct Span {
    pub start: Position,
    pub end: Position,
}

impl Default for Position {
    /// The first position of any input.
    fn default() -> (r: Position)
        ensures
            r == Position::spec_new(),
    {
        Position { row: 1, col: 1, index: 0 }
    }
}

} // verus!
