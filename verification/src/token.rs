//! Tokens produced by the lexers: a value, the span it covers, and the
//! slice of the input it was read from.

use crate::position::{Position, Span};
use crate::text_reader::{char_index_of, is_boundary, pos_after, prefix_bytes, TextReader};
use vstd::prelude::*;

verus! {

/// A token: the token value itself, its position in the source, and the
/// slice of the input the token was obtained from.
#[derive(Debug, Clone, PartialEq, Eq, Hash)]
pub struct Token<'a, T> {
    pub token: T,
    pub position: Span,
    pub slice: &'a str,
}

impl<'a, T> Token<'a, T> {
    /// Create a Token using an input reader.
    ///
    /// The reader is expected to have read the last character of the token,
    /// so that the token's span runs from `begin` to the reader's current
    /// position and its slice is the input between the two.
    pub fn from_reader(token: T, begin: Position, reader: &TextReader<'a>) -> (r: Token<'a, T>)
        requires
            reader.wf(),
            is_boundary(reader.text(), begin.index as int),
            begin.index <= prefix_bytes(reader.text(), reader.read()),
        ensures
            r.token == token,
            r.position == (Span { start: begin, end: pos_after(reader.text(), reader.read()) }),
            r.slice@ == reader.text().subrange(
                char_index_of(reader.text(), begin.index as int),
                reader.read(),
            ),
    {
        let end = reader.current_position();
        proof {
            reader.lemma_position_boundary();
        }
        let position = Span { start: begin, end };
        let slice = reader.input_slice(position);
        Token { token, position, slice }
    }
}

} // verus!
