//! Positions, the input reader, and tokens cut from it.

use turn::position::{Position, Span};
use turn::text_reader::TextReader;

#[test]
fn advance_position() {
    let mut position = Position {
        row: 42,
        col: 42,
        index: 69,
    };
    position.advance('ß');
    assert_eq!(
        position,
        Position {
            row: 42,
            col: 43,
            index: 71
        }
    );
    position.advance('\n');
    assert_eq!(
        position,
        Position {
            row: 43,
            col: 1,
            index: 72
        }
    );
}

#[test]
fn peek_characters() {
    let mut reader = TextReader::new("ℝbcd");
    assert_eq!(reader.peek(), Some('ℝ'));
    assert_eq!(reader.peek(), Some('ℝ'));

    reader.next();

    assert_eq!(reader.peek(), Some('b'));
    assert_eq!(reader.peek(), Some('b'));
}

#[test]
fn read_characters() {
    let mut reader = TextReader::new("ℝb💣");

    assert_eq!(reader.next(), Some('ℝ'));
    assert_eq!(reader.next(), Some('b'));
    assert_eq!(reader.next(), Some('💣'));
    assert_eq!(reader.next(), None);
}

#[test]
fn reader_positions() {
    let mut reader = TextReader::new("ℝb\n💣");
    assert_eq!(
        reader.current_position(),
        Position {
            row: 1,
            col: 1,
            index: 0
        }
    );
    reader.next();
    assert_eq!(
        reader.current_position(),
        Position {
            row: 1,
            col: 2,
            index: 3
        }
    );
    reader.next();
    assert_eq!(
        reader.current_position(),
        Position {
            row: 1,
            col: 3,
            index: 4
        }
    );
    reader.next();
    assert_eq!(
        reader.current_position(),
        Position {
            row: 2,
            col: 1,
            index: 5
        }
    );
    reader.next();
    assert_eq!(
        reader.current_position(),
        Position {
            row: 2,
            col: 2,
            index: 9
        }
    );
    reader.next();
    assert_eq!(
        reader.current_position(),
        Position {
            row: 2,
            col: 2,
            index: 9
        }
    );
}

#[test]
fn read_input_slices() {
    let mut reader = TextReader::new("abcℝb💣def");
    assert_eq!(
        reader.input_slice(Span {
            start: Position {
                col: 4,
                row: 1,
                index: 3
            },
            end: Position {
                col: 7,
                row: 1,
                index: 11
            }
        }),
        "ℝb💣"
    );
    for _ in 0..3 {
        reader.next();
    }
    let from = reader.current_position();
    for _ in 0..3 {
        reader.next();
    }
    assert_eq!(reader.input_slice_from(from), "ℝb💣");
}

#[test]
fn peek_matches_read() {
    let mut reader = TextReader::new("xℝy");

    for _ in 0..6 {
        let peek = reader.peek();
        let next = reader.next();
        assert_eq!(peek, next);
    }
}

#[test]
fn from_reader() {
    let mut reader = TextReader::new("abcdef");
    reader.next();
    let position = reader.current_position();
    for _ in 0..3 {
        reader.next();
    }
    let token = turn::token::Token::from_reader('x', position, &reader);

    assert_eq!(
        token,
        turn::token::Token {
            token: 'x',
            slice: "bcd",
            position: Span {
                start: Position {
                    row: 1,
                    col: 2,
                    index: 1
                },
                end: Position {
                    row: 1,
                    col: 5,
                    index: 4
                }
            },
        }
    );
}

#[test]
fn it_works() {
    assert_eq!(2 + 2, 4);
}

#[test]
fn lib_it_works() {
    assert_eq!(2 + 2, 4);
}
