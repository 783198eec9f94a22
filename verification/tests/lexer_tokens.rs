//! Tokenizing the regex mini-language and category bodies.

use turn::hir::SetMember;
use turn::lexer::{CategoryNonterminal, LexicalError, RegexTerminal, RegexToken};
use turn::position::{Position, Span};

fn position_range(cols: std::ops::Range<usize>, indices: std::ops::Range<usize>) -> Span {
    Span {
        start: Position {
            row: 1,
            col: cols.start,
            index: indices.start,
        },
        end: Position {
            row: 1,
            col: cols.end,
            index: indices.end,
        },
    }
}

fn token<'a>(
    token: Result<RegexTerminal<'a>, LexicalError>,
    cols: std::ops::Range<usize>,
    indices: std::ops::Range<usize>,
    slice: &'a str,
) -> RegexToken<'a> {
    turn::token::Token {
        token,
        position: position_range(cols, indices),
        slice,
    }
}

#[test]
fn parse_empty() {
    let mut lexer = turn::lexer::Lexer::new("");
    assert_eq!(lexer.next_token(), None);
}

#[test]
fn parse_sequence() {
    let mut lexer = turn::lexer::Lexer::new("💣b東x#e#ß");
    assert_eq!(
        lexer.next_token(),
        Some(token(
            Ok(RegexTerminal::Sequence("💣b東x#e#ß")),
            1..9,
            0..14,
            "💣b東x#e#ß"
        ))
    );
    assert_eq!(lexer.next_token(), None);
}

#[test]
fn parse_anychar() {
    let mut lexer = turn::lexer::Lexer::new("_");
    assert_eq!(
        lexer.next_token(),
        Some(token(Ok(RegexTerminal::AnyChar), 1..2, 0..1, "_"))
    );
    assert_eq!(lexer.next_token(), None);
}

#[test]
fn parse_repetition_star() {
    let mut lexer = turn::lexer::Lexer::new("*");
    assert_eq!(
        lexer.next_token(),
        Some(token(
            Ok(RegexTerminal::Repetition { min: 0, max: None }),
            1..2,
            0..1,
            "*"
        ))
    );
    assert_eq!(lexer.next_token(), None);
}

#[test]
fn parse_repetition_plus() {
    let mut lexer = turn::lexer::Lexer::new("+");
    assert_eq!(
        lexer.next_token(),
        Some(token(
            Ok(RegexTerminal::Repetition { min: 1, max: None }),
            1..2,
            0..1,
            "+"
        ))
    );
    assert_eq!(lexer.next_token(), None);
}

#[test]
fn parse_repetition_question_mark() {
    let mut lexer = turn::lexer::Lexer::new("?");
    assert_eq!(
        lexer.next_token(),
        Some(token(
            Ok(RegexTerminal::Repetition {
                min: 0,
                max: Some(1)
            }),
            1..2,
            0..1,
            "?"
        ))
    );
    assert_eq!(lexer.next_token(), None);
}

#[test]
fn parse_repetition_variants() {
    let mut lexer = turn::lexer::Lexer::new("{99}{-1}{2-}{2-7}{7-2}");
    assert_eq!(
        lexer.next_token(),
        Some(token(
            Ok(RegexTerminal::Repetition {
                min: 99,
                max: Some(99)
            }),
            1..5,
            0..4,
            "{99}"
        ))
    );
    assert_eq!(
        lexer.next_token(),
        Some(token(
            Ok(RegexTerminal::Repetition {
                min: 0,
                max: Some(1)
            }),
            5..9,
            4..8,
            "{-1}"
        ))
    );
    assert_eq!(
        lexer.next_token(),
        Some(token(
            Ok(RegexTerminal::Repetition { min: 2, max: None }),
            9..13,
            8..12,
            "{2-}"
        ))
    );
    assert_eq!(
        lexer.next_token(),
        Some(token(
            Ok(RegexTerminal::Repetition {
                min: 2,
                max: Some(7)
            }),
            13..18,
            12..17,
            "{2-7}"
        ))
    );
    assert_eq!(
        lexer.next_token(),
        Some(token(
            Err(LexicalError::InvalidRepetitionRange { min: 7, max: 2 }),
            18..23,
            17..22,
            "{7-2}"
        ))
    );
}

#[test]
fn parse_repetition_errors() {
    let mut lexer = turn::lexer::Lexer::new("{z}");
    assert_eq!(
        lexer.next_token(),
        Some(token(
            Err(LexicalError::InvalidRepetitionCharacter {
                position: Position {
                    row: 1,
                    col: 2,
                    index: 1
                },
                character: 'z'
            }),
            1..3,
            0..2,
            "{z"
        ))
    );
    let mut lexer = turn::lexer::Lexer::new("{-y}");
    assert_eq!(
        lexer.next_token(),
        Some(token(
            Err(LexicalError::InvalidRepetitionCharacter {
                position: Position {
                    row: 1,
                    col: 3,
                    index: 2
                },
                character: 'y'
            }),
            1..4,
            0..3,
            "{-y"
        ))
    );
    let mut lexer = turn::lexer::Lexer::new("{");
    assert_eq!(
        lexer.next_token(),
        Some(token(
            Err(LexicalError::UnclosedRepetition {
                position: Position {
                    row: 1,
                    col: 1,
                    index: 0
                },
            }),
            1..2,
            0..1,
            "{"
        ))
    );
    let mut lexer = turn::lexer::Lexer::new("{0-");
    assert_eq!(
        lexer.next_token(),
        Some(token(
            Err(LexicalError::UnclosedRepetition {
                position: Position {
                    row: 1,
                    col: 1,
                    index: 0
                },
            }),
            1..4,
            0..3,
            "{0-"
        ))
    );
    let mut lexer = turn::lexer::Lexer::new("{5-1}");
    assert_eq!(
        lexer.next_token(),
        Some(token(
            Err(LexicalError::InvalidRepetitionRange { min: 5, max: 1 }),
            1..6,
            0..5,
            "{5-1}"
        ))
    );
}

#[test]
fn parse_set() {
    let mut lexer = turn::lexer::Lexer::new("[se<t>\\<[\\]!\\\\]");
    assert_eq!(
        lexer.next_token(),
        Some(token(
            Ok(RegexTerminal::CharSet(vec![
                SetMember::Character('s'),
                SetMember::Character('e'),
                SetMember::Category("t"),
                SetMember::Character('<'),
                SetMember::Character('['),
                SetMember::Character(']'),
                SetMember::Character('!'),
                SetMember::Character('\\'),
            ])),
            1..16,
            0..15,
            "[se<t>\\<[\\]!\\\\]"
        ))
    );
    assert_eq!(lexer.next_token(), None);
}

#[test]
fn parse_set_errors() {
    let mut lexer = turn::lexer::Lexer::new("[se<t>\\<[\\]!\\\\");
    assert_eq!(
        lexer.next_token(),
        Some(token(
            Err(LexicalError::UnclosedSet {
                position: Position {
                    row: 1,
                    col: 1,
                    index: 0
                }
            }),
            1..15,
            0..14,
            "[se<t>\\<[\\]!\\\\"
        ))
    );
    let mut lexer = turn::lexer::Lexer::new("[\\");
    assert_eq!(
        lexer.next_token(),
        Some(token(
            Err(LexicalError::UnclosedSet {
                position: Position {
                    row: 1,
                    col: 1,
                    index: 0
                }
            }),
            1..3,
            0..2,
            "[\\"
        ))
    );
    let mut lexer = turn::lexer::Lexer::new("[\\x");
    assert_eq!(
        lexer.next_token(),
        Some(token(
            Err(LexicalError::InvalidSetEscape {
                character: 'x',
                position: Position {
                    row: 1,
                    col: 3,
                    index: 2
                }
            }),
            1..4,
            0..3,
            "[\\x"
        ))
    );
    let mut lexer = turn::lexer::Lexer::new("[<");
    assert_eq!(
        lexer.next_token(),
        Some(token(
            Err(LexicalError::UnclosedSubexpression {
                position: Position {
                    row: 1,
                    col: 2,
                    index: 1
                }
            }),
            1..3,
            0..2,
            "[<"
        ))
    );
}

#[test]
fn parse_negated_set() {
    let mut lexer = turn::lexer::Lexer::new("[!se<t>\\<[\\]!\\\\]");
    assert_eq!(
        lexer.next_token(),
        Some(token(
            Ok(RegexTerminal::NegatedSet(vec![
                SetMember::Character('s'),
                SetMember::Character('e'),
                SetMember::Category("t"),
                SetMember::Character('<'),
                SetMember::Character('['),
                SetMember::Character(']'),
                SetMember::Character('!'),
                SetMember::Character('\\'),
            ])),
            1..17,
            0..16,
            "[!se<t>\\<[\\]!\\\\]"
        ))
    );
    assert_eq!(lexer.next_token(), None);
}

#[test]
fn parse_alternation() {
    let mut lexer = turn::lexer::Lexer::new("|");
    assert_eq!(
        lexer.next_token(),
        Some(token(Ok(RegexTerminal::Alternation), 1..2, 0..1, "|"))
    );
    assert_eq!(lexer.next_token(), None);
}

#[test]
fn parse_left_parenthesis() {
    let mut lexer = turn::lexer::Lexer::new("(");
    assert_eq!(
        lexer.next_token(),
        Some(token(Ok(RegexTerminal::LParenthesis), 1..2, 0..1, "("))
    );
    assert_eq!(lexer.next_token(), None);
}

#[test]
fn parse_right_parenthesis() {
    let mut lexer = turn::lexer::Lexer::new(")");
    assert_eq!(
        lexer.next_token(),
        Some(token(Ok(RegexTerminal::RParenthesis), 1..2, 0..1, ")"))
    );
    assert_eq!(lexer.next_token(), None);
}

#[test]
fn parse_subexpression() {
    let mut lexer = turn::lexer::Lexer::new("<subexpr>");
    assert_eq!(
        lexer.next_token(),
        Some(token(
            Ok(RegexTerminal::Subexpression("subexpr")),
            1..10,
            0..9,
            "<subexpr>"
        ))
    );
    assert_eq!(lexer.next_token(), None);
}

#[test]
fn parse_subexpression_unclosed() {
    let mut lexer = turn::lexer::Lexer::new("<subexpr");
    assert_eq!(
        lexer.next_token(),
        Some(token(
            Err(LexicalError::UnclosedSubexpression {
                position: Position {
                    row: 1,
                    col: 1,
                    index: 0
                }
            }),
            1..9,
            0..8,
            "<subexpr"
        ))
    );
    assert_eq!(lexer.next_token(), None);
}

#[test]
fn parse_escaped_chars() {
    let mut lexer = turn::lexer::Lexer::new("\\_\\*\\+\\?\\{\\}\\\\\\[\\]\\|\\(\\)\\<\\>");
    let expected = [
        ("_", "\\_"),
        ("*", "\\*"),
        ("+", "\\+"),
        ("?", "\\?"),
        ("{", "\\{"),
        ("}", "\\}"),
        ("\\", "\\\\"),
        ("[", "\\["),
        ("]", "\\]"),
        ("|", "\\|"),
        ("(", "\\("),
        (")", "\\)"),
        ("<", "\\<"),
        (">", "\\>"),
    ];
    for (k, (ch, slice)) in expected.iter().enumerate() {
        assert_eq!(
            lexer.next_token(),
            Some(token(
                Ok(RegexTerminal::Sequence(ch)),
                (2 * k + 1)..(2 * k + 3),
                (2 * k)..(2 * k + 2),
                slice
            ))
        );
    }
    assert_eq!(lexer.next_token(), None);
}

#[test]
fn parse_multiple() {
    let mut lexer =
        turn::lexer::Lexer::new("a💣bß>ř_*+?{42}{5-}{-5}{4-89}[ab<cat><ccat>][!x]|()<sub>");
    assert_eq!(
        lexer.next_token(),
        Some(token(
            Ok(RegexTerminal::Sequence("a💣bß>ř")),
            1..7,
            0..11,
            "a💣bß>ř"
        ))
    );
    assert_eq!(
        lexer.next_token(),
        Some(token(Ok(RegexTerminal::AnyChar), 7..8, 11..12, "_"))
    );
    assert_eq!(
        lexer.next_token(),
        Some(token(
            Ok(RegexTerminal::Repetition { min: 0, max: None }),
            8..9,
            12..13,
            "*"
        ))
    );
    assert_eq!(
        lexer.next_token(),
        Some(token(
            Ok(RegexTerminal::Repetition { min: 1, max: None }),
            9..10,
            13..14,
            "+"
        ))
    );
    assert_eq!(
        lexer.next_token(),
        Some(token(
            Ok(RegexTerminal::Repetition {
                min: 0,
                max: Some(1)
            }),
            10..11,
            14..15,
            "?"
        ))
    );
    assert_eq!(
        lexer.next_token(),
        Some(token(
            Ok(RegexTerminal::Repetition {
                min: 42,
                max: Some(42)
            }),
            11..15,
            15..19,
            "{42}"
        ))
    );
    assert_eq!(
        lexer.next_token(),
        Some(token(
            Ok(RegexTerminal::Repetition { min: 5, max: None }),
            15..19,
            19..23,
            "{5-}"
        ))
    );
    assert_eq!(
        lexer.next_token(),
        Some(token(
            Ok(RegexTerminal::Repetition {
                min: 0,
                max: Some(5)
            }),
            19..23,
            23..27,
            "{-5}"
        ))
    );
    assert_eq!(
        lexer.next_token(),
        Some(token(
            Ok(RegexTerminal::Repetition {
                min: 4,
                max: Some(89)
            }),
            23..29,
            27..33,
            "{4-89}"
        ))
    );
    assert_eq!(
        lexer.next_token(),
        Some(token(
            Ok(RegexTerminal::CharSet(vec![
                SetMember::Character('a'),
                SetMember::Character('b'),
                SetMember::Category("cat"),
                SetMember::Category("ccat"),
            ])),
            29..44,
            33..48,
            "[ab<cat><ccat>]"
        ))
    );
    assert_eq!(
        lexer.next_token(),
        Some(token(
            Ok(RegexTerminal::NegatedSet(vec![SetMember::Character('x')])),
            44..48,
            48..52,
            "[!x]"
        ))
    );
    assert_eq!(
        lexer.next_token(),
        Some(token(Ok(RegexTerminal::Alternation), 48..49, 52..53, "|"))
    );
    assert_eq!(
        lexer.next_token(),
        Some(token(Ok(RegexTerminal::LParenthesis), 49..50, 53..54, "("))
    );
    assert_eq!(
        lexer.next_token(),
        Some(token(Ok(RegexTerminal::RParenthesis), 50..51, 54..55, ")"))
    );
    assert_eq!(
        lexer.next_token(),
        Some(token(
            Ok(RegexTerminal::Subexpression("sub")),
            51..56,
            55..60,
            "<sub>"
        ))
    );
    assert_eq!(lexer.next_token(), None);
}

#[test]
fn parse_empty_category() {
    let mut lexer = turn::lexer::CategoryLexer::new("");
    assert_eq!(lexer.next_token(), None);
}

#[test]
fn parse_sequence_category() {
    let mut lexer = turn::lexer::CategoryLexer::new("abcd");
    assert_eq!(
        lexer.next_token(),
        Some(turn::token::Token {
            token: Ok(CategoryNonterminal::Sequence("abcd")),
            position: position_range(1..5, 0..4),
            slice: "abcd",
        })
    );
    assert_eq!(lexer.next_token(), None);
}

#[test]
fn parse_sequence_escape() {
    let mut lexer = turn::lexer::CategoryLexer::new("\\<\\[");
    assert_eq!(
        lexer.next_token(),
        Some(turn::token::Token {
            token: Ok(CategoryNonterminal::Sequence("<")),
            position: position_range(1..3, 0..2),
            slice: "\\<",
        })
    );
    assert_eq!(
        lexer.next_token(),
        Some(turn::token::Token {
            token: Err(LexicalError::InvalidEscape {
                position: Position {
                    row: 1,
                    col: 5,
                    index: 4,
                },
                character: Some('[')
            }),
            position: position_range(3..5, 2..4),
            slice: "\\[",
        })
    );
}

#[test]
fn parse_category_category() {
    let mut lexer = turn::lexer::CategoryLexer::new("<eyo>");
    assert_eq!(
        lexer.next_token(),
        Some(turn::token::Token {
            token: Ok(CategoryNonterminal::Category("eyo")),
            position: position_range(1..6, 0..5),
            slice: "<eyo>",
        })
    );
    assert_eq!(lexer.next_token(), None);
}

#[test]
fn parse_full_category() {
    let mut lexer = turn::lexer::CategoryLexer::new("xx\\<<cat1><cat2>yy");
    assert_eq!(
        lexer.next_token(),
        Some(turn::token::Token {
            token: Ok(CategoryNonterminal::Sequence("xx")),
            position: position_range(1..3, 0..2),
            slice: "xx",
        })
    );
    assert_eq!(
        lexer.next_token(),
        Some(turn::token::Token {
            token: Ok(CategoryNonterminal::Sequence("<")),
            position: position_range(3..5, 2..4),
            slice: "\\<",
        })
    );
    assert_eq!(
        lexer.next_token(),
        Some(turn::token::Token {
            token: Ok(CategoryNonterminal::Category("cat1")),
            position: position_range(5..11, 4..10),
            slice: "<cat1>",
        })
    );
    assert_eq!(
        lexer.next_token(),
        Some(turn::token::Token {
            token: Ok(CategoryNonterminal::Category("cat2")),
            position: position_range(11..17, 10..16),
            slice: "<cat2>",
        })
    );
    assert_eq!(
        lexer.next_token(),
        Some(turn::token::Token {
            token: Ok(CategoryNonterminal::Sequence("yy")),
            position: position_range(17..19, 16..18),
            slice: "yy",
        })
    );
    assert_eq!(lexer.next_token(), None);
}
