//! Recursive-descent parsing of lexed terminals into syntax trees.

use turn::hir::{SetMember, HIR};
use turn::lexer::{Lexer, RegexResult};
use turn::parser::{parse_category, parse_regex, Error, ParsingError};

fn lex(input: &str) -> Vec<RegexResult<'_>> {
    let mut lexer = Lexer::new(input);
    let mut tokens = Vec::new();
    while let Some(t) = lexer.next_token() {
        tokens.push(t.token);
    }
    tokens
}

fn lex_category(input: &str) -> Vec<turn::lexer::CategoryResult<'_>> {
    let mut lexer = turn::lexer::CategoryLexer::new(input);
    let mut tokens = Vec::new();
    while let Some(t) = lexer.next_token() {
        tokens.push(t.token);
    }
    tokens
}

#[test]
fn hir_sequence() {
    assert_eq!(parse_regex(&lex("abcd")), Ok(HIR::Sequence("abcd")));
}

#[test]
fn hir_any_char() {
    assert_eq!(parse_regex(&lex("_")), Ok(HIR::AnyChar));
}

#[test]
fn hir_star_repetition() {
    assert_eq!(
        parse_regex(&lex("a*")),
        Ok(HIR::Repetition {
            regex: Box::new(HIR::Sequence("a")),
            min: 0,
            max: None,
        })
    );
}

#[test]
fn hir_bounded_repetition() {
    assert_eq!(
        parse_regex(&lex("a{6-9}")),
        Ok(HIR::Repetition {
            regex: Box::new(HIR::Sequence("a")),
            min: 6,
            max: Some(9),
        })
    );
}

#[test]
fn hir_repetition_wraps_last_term() {
    assert_eq!(
        parse_regex(&lex("ab_?")),
        Ok(HIR::Concatenation(vec![
            HIR::Sequence("ab"),
            HIR::Repetition {
                regex: Box::new(HIR::AnyChar),
                min: 0,
                max: Some(1),
            },
        ]))
    );
}

#[test]
fn hir_set() {
    assert_eq!(
        parse_regex(&lex("[a<cat>.[\\]]")),
        Ok(HIR::CharSet(vec![
            SetMember::Character('a'),
            SetMember::Category("cat"),
            SetMember::Character('.'),
            SetMember::Character('['),
            SetMember::Character(']'),
        ]))
    );
}

#[test]
fn hir_negated_set() {
    assert_eq!(
        parse_regex(&lex("[!a<cat>.[\\]]")),
        Ok(HIR::NegatedSet(vec![
            SetMember::Character('a'),
            SetMember::Category("cat"),
            SetMember::Character('.'),
            SetMember::Character('['),
            SetMember::Character(']'),
        ]))
    );
}

#[test]
fn hir_alternatives() {
    assert_eq!(
        parse_regex(&lex("a|(bc)*|def")),
        Ok(HIR::Alternation(vec![
            HIR::Sequence("a"),
            HIR::Repetition {
                regex: Box::new(HIR::Sequence("bc")),
                min: 0,
                max: None,
            },
            HIR::Sequence("def"),
        ]))
    );
}

#[test]
fn hir_alternatives_stay_flat() {
    assert_eq!(
        parse_regex(&lex("a|(b|c)")),
        Ok(HIR::Alternation(vec![
            HIR::Sequence("a"),
            HIR::Sequence("b"),
            HIR::Sequence("c"),
        ]))
    );
}

#[test]
fn hir_concatenation() {
    assert_eq!(
        parse_regex(&lex("ab_cd")),
        Ok(HIR::Concatenation(vec![
            HIR::Sequence("ab"),
            HIR::AnyChar,
            HIR::Sequence("cd"),
        ]))
    );
}

#[test]
fn hir_subregex() {
    assert_eq!(parse_regex(&lex("<category>")), Ok(HIR::SubRegex("category")));
}

#[test]
fn hir_full_pattern() {
    assert_eq!(
        parse_regex(&lex("-?(([123456789]<0-9>*)|0)")),
        Ok(HIR::Concatenation(vec![
            HIR::Repetition {
                regex: Box::new(HIR::Sequence("-")),
                min: 0,
                max: Some(1),
            },
            HIR::Alternation(vec![
                HIR::Concatenation(vec![
                    HIR::CharSet(vec![
                        SetMember::Character('1'),
                        SetMember::Character('2'),
                        SetMember::Character('3'),
                        SetMember::Character('4'),
                        SetMember::Character('5'),
                        SetMember::Character('6'),
                        SetMember::Character('7'),
                        SetMember::Character('8'),
                        SetMember::Character('9'),
                    ]),
                    HIR::Repetition {
                        regex: Box::new(HIR::SubRegex("0-9")),
                        min: 0,
                        max: None,
                    },
                ]),
                HIR::Sequence("0"),
            ]),
        ]))
    );
}

#[test]
fn hir_standalone_repetition() {
    assert_eq!(
        parse_regex(&lex("*a")),
        Err(Error::ParsingError(ParsingError::StandaloneRepetition))
    );
}

#[test]
fn hir_unexpected_rparenthesis() {
    assert_eq!(
        parse_regex(&lex(")")),
        Err(Error::ParsingError(ParsingError::UnexpectedRParenthesis))
    );
}

#[test]
fn hir_lexical_error_bubbles() {
    assert_eq!(
        parse_regex(&lex("a{7-2}")),
        Err(Error::LexicalError(
            turn::lexer::LexicalError::InvalidRepetitionRange { min: 7, max: 2 }
        ))
    );
}

#[test]
fn hir_category_characters() {
    assert_eq!(
        parse_category(&lex_category("abcd")),
        Ok(HIR::CharSet(vec![
            SetMember::Character('a'),
            SetMember::Character('b'),
            SetMember::Character('c'),
            SetMember::Character('d'),
        ]))
    );
}

#[test]
fn hir_category_references() {
    assert_eq!(
        parse_category(&lex_category("ab<cat>cd<dog>")),
        Ok(HIR::CharSet(vec![
            SetMember::Character('a'),
            SetMember::Character('b'),
            SetMember::Category("cat"),
            SetMember::Character('c'),
            SetMember::Character('d'),
            SetMember::Category("dog"),
        ]))
    );
}

#[test]
fn error_messages_name_the_offender() {
    let err = turn::lexer::LexicalError::InvalidRepetitionRange { min: 7, max: 2 };
    assert!(err.message().contains("7 is greater than 2"));
    let err = turn::lexer::LexicalError::UnclosedSet {
        position: turn::position::Position {
            row: 3,
            col: 9,
            index: 20,
        },
    };
    assert!(err.message().contains("3:9"));
}
