//! The lexer for the regex mini-language, and the simpler lexer for
//! category-definition bodies.

use crate::hir::SetMember;
use crate::matchers::ascii_digit;
use crate::position::{Position, Span};
use crate::text_reader::{char_index_of, is_boundary, pos_after, prefix_bytes, TextReader};
use crate::token;
use vstd::prelude::*;

verus! {

pub type RegexToken<'a> = token::Token<'a, RegexResult<'a>>;

pub type CategoryToken<'a> = token::Token<'a, CategoryResult<'a>>;

pub type RegexResult<'a> = Result<RegexTerminal<'a>, LexicalError>;

pub type CategoryResult<'a> = Result<CategoryNonterminal<'a>, LexicalError>;

/// A terminal of the regex mini-language.
#[derive(Debug, PartialEq, Eq, Clone)]
pub enum RegexTerminal<'a> {
    /// A maximal run of literal characters.
    Sequence(&'a str),
    /// `_`: any single character.
    AnyChar,
    /// A repetition marker: `*`, `+`, `?` or a `{...}` block.
    Repetition { min: u16, max: Option<u16> },
    /// `[...]`: a set of characters and category references.
    CharSet(Vec<SetMember<'a>>),
    /// `[!...]`: a negated set.
    NegatedSet(Vec<SetMember<'a>>),
    /// `|`
    Alternation,
    /// `(`
    LParenthesis,
    /// `)`
    RParenthesis,
    /// `<name>`: a category or subexpression reference.
    Subexpression(&'a str),
}

/// A terminal of a category-definition body.
#[derive(Debug, PartialEq, Eq, Clone)]
pub enum CategoryNonterminal<'a> {
    /// A run of literal characters.
    Sequence(&'a str),
    /// `<name>`: a category reference.
    Category(&'a str),
}

/// A lexical error, anchored at the position where the offending construct
/// started or where the offending character stood.
#[derive(Debug, Clone, Copy, PartialEq, Eq, Structural)]
pub enum LexicalError {
    UnclosedSet { position: Position },
    UnclosedSubexpression { position: Position },
    UnclosedRepetition { position: Position },
    InvalidRepetitionRange { min: u16, max: u16 },
    InvalidRepetitionCharacter { position: Position, character: char },
    InvalidEscape { position: Position, character: Option<char> },
    InvalidSetEscape { position: Position, character: char },
    RangeIntegerOverflow { position: Position },
}

impl LexicalError {
    /// Render the error as a human-readable message.
    pub fn message(&self) -> String {
        match *self {
            LexicalError::UnclosedSet { position } => {
                format_message(
                    "the set starting at ",
                    position,
                    " is missing the closing character ']'",
                )
            },
            LexicalError::UnclosedSubexpression { position } => {
                format_message(
                    "the subexpression or category starting at ",
                    position,
                    " is missing the closing character '>'",
                )
            },
            LexicalError::UnclosedRepetition { position } => {
                format_message(
                    "unexpected end of input inside range specifier at position ",
                    position,
                    "",
                )
            },
            LexicalError::InvalidRepetitionRange { min, max } => {
                format_range_message("invalid repetition range: ", min, max)
            },
            LexicalError::InvalidRepetitionCharacter { position, character } => {
                format_char_message(
                    "invalid character '",
                    character,
                    "' inside a repetition range at position ",
                    position,
                )
            },
            LexicalError::InvalidSetEscape { position, character } => {
                format_char_message(
                    "invalid escaped character '",
                    character,
                    "' inside a set at position ",
                    position,
                )
            },
            LexicalError::InvalidEscape { position, character } => {
                match character {
                    Some(c) => format_char_message(
                        "invalid escaped character '",
                        c,
                        "' at position ",
                        position,
                    ),
                    None => format_message(
                        "unexpected end of input after '\\' at position ",
                        position,
                        "",
                    ),
                }
            },
            LexicalError::RangeIntegerOverflow { position } => {
                format_message("integer range over 65536 at position ", position, "")
            },
        }
    }
}

/// Relies on the format macro: renders a message around a `row:col` position.
#[verifier::external_body]
fn format_message(before: &str, position: Position, after: &str) -> String {
    format!("{}{}:{}{}", before, position.row, position.col, after)
}

/// Relies on the format macro: renders a message around a bounds pair.
#[verifier::external_body]
fn format_range_message(before: &str, min: u16, max: u16) -> String {
    format!("{}{} is greater than {}", before, min, max)
}

/// Relies on the format macro: renders a message around a character and a
/// `row:col` position.
#[verifier::external_body]
fn format_char_message(before: &str, character: char, middle: &str, position: Position) -> String {
    format!("{}{}{}{}:{}", before, character, middle, position.row, position.col)
}

/// The characters that end a literal run and start a construct of their own.
pub open spec fn is_special(c: char) -> bool {
    c == '_' || c == '*' || c == '+' || c == '?' || c == '(' || c == ')' || c == '|' || c == '{'
        || c == '[' || c == '<' || c == '\\'
}

/// The characters an escape `\c` may name.
pub open spec fn is_escapable(c: char) -> bool {
    is_special(c) || c == '}' || c == ']' || c == '>'
}

/// The characters an escape may name inside a set.
pub open spec fn set_escapable(c: char) -> bool {
    c == '\\' || c == '<' || c == ']'
}

/// The end of the maximal run of literal characters starting at `i`.
pub open spec fn run_end(s: Seq<char>, i: int) -> int
    decreases s.len() - i when 0 <= i <= s.len()
{
    if i >= s.len() || is_special(s[i]) {
        i
    } else {
        run_end(s, i + 1)
    }
}

/// The index of the first `>` at or after `i`, or the text's length when
/// there is none.
pub open spec fn close_idx(s: Seq<char>, i: int) -> int
    decreases s.len() - i when 0 <= i <= s.len()
{
    if i >= s.len() {
        s.len() as int
    } else if s[i] == '>' {
        i
    } else {
        close_idx(s, i + 1)
    }
}

/// The closing index stays within the text and at or after its start.
pub proof fn lemma_close_idx(s: Seq<char>, i: int)
    requires
        0 <= i <= s.len(),
    ensures
        i <= close_idx(s, i) <= s.len(),
        close_idx(s, i) < s.len() ==> s[close_idx(s, i)] == '>',
        forall|k: int| i <= k < close_idx(s, i) ==> s[k] != '>',
    decreases s.len() - i,
{
    if i < s.len() && s[i] != '>' {
        lemma_close_idx(s, i + 1);
    }
}

/// The numeric value of a decimal digit.
pub open spec fn digit_val(c: char) -> int {
    c as u32 - '0' as u32
}

/// Where scanning a decimal number stops: at the first non-digit, or at the
/// first digit that would push the value past 65535.
pub open spec fn int_end(s: Seq<char>, i: int, acc: int) -> int
    decreases s.len() - i when 0 <= i <= s.len()
{
    if i >= s.len() || !ascii_digit(s[i]) {
        i
    } else if acc * 10 + digit_val(s[i]) > 65535 {
        i
    } else {
        int_end(s, i + 1, acc * 10 + digit_val(s[i]))
    }
}

/// Whether scanning a decimal number runs past 65535.
pub open spec fn int_ovf(s: Seq<char>, i: int, acc: int) -> bool
    decreases s.len() - i when 0 <= i <= s.len()
{
    if i >= s.len() || !ascii_digit(s[i]) {
        false
    } else if acc * 10 + digit_val(s[i]) > 65535 {
        true
    } else {
        int_ovf(s, i + 1, acc * 10 + digit_val(s[i]))
    }
}

/// The value accumulated when scanning a decimal number stops.
pub open spec fn int_val(s: Seq<char>, i: int, acc: int) -> int
    decreases s.len() - i when 0 <= i <= s.len()
{
    if i >= s.len() || !ascii_digit(s[i]) {
        acc
    } else if acc * 10 + digit_val(s[i]) > 65535 {
        acc
    } else {
        int_val(s, i + 1, acc * 10 + digit_val(s[i]))
    }
}

/// What scanning an optional decimal number starting at `i` produces, and
/// where it stops. An absent number is `Ok(None)`; a number past 65535 is a
/// `RangeIntegerOverflow` anchored at `pos`.
pub open spec fn spec_integer(s: Seq<char>, i: int, pos: Position) -> (Result<
    Option<u16>,
    LexicalError,
>, int) {
    if i >= s.len() || !ascii_digit(s[i]) {
        (Ok(None), i)
    } else {
        let acc = digit_val(s[i]);
        if int_ovf(s, i + 1, acc) {
            (Err(LexicalError::RangeIntegerOverflow { position: pos }), int_end(s, i + 1, acc))
        } else {
            (Ok(Some(int_val(s, i + 1, acc) as u16)), int_end(s, i + 1, acc))
        }
    }
}

/// What scanning a `{...}` repetition block produces, starting just after
/// the `{` at `i`, and where it stops. `brace` is the position of the `{`.
pub open spec fn spec_repetition(s: Seq<char>, i: int, brace: Position) -> (Result<
    (u16, Option<u16>),
    LexicalError,
>, int) {
    let (minr, i1) = spec_integer(s, i, brace);
    match minr {
        Err(e) => (Err(e), i1),
        Ok(minopt) => {
            if i1 >= s.len() {
                (Err(LexicalError::UnclosedRepetition { position: brace }), i1)
            } else if s[i1] == '-' {
                let (maxr, i2) = spec_integer(s, i1 + 1, pos_after(s, i1 + 1));
                match maxr {
                    Err(e) => (Err(e), i2),
                    Ok(maxopt) => {
                        if i2 >= s.len() {
                            (Err(LexicalError::UnclosedRepetition { position: brace }), i2)
                        } else if s[i2] == '}' {
                            let min = if minopt is Some {
                                minopt->0
                            } else {
                                0
                            };
                            if maxopt is Some && min > maxopt->0 {
                                (
                                    Err(
                                        LexicalError::InvalidRepetitionRange {
                                            min,
                                            max: maxopt->0,
                                        },
                                    ),
                                    i2 + 1,
                                )
                            } else {
                                (Ok((min, maxopt)), i2 + 1)
                            }
                        } else {
                            (
                                Err(
                                    LexicalError::InvalidRepetitionCharacter {
                                        position: pos_after(s, i2),
                                        character: s[i2],
                                    },
                                ),
                                i2 + 1,
                            )
                        }
                    },
                }
            } else if s[i1] == '}' {
                let min = if minopt is Some {
                    minopt->0
                } else {
                    0
                };
                (Ok((min, Some(min))), i1 + 1)
            } else {
                (
                    Err(
                        LexicalError::InvalidRepetitionCharacter {
                            position: pos_after(s, i1),
                            character: s[i1],
                        },
                    ),
                    i1 + 1,
                )
            }
        },
    }
}

/// Where scanning a set body starting at `i` (after `[` and a possible `!`)
/// stops, one past the closing `]` when there is one.
pub open spec fn set_end(s: Seq<char>, i: int) -> int
    decreases s.len() - i when 0 <= i <= s.len() via set_end_decreases
{
    if i >= s.len() {
        s.len() as int
    } else if s[i] == ']' {
        i + 1
    } else if s[i] == '<' {
        let j = close_idx(s, i + 1);
        if j < s.len() {
            set_end(s, j + 1)
        } else {
            s.len() as int
        }
    } else if s[i] == '\\' {
        if i + 1 < s.len() {
            if set_escapable(s[i + 1]) {
                set_end(s, i + 2)
            } else {
                i + 2
            }
        } else {
            s.len() as int
        }
    } else {
        set_end(s, i + 1)
    }
}

#[via_fn]
proof fn set_end_decreases(s: Seq<char>, i: int) {
    if 0 <= i < s.len() && s[i] == '<' {
        lemma_close_idx(s, i + 1);
    }
}

/// The error scanning a set body starting at `i` runs into, if any.
/// `bracket` is the position of the opening `[`.
pub open spec fn set_err(s: Seq<char>, i: int, bracket: Position) -> Option<LexicalError>
    decreases s.len() - i when 0 <= i <= s.len() via set_err_decreases
{
    if i >= s.len() {
        Some(LexicalError::UnclosedSet { position: bracket })
    } else if s[i] == ']' {
        None
    } else if s[i] == '<' {
        let j = close_idx(s, i + 1);
        if j < s.len() {
            set_err(s, j + 1, bracket)
        } else {
            Some(LexicalError::UnclosedSubexpression { position: pos_after(s, i) })
        }
    } else if s[i] == '\\' {
        if i + 1 < s.len() {
            if set_escapable(s[i + 1]) {
                set_err(s, i + 2, bracket)
            } else {
                Some(
                    LexicalError::InvalidSetEscape {
                        position: pos_after(s, i + 1),
                        character: s[i + 1],
                    },
                )
            }
        } else {
            Some(LexicalError::UnclosedSet { position: bracket })
        }
    } else {
        set_err(s, i + 1, bracket)
    }
}

#[via_fn]
proof fn set_err_decreases(s: Seq<char>, i: int, bracket: Position) {
    if 0 <= i < s.len() && s[i] == '<' {
        lemma_close_idx(s, i + 1);
    }
}

/// The members a well-formed set body starting at `i` denotes: literal
/// characters stand for themselves, `<name>` for a category reference, and
/// `\c` for an escaped literal.
pub open spec fn set_members_ok(s: Seq<char>, i: int, members: Seq<SetMember>) -> bool
    decreases members.len(),
{
    if i >= s.len() {
        false
    } else if s[i] == ']' {
        members.len() == 0
    } else if s[i] == '<' {
        let j = close_idx(s, i + 1);
        &&& j < s.len()
        &&& members.len() > 0
        &&& members[0] matches SetMember::Category(name) && name@ == s.subrange(i + 1, j)
        &&& set_members_ok(s, j + 1, members.drop_first())
    } else if s[i] == '\\' {
        &&& i + 1 < s.len()
        &&& set_escapable(s[i + 1])
        &&& members.len() > 0
        &&& members[0] == SetMember::Character(s[i + 1])
        &&& set_members_ok(s, i + 2, members.drop_first())
    } else {
        &&& members.len() > 0
        &&& members[0] == SetMember::Character(s[i])
        &&& set_members_ok(s, i + 1, members.drop_first())
    }
}

/// The end of the maximal literal run of a category body starting at `i`:
/// category bodies stop only before `<` and `\`.
pub open spec fn cat_run_end(s: Seq<char>, i: int) -> int
    decreases s.len() - i when 0 <= i <= s.len()
{
    if i >= s.len() || s[i] == '<' || s[i] == '\\' {
        i
    } else {
        cat_run_end(s, i + 1)
    }
}

/// What the token of one lexing step is, and where the step ends, for a
/// regex starting at `i` with at least one character left.
pub open spec fn regex_token_ok<'a>(
    s: Seq<char>,
    i: int,
    res: Result<RegexTerminal<'a>, LexicalError>,
    e: int,
) -> bool {
    let c = s[i];
    if c == '_' {
        res == Ok::<RegexTerminal<'a>, LexicalError>(RegexTerminal::AnyChar) && e == i + 1
    } else if c == '*' {
        res == Ok::<RegexTerminal<'a>, LexicalError>(
            RegexTerminal::Repetition { min: 0, max: None },
        ) && e == i + 1
    } else if c == '+' {
        res == Ok::<RegexTerminal<'a>, LexicalError>(
            RegexTerminal::Repetition { min: 1, max: None },
        ) && e == i + 1
    } else if c == '?' {
        res == Ok::<RegexTerminal<'a>, LexicalError>(
            RegexTerminal::Repetition { min: 0, max: Some(1) },
        ) && e == i + 1
    } else if c == '(' {
        res == Ok::<RegexTerminal<'a>, LexicalError>(RegexTerminal::LParenthesis) && e == i + 1
    } else if c == ')' {
        res == Ok::<RegexTerminal<'a>, LexicalError>(RegexTerminal::RParenthesis) && e == i + 1
    } else if c == '|' {
        res == Ok::<RegexTerminal<'a>, LexicalError>(RegexTerminal::Alternation) && e == i + 1
    } else if c == '{' {
        let (rr, end) = spec_repetition(s, i + 1, pos_after(s, i));
        e == end && (match rr {
            Ok((mn, mx)) => res == Ok::<RegexTerminal<'a>, LexicalError>(
                RegexTerminal::Repetition { min: mn, max: mx },
            ),
            Err(er) => res == Err::<RegexTerminal<'a>, LexicalError>(er),
        })
    } else if c == '[' {
        let negated = i + 1 < s.len() && s[i + 1] == '!';
        let b = if negated {
            i + 2
        } else {
            i + 1
        };
        &&& e == set_end(s, b)
        &&& (match set_err(s, b, pos_after(s, i)) {
            Some(er) => res == Err::<RegexTerminal<'a>, LexicalError>(er),
            None => {
                if negated {
                    res matches Ok(RegexTerminal::NegatedSet(ms)) && set_members_ok(s, b, ms@)
                } else {
                    res matches Ok(RegexTerminal::CharSet(ms)) && set_members_ok(s, b, ms@)
                }
            },
        })
    } else if c == '<' {
        let j = close_idx(s, i + 1);
        if j < s.len() {
            (res matches Ok(RegexTerminal::Subexpression(name)) && name@ == s.subrange(i + 1, j))
                && e == j + 1
        } else {
            res == Err::<RegexTerminal<'a>, LexicalError>(
                LexicalError::UnclosedSubexpression { position: pos_after(s, i) },
            ) && e == s.len()
        }
    } else if c == '\\' {
        if i + 1 >= s.len() {
            res == Err::<RegexTerminal<'a>, LexicalError>(
                LexicalError::InvalidEscape { position: pos_after(s, i + 1), character: None },
            ) && e == i + 1
        } else if is_escapable(s[i + 1]) {
            (res matches Ok(RegexTerminal::Sequence(sl)) && sl@ == s.subrange(i + 1, i + 2)) && e
                == i + 2
        } else {
            res == Err::<RegexTerminal<'a>, LexicalError>(
                LexicalError::InvalidEscape {
                    position: pos_after(s, i + 2),
                    character: Some(s[i + 1]),
                },
            ) && e == i + 2
        }
    } else {
        (res matches Ok(RegexTerminal::Sequence(sl)) && sl@ == s.subrange(i, run_end(s, i))) && e
            == run_end(s, i)
    }
}

/// What the token of one lexing step is for a category body starting at
/// `i` with at least one character left.
pub open spec fn category_token_ok<'a>(
    s: Seq<char>,
    i: int,
    res: Result<CategoryNonterminal<'a>, LexicalError>,
    e: int,
) -> bool {
    let c = s[i];
    if c == '\\' {
        if i + 1 >= s.len() {
            res == Err::<CategoryNonterminal<'a>, LexicalError>(
                LexicalError::InvalidEscape { position: pos_after(s, i + 1), character: None },
            ) && e == i + 1
        } else if s[i + 1] == '<' {
            (res matches Ok(CategoryNonterminal::Sequence(sl)) && sl@ == s.subrange(i + 1, i + 2))
                && e == i + 2
        } else {
            res == Err::<CategoryNonterminal<'a>, LexicalError>(
                LexicalError::InvalidEscape {
                    position: pos_after(s, i + 2),
                    character: Some(s[i + 1]),
                },
            ) && e == i + 2
        }
    } else if c == '<' {
        let j = close_idx(s, i + 1);
        if j < s.len() {
            (res matches Ok(CategoryNonterminal::Category(name)) && name@ == s.subrange(i + 1, j))
                && e == j + 1
        } else {
            res == Err::<CategoryNonterminal<'a>, LexicalError>(
                LexicalError::UnclosedSubexpression { position: pos_after(s, i) },
            ) && e == s.len()
        }
    } else {
        (res matches Ok(CategoryNonterminal::Sequence(sl)) && sl@ == s.subrange(
            i,
            cat_run_end(s, i),
        )) && e == cat_run_end(s, i)
    }
}


/// The lexer round-trip law for literal runs: when the character at `i` is
/// outside the reserved set, the token lexed there is a `Sequence` whose
/// slice is exactly the maximal literal run, and lexing consumes exactly
/// that run.
pub proof fn lemma_literal_round_trip<'a>(
    s: Seq<char>,
    i: int,
    res: Result<RegexTerminal<'a>, LexicalError>,
    e: int,
)
    requires
        0 <= i < s.len(),
        !is_special(s[i]),
        regex_token_ok(s, i, res, e),
    ensures
        res matches Ok(RegexTerminal::Sequence(sl)) && sl@ == s.subrange(i, run_end(s, i)),
        e == run_end(s, i),
{
}

/// Scan up to a closing `>` and hand back the name between.
fn scan_to_close<'a>(input: &mut TextReader<'a>, position: Position) -> (r: Result<
    &'a str,
    LexicalError,
>)
    requires
        old(input).wf(),
    ensures
        final(input).wf(),
        final(input).text() == old(input).text(),
        final(input).read() >= old(input).read(),
        ({
            let s = old(input).text();
            let i = old(input).read();
            let j = close_idx(s, i);
            if j < s.len() {
                (r matches Ok(name) && name@ == s.subrange(i, j)) && final(input).read() == j + 1
            } else {
                r == Err::<&'a str, LexicalError>(
                    LexicalError::UnclosedSubexpression { position },
                ) && final(input).read() == s.len()
            }
        }),
{
    let ghost s = input.text();
    let ghost i = input.read();
    proof {
        input.lemma_bounds();
        input.lemma_prefix(i);
        lemma_close_idx(s, i);
    }
    let start = input.current_position();
    loop
        invariant
            input.wf(),
            input.text() == s,
            s == old(input).text(),
            i == old(input).read(),
            0 <= i <= input.read() <= s.len(),
            close_idx(s, i) == close_idx(s, input.read()),
            start == pos_after(s, i),
            forall|k: int| i <= k < input.read() ==> s[k] != '>',
        decreases s.len() - input.read(),
    {
        let ghost r0 = input.read();
        let end = input.current_position();
        match input.next() {
            Some(c) => {
                if c == '>' {
                    proof {
                        assert(close_idx(s, r0) == r0);
                        input.lemma_prefix(i);
                        input.lemma_prefix(r0);
                    }
                    let name = input.input_slice(Span { start, end });
                    return Ok(name);
                }
                proof {
                    assert(close_idx(s, r0) == close_idx(s, r0 + 1));
                }
            },
            None => {
                proof {
                    assert(close_idx(s, r0) == s.len());
                }
                return Err(LexicalError::UnclosedSubexpression { position });
            },
        }
    }
}


/// Consuming one plain character extends the accumulated member list.
proof fn lemma_member_step_char(
    s: Seq<char>,
    b: int,
    r0: int,
    c: char,
    ms0: Seq<SetMember>,
    ms1: Seq<SetMember>,
)
    requires
        0 <= r0 < s.len(),
        s[r0] == c,
        c != ']' && c != '<' && c != '\\',
        ms1 == ms0.push(SetMember::Character(c)),
        forall|rest: Seq<SetMember>|
            #[trigger] set_members_ok(s, r0, rest) ==> set_members_ok(s, b, ms0 + rest),
    ensures
        forall|rest: Seq<SetMember>|
            #[trigger] set_members_ok(s, r0 + 1, rest) ==> set_members_ok(s, b, ms1 + rest),
{
    assert forall|rest: Seq<SetMember>| #[trigger]
        set_members_ok(s, r0 + 1, rest) implies set_members_ok(s, b, ms1 + rest) by {
        let m1 = Seq::<SetMember>::empty().push(SetMember::Character(c)) + rest;
        assert(m1.len() == 1 + rest.len());
        assert(m1[0] == SetMember::Character(c));
        assert(m1.drop_first() =~= rest);
        assert(set_members_ok(s, r0, m1));
        assert(set_members_ok(s, b, ms0 + m1));
        assert(ms0 + m1 =~= ms1 + rest);
    }
}

/// Consuming an escaped character extends the accumulated member list.
proof fn lemma_member_step_escape(
    s: Seq<char>,
    b: int,
    r0: int,
    c: char,
    ms0: Seq<SetMember>,
    ms1: Seq<SetMember>,
)
    requires
        0 <= r0 < s.len(),
        s[r0] == '\\',
        r0 + 1 < s.len(),
        s[r0 + 1] == c,
        set_escapable(c),
        ms1 == ms0.push(SetMember::Character(c)),
        forall|rest: Seq<SetMember>|
            #[trigger] set_members_ok(s, r0, rest) ==> set_members_ok(s, b, ms0 + rest),
    ensures
        forall|rest: Seq<SetMember>|
            #[trigger] set_members_ok(s, r0 + 2, rest) ==> set_members_ok(s, b, ms1 + rest),
{
    assert forall|rest: Seq<SetMember>| #[trigger]
        set_members_ok(s, r0 + 2, rest) implies set_members_ok(s, b, ms1 + rest) by {
        let m1 = Seq::<SetMember>::empty().push(SetMember::Character(c)) + rest;
        assert(m1.len() == 1 + rest.len());
        assert(m1[0] == SetMember::Character(c));
        assert(m1.drop_first() =~= rest);
        assert(set_members_ok(s, r0, m1));
        assert(set_members_ok(s, b, ms0 + m1));
        assert(ms0 + m1 =~= ms1 + rest);
    }
}

/// Consuming a category reference extends the accumulated member list.
proof fn lemma_member_step_category<'a>(
    s: Seq<char>,
    b: int,
    r0: int,
    name: &'a str,
    ms0: Seq<SetMember<'a>>,
    ms1: Seq<SetMember<'a>>,
)
    requires
        0 <= r0 < s.len(),
        s[r0] == '<',
        close_idx(s, r0 + 1) < s.len(),
        name@ == s.subrange(r0 + 1, close_idx(s, r0 + 1)),
        ms1 == ms0.push(SetMember::Category(name)),
        forall|rest: Seq<SetMember<'a>>|
            #[trigger] set_members_ok(s, r0, rest) ==> set_members_ok(s, b, ms0 + rest),
    ensures
        forall|rest: Seq<SetMember<'a>>|
            #[trigger] set_members_ok(s, close_idx(s, r0 + 1) + 1, rest) ==> set_members_ok(
                s,
                b,
                ms1 + rest,
            ),
{
    let j = close_idx(s, r0 + 1);
    assert forall|rest: Seq<SetMember<'a>>| #[trigger]
        set_members_ok(s, j + 1, rest) implies set_members_ok(s, b, ms1 + rest) by {
        let m1 = Seq::<SetMember<'a>>::empty().push(SetMember::Category(name)) + rest;
        assert(m1.len() == 1 + rest.len());
        assert(m1[0] == SetMember::Category(name));
        assert(m1.drop_first() =~= rest);
        assert(set_members_ok(s, r0, m1));
        assert(set_members_ok(s, b, ms0 + m1));
        assert(ms0 + m1 =~= ms1 + rest);
    }
}

/// The members a well-formed set body starting at `i` denotes, as shapes.
pub open spec fn set_members_views(s: Seq<char>, i: int) -> Seq<crate::parser::MemberView>
    decreases s.len() - i when 0 <= i <= s.len() via set_members_views_decreases
{
    if i >= s.len() {
        Seq::empty()
    } else if s[i] == ']' {
        Seq::empty()
    } else if s[i] == '<' {
        let j = close_idx(s, i + 1);
        if j < s.len() {
            Seq::<crate::parser::MemberView>::empty().push(
                crate::parser::MemberView::Category(s.subrange(i + 1, j)),
            ) + set_members_views(s, j + 1)
        } else {
            Seq::empty()
        }
    } else if s[i] == '\\' {
        if i + 1 < s.len() && set_escapable(s[i + 1]) {
            Seq::<crate::parser::MemberView>::empty().push(
                crate::parser::MemberView::Character(s[i + 1]),
            ) + set_members_views(s, i + 2)
        } else {
            Seq::empty()
        }
    } else {
        Seq::<crate::parser::MemberView>::empty().push(
            crate::parser::MemberView::Character(s[i]),
        ) + set_members_views(s, i + 1)
    }
}

#[via_fn]
proof fn set_members_views_decreases(s: Seq<char>, i: int) {
    if 0 <= i < s.len() && s[i] == '<' {
        lemma_close_idx(s, i + 1);
    }
}


/// A nonempty member list's shapes are its head's shape before the rest.
proof fn lemma_cons_view(
    ms: Seq<SetMember>,
    head_view: crate::parser::MemberView,
    tail: Seq<crate::parser::MemberView>,
)
    requires
        ms.len() > 0,
        ms[0]@ == head_view,
        crate::parser::members_view(ms.drop_first()) == tail,
    ensures
        crate::parser::members_view(ms) == Seq::<crate::parser::MemberView>::empty().push(
            head_view,
        ) + tail,
{
    crate::parser::lemma_members_view(ms);
    crate::parser::lemma_members_view(ms.drop_first());
    let rhs = Seq::<crate::parser::MemberView>::empty().push(head_view) + tail;
    assert forall|k: int|
        0 <= k < crate::parser::members_view(ms).len() implies crate::parser::members_view(ms)[k]
        == rhs[k] by {
        if k == 0 {
            assert(crate::parser::members_view(ms)[0] == ms[0]@);
        } else {
            assert(crate::parser::members_view(ms)[k] == ms[k]@);
            assert(ms.drop_first()[k - 1] == ms[k]);
            assert(tail[k - 1] == ms.drop_first()[k - 1]@);
        }
    }
    assert(crate::parser::members_view(ms) =~= rhs);
}

/// A well-formed member list is exactly the one the set body denotes.
pub proof fn lemma_set_members_views(s: Seq<char>, i: int, ms: Seq<SetMember>)
    requires
        0 <= i <= s.len(),
        set_members_ok(s, i, ms),
    ensures
        crate::parser::members_view(ms) == set_members_views(s, i),
    decreases ms.len(),
{
    crate::parser::lemma_members_view(ms);
    if i < s.len() && s[i] != ']' {
        if s[i] == '<' {
            let j = close_idx(s, i + 1);
            lemma_close_idx(s, i + 1);
            lemma_set_members_views(s, j + 1, ms.drop_first());
            lemma_cons_view(
                ms,
                crate::parser::MemberView::Category(s.subrange(i + 1, j)),
                set_members_views(s, j + 1),
            );
        } else if s[i] == '\\' {
            lemma_set_members_views(s, i + 2, ms.drop_first());
            lemma_cons_view(
                ms,
                crate::parser::MemberView::Character(s[i + 1]),
                set_members_views(s, i + 2),
            );
        } else {
            lemma_set_members_views(s, i + 1, ms.drop_first());
            lemma_cons_view(
                ms,
                crate::parser::MemberView::Character(s[i]),
                set_members_views(s, i + 1),
            );
        }
    } else {
        assert(ms.len() == 0);
        assert(crate::parser::members_view(ms) =~= Seq::<crate::parser::MemberView>::empty());
    }
}

/// The shape of the token lexed at `i`, with at least one character left.
pub open spec fn token_view_at(s: Seq<char>, i: int) -> Result<
    crate::parser::TermView,
    LexicalError,
> {
    let c = s[i];
    if c == '_' {
        Ok(crate::parser::TermView::AnyChar)
    } else if c == '*' {
        Ok(crate::parser::TermView::Repetition { min: 0, max: None })
    } else if c == '+' {
        Ok(crate::parser::TermView::Repetition { min: 1, max: None })
    } else if c == '?' {
        Ok(crate::parser::TermView::Repetition { min: 0, max: Some(1) })
    } else if c == '(' {
        Ok(crate::parser::TermView::LParenthesis)
    } else if c == ')' {
        Ok(crate::parser::TermView::RParenthesis)
    } else if c == '|' {
        Ok(crate::parser::TermView::Alternation)
    } else if c == '{' {
        match spec_repetition(s, i + 1, pos_after(s, i)).0 {
            Ok((mn, mx)) => Ok(crate::parser::TermView::Repetition { min: mn, max: mx }),
            Err(e) => Err(e),
        }
    } else if c == '[' {
        let negated = i + 1 < s.len() && s[i + 1] == '!';
        let b = if negated {
            i + 2
        } else {
            i + 1
        };
        match set_err(s, b, pos_after(s, i)) {
            Some(e) => Err(e),
            None => {
                if negated {
                    Ok(crate::parser::TermView::NegatedSet(set_members_views(s, b)))
                } else {
                    Ok(crate::parser::TermView::CharSet(set_members_views(s, b)))
                }
            },
        }
    } else if c == '<' {
        let j = close_idx(s, i + 1);
        if j < s.len() {
            Ok(crate::parser::TermView::Subexpression(s.subrange(i + 1, j)))
        } else {
            Err(LexicalError::UnclosedSubexpression { position: pos_after(s, i) })
        }
    } else if c == '\\' {
        if i + 1 >= s.len() {
            Err(LexicalError::InvalidEscape { position: pos_after(s, i + 1), character: None })
        } else if is_escapable(s[i + 1]) {
            Ok(crate::parser::TermView::Sequence(s.subrange(i + 1, i + 2)))
        } else {
            Err(
                LexicalError::InvalidEscape {
                    position: pos_after(s, i + 2),
                    character: Some(s[i + 1]),
                },
            )
        }
    } else {
        Ok(crate::parser::TermView::Sequence(s.subrange(i, run_end(s, i))))
    }
}

/// Where the token lexed at `i` ends.
pub open spec fn token_end_at(s: Seq<char>, i: int) -> int {
    let c = s[i];
    if c == '_' || c == '*' || c == '+' || c == '?' || c == '(' || c == ')' || c == '|' {
        i + 1
    } else if c == '{' {
        spec_repetition(s, i + 1, pos_after(s, i)).1
    } else if c == '[' {
        let negated = i + 1 < s.len() && s[i + 1] == '!';
        let b = if negated {
            i + 2
        } else {
            i + 1
        };
        set_end(s, b)
    } else if c == '<' {
        let j = close_idx(s, i + 1);
        if j < s.len() {
            j + 1
        } else {
            s.len() as int
        }
    } else if c == '\\' {
        if i + 1 >= s.len() {
            i + 1
        } else {
            i + 2
        }
    } else {
        run_end(s, i)
    }
}

/// A lexed token is the one the shape functions give, ending where they
/// say.
pub proof fn lemma_token_view<'a>(
    s: Seq<char>,
    i: int,
    res: Result<RegexTerminal<'a>, LexicalError>,
    e: int,
)
    requires
        0 <= i < s.len(),
        regex_token_ok(s, i, res, e),
    ensures
        (match res {
            Ok(t) => Ok::<crate::parser::TermView, LexicalError>(t@),
            Err(er) => Err::<crate::parser::TermView, LexicalError>(er),
        }) == token_view_at(s, i),
        e == token_end_at(s, i),
{
    let c = s[i];
    if c == '[' {
        let negated = i + 1 < s.len() && s[i + 1] == '!';
        let b = if negated {
            i + 2
        } else {
            i + 1
        };
        match set_err(s, b, pos_after(s, i)) {
            Some(_) => {},
            None => {
                match res {
                    Ok(t) => {
                        match t {
                            RegexTerminal::CharSet(ms) => {
                                lemma_set_members_views(s, b, ms@);
                            },
                            RegexTerminal::NegatedSet(ms) => {
                                lemma_set_members_views(s, b, ms@);
                            },
                            _ => {},
                        }
                    },
                    Err(_) => {},
                }
            },
        }
    }
}

/// The whole token stream of an input, as shapes: one token after another
/// until the characters run out.
pub open spec fn lex_all(s: Seq<char>, i: int) -> Seq<Result<crate::parser::TermView, LexicalError>>
    decreases s.len() - i when 0 <= i <= s.len()
{
    if i >= s.len() {
        Seq::empty()
    } else {
        let e0 = token_end_at(s, i);
        let e = if e0 <= i {
            i + 1
        } else if e0 > s.len() {
            s.len() as int
        } else {
            e0
        };
        Seq::<Result<crate::parser::TermView, LexicalError>>::empty().push(token_view_at(s, i))
            + lex_all(s, e)
    }
}

/// The lexer for the regex mini-language.
#[derive(Debug)]
pub struct Lexer<'a> {
    input: TextReader<'a>,
}

impl<'a> Lexer<'a> {
    /// The characters of the input being lexed.
    pub closed spec fn text(&self) -> Seq<char> {
        self.input.text()
    }

    /// How many characters have been consumed so far.
    pub closed spec fn read(&self) -> int {
        self.input.read()
    }

    /// The lexer's reader is consistent.
    pub closed spec fn wf(&self) -> bool {
        self.input.wf()
    }

    /// Create a lexer over an input slice.
    pub fn new(input: &'a str) -> (r: Lexer<'a>)
        ensures
            r.wf(),
            r.text() == input@,
            r.read() == 0,
    {
        Lexer { input: TextReader::new(input) }
    }

    /// A well-formed lexer has consumed at most its whole input.
    pub proof fn lemma_bounds(&self)
        requires
            self.wf(),
        ensures
            0 <= self.read() <= self.text().len(),
    {
        self.input.lemma_bounds();
    }

    /// Wrap a lexing outcome in a token spanning from `begin` to the
    /// current position.
    pub fn token(&self, begin: Position, token: RegexResult<'a>) -> (r: RegexToken<'a>)
        requires
            self.wf(),
            is_boundary(self.text(), begin.index as int),
            begin.index <= prefix_bytes(self.text(), self.read()),
        ensures
            r.token == token,
            r.position == (Span { start: begin, end: pos_after(self.text(), self.read()) }),
            r.slice@ == self.text().subrange(
                char_index_of(self.text(), begin.index as int),
                self.read(),
            ),
    {
        token::Token::from_reader(token, begin, &self.input)
    }

    /// Lex one terminal of the regex mini-language, or yield `None` at the
    /// end of the input.
    pub fn next_token(&mut self) -> (r: Option<RegexToken<'a>>)
        requires
            old(self).wf(),
        ensures
            final(self).wf(),
            final(self).text() == old(self).text(),
            old(self).read() >= old(self).text().len() ==> r is None && final(self).read() == old(
                self,
            ).read(),
            old(self).read() < old(self).text().len() ==> (r matches Some(t) && {
                let s = old(self).text();
                let i = old(self).read();
                let e = final(self).read();
                &&& regex_token_ok(s, i, t.token, e)
                &&& t.position == (Span { start: pos_after(s, i), end: pos_after(s, e) })
                &&& t.slice@ == s.subrange(i, e)
                &&& i < e <= s.len()
            }),
    {
        let ghost s = self.text();
        let ghost i0 = self.read();
        proof {
            self.input.lemma_bounds();
            self.input.lemma_prefix(i0);
        }
        let position = self.input.current_position();
        let c = match self.input.next() {
            Some(c) => c,
            None => {
                return None;
            },
        };
        let tok: RegexResult<'a> = if c == '_' {
            Ok(RegexTerminal::AnyChar)
        } else if c == '*' {
            Ok(RegexTerminal::Repetition { min: 0, max: None })
        } else if c == '+' {
            Ok(RegexTerminal::Repetition { min: 1, max: None })
        } else if c == '?' {
            Ok(RegexTerminal::Repetition { min: 0, max: Some(1) })
        } else if c == '(' {
            Ok(RegexTerminal::LParenthesis)
        } else if c == ')' {
            Ok(RegexTerminal::RParenthesis)
        } else if c == '|' {
            Ok(RegexTerminal::Alternation)
        } else if c == '{' {
            self.repetition(position)
        } else if c == '[' {
            self.set(position)
        } else if c == '<' {
            self.subexpression(position)
        } else if c == '\\' {
            self.escaped()
        } else {
            proof {
                assert(run_end(s, i0) == run_end(s, i0 + 1));
            }
            self.sequence(position, Ghost(i0))
        };
        proof {
            self.input.lemma_bounds();
            self.input.lemma_prefix(self.read());
            self.input.lemma_prefix(i0);
            if i0 < self.read() {
                crate::text_reader::lemma_prefix_bytes_mono(s, i0, self.read());
            }
        }
        let t = self.token(position, tok);
        proof {
            assert(regex_token_ok(s, i0, t.token, self.read()));
        }
        Some(t)
    }

    /// Lex a `{...}` repetition block; `position` is where the `{` stood.
    fn repetition(&mut self, position: Position) -> (r: RegexResult<'a>)
        requires
            old(self).wf(),
        ensures
            final(self).wf(),
            final(self).text() == old(self).text(),
            final(self).read() >= old(self).read(),
            ({
                let s = old(self).text();
                let i = old(self).read();
                let (res, end) = spec_repetition(s, i, position);
                &&& final(self).read() == end
                &&& (match res {
                    Ok((mn, mx)) => r == Ok::<RegexTerminal<'a>, LexicalError>(
                        RegexTerminal::Repetition { min: mn, max: mx },
                    ),
                    Err(e) => r == Err::<RegexTerminal<'a>, LexicalError>(e),
                })
            }),
    {
        let min = match self.integer(position) {
            Ok(m) => m,
            Err(e) => {
                return Err(e);
            },
        };
        proof {
            self.input.lemma_bounds();
        }
        let first_position = self.input.current_position();
        match self.input.next() {
            Some(c) => {
                if c == '-' {
                    let max_position = self.input.current_position();
                    let max = match self.integer(max_position) {
                        Ok(m) => m,
                        Err(e) => {
                            return Err(e);
                        },
                    };
                    let char_position = self.input.current_position();
                    match self.input.next() {
                        Some(c2) => {
                            if c2 == '}' {
                                let min = match min {
                                    Some(m) => m,
                                    None => 0,
                                };
                                if let Some(mx) = max {
                                    if min > mx {
                                        return Err(
                                            LexicalError::InvalidRepetitionRange { min, max: mx },
                                        );
                                    }
                                }
                                Ok(RegexTerminal::Repetition { min, max })
                            } else {
                                Err(
                                    LexicalError::InvalidRepetitionCharacter {
                                        position: char_position,
                                        character: c2,
                                    },
                                )
                            }
                        },
                        None => Err(LexicalError::UnclosedRepetition { position }),
                    }
                } else if c == '}' {
                    let min = match min {
                        Some(m) => m,
                        None => 0,
                    };
                    Ok(RegexTerminal::Repetition { min, max: Some(min) })
                } else {
                    Err(
                        LexicalError::InvalidRepetitionCharacter {
                            position: first_position,
                            character: c,
                        },
                    )
                }
            },
            None => Err(LexicalError::UnclosedRepetition { position }),
        }
    }

    /// Lex an optional unsigned decimal number; `position` anchors an
    /// overflow error.
    fn integer(&mut self, position: Position) -> (r: Result<Option<u16>, LexicalError>)
        requires
            old(self).wf(),
        ensures
            final(self).wf(),
            final(self).text() == old(self).text(),
            final(self).read() >= old(self).read(),
            r == spec_integer(old(self).text(), old(self).read(), position).0,
            final(self).read() == spec_integer(old(self).text(), old(self).read(), position).1,
    {
        let ghost s = self.text();
        let ghost i = self.read();
        proof {
            self.input.lemma_bounds();
        }
        let first = match self.input.peek() {
            Some(c) => {
                if '0' <= c && c <= '9' {
                    c
                } else {
                    return Ok(None);
                }
            },
            None => {
                return Ok(None);
            },
        };
        self.input.next();
        let mut number: u16 = (first as u32 - 48) as u16;
        let ghost a0 = digit_val(s[i]);
        loop
            invariant
                self.wf(),
                self.text() == s,
                s == old(self).text(),
                i == old(self).read(),
                position == position,
                0 <= i < s.len(),
                ascii_digit(s[i]),
                a0 == digit_val(s[i]),
                i + 1 <= self.read() <= s.len(),
                0 <= number <= 65535,
                int_end(s, i + 1, a0) == int_end(s, self.read(), number as int),
                int_ovf(s, i + 1, a0) == int_ovf(s, self.read(), number as int),
                int_val(s, i + 1, a0) == int_val(s, self.read(), number as int),
            decreases s.len() - self.read(),
        {
            let ghost r0 = self.read();
            match self.input.peek() {
                Some(c) => {
                    if '0' <= c && c <= '9' {
                        let acc32: u32 = number as u32 * 10 + (c as u32 - 48);
                        if acc32 > 65535 {
                            return Err(LexicalError::RangeIntegerOverflow { position });
                        }
                        number = acc32 as u16;
                        self.input.next();
                    } else {
                        return Ok(Some(number));
                    }
                },
                None => {
                    return Ok(Some(number));
                },
            }
        }
    }

    /// Lex a `[...]` set or `[!...]` negated set; `position` is where the
    /// `[` stood.
    #[verifier::rlimit(100)]
    #[verifier::spinoff_prover]
    fn set(&mut self, position: Position) -> (r: RegexResult<'a>)
        requires
            old(self).wf(),
        ensures
            final(self).wf(),
            final(self).text() == old(self).text(),
            final(self).read() >= old(self).read(),
            ({
                let s = old(self).text();
                let i = old(self).read();
                let negated = i < s.len() && s[i] == '!';
                let b = if negated {
                    i + 1
                } else {
                    i
                };
                &&& final(self).read() == set_end(s, b)
                &&& (match set_err(s, b, position) {
                    Some(e) => r == Err::<RegexTerminal<'a>, LexicalError>(e),
                    None => {
                        if negated {
                            r matches Ok(RegexTerminal::NegatedSet(ms)) && set_members_ok(
                                s,
                                b,
                                ms@,
                            )
                        } else {
                            r matches Ok(RegexTerminal::CharSet(ms)) && set_members_ok(s, b, ms@)
                        }
                    },
                })
            }),
    {
        let ghost s = self.text();
        proof {
            self.input.lemma_bounds();
        }
        let mut members: Vec<SetMember<'a>> = Vec::new();
        // check if first character is '!'
        let negated = match self.input.peek() {
            Some(c) => {
                if c == '!' {
                    self.input.next();
                    true
                } else {
                    false
                }
            },
            None => false,
        };
        let ghost b = self.read();
        // read set characters or categories until ']'
        loop
            invariant
                self.wf(),
                self.text() == s,
                s == old(self).text(),
                negated == (old(self).read() < s.len() && s[old(self).read()] == '!'),
                b == (if negated {
                    old(self).read() + 1
                } else {
                    old(self).read()
                }),
                0 <= b <= self.read() <= s.len(),
                set_err(s, b, position) == set_err(s, self.read(), position),
                set_end(s, b) == set_end(s, self.read()),
                forall|rest: Seq<SetMember>|
                    #[trigger] set_members_ok(s, self.read(), rest) ==> set_members_ok(
                        s,
                        b,
                        members@ + rest,
                    ),
            decreases s.len() - self.read(),
        {
            let ghost r0 = self.read();
            let ghost ms0 = members@;
            match self.input.peek() {
                // end set
                Some(c) => {
                    if c == ']' {
                        self.input.next();
                        proof {
                            assert(set_members_ok(s, r0, Seq::<SetMember>::empty()));
                            assert(set_members_ok(s, b, ms0 + Seq::<SetMember>::empty()));
                            assert(ms0 + Seq::<SetMember>::empty() =~= ms0);
                        }
                        if negated {
                            return Ok(RegexTerminal::NegatedSet(members));
                        } else {
                            return Ok(RegexTerminal::CharSet(members));
                        }
                    } else if c == '<' {
                        // process subexpression (assuming category)
                        let start = self.input.current_position();
                        self.input.next();
                        match scan_to_close(&mut self.input, Position::new()) {
                            Ok(name) => {
                                members.push(SetMember::Category(name));
                                proof {
                                    lemma_close_idx(s, r0 + 1);
                                    lemma_member_step_category(s, b, r0, name, ms0, members@);
                                }
                            },
                            Err(_) => {
                                proof {
                                    lemma_close_idx(s, r0 + 1);
                                }
                                return Err(
                                    LexicalError::UnclosedSubexpression { position: start },
                                );
                            },
                        }
                    } else if c == '\\' {
                        // escaped characters within sets
                        self.input.next();
                        let escaped_position = self.input.current_position();
                        match self.input.next() {
                            Some(c2) => {
                                if c2 == '\\' || c2 == '<' || c2 == ']' {
                                    members.push(SetMember::Character(c2));
                                    proof {
                                        lemma_member_step_escape(s, b, r0, c2, ms0, members@);
                                    }
                                } else {
                                    return Err(
                                        LexicalError::InvalidSetEscape {
                                            position: escaped_position,
                                            character: c2,
                                        },
                                    );
                                }
                            },
                            None => {
                                return Err(LexicalError::UnclosedSet { position });
                            },
                        }
                    } else {
                        self.input.next();
                        members.push(SetMember::Character(c));
                        proof {
                            lemma_member_step_char(s, b, r0, c, ms0, members@);
                        }
                    }
                },
                None => {
                    return Err(LexicalError::UnclosedSet { position });
                },
            }
        }
    }

    /// Lex a `<name>` reference; `position` is where the `<` stood.
    fn subexpression(&mut self, position: Position) -> (r: RegexResult<'a>)
        requires
            old(self).wf(),
        ensures
            final(self).wf(),
            final(self).text() == old(self).text(),
            final(self).read() >= old(self).read(),
            ({
                let s = old(self).text();
                let i = old(self).read();
                let j = close_idx(s, i);
                if j < s.len() {
                    (r matches Ok(RegexTerminal::Subexpression(name)) && name@ == s.subrange(
                        i,
                        j,
                    )) && final(self).read() == j + 1
                } else {
                    r == Err::<RegexTerminal<'a>, LexicalError>(
                        LexicalError::UnclosedSubexpression { position },
                    ) && final(self).read() == s.len()
                }
            }),
    {
        match scan_to_close(&mut self.input, position) {
            Ok(name) => Ok(RegexTerminal::Subexpression(name)),
            Err(e) => Err(e),
        }
    }

    /// Lex a maximal run of literal characters; `position` is where the run
    /// started, whose first character is already consumed.
    fn sequence(&mut self, position: Position, Ghost(k): Ghost<int>) -> (r: RegexResult<'a>)
        requires
            old(self).wf(),
            0 <= k <= old(self).read(),
            position == pos_after(old(self).text(), k),
            run_end(old(self).text(), k) == run_end(old(self).text(), old(self).read()),
        ensures
            final(self).wf(),
            final(self).text() == old(self).text(),
            final(self).read() >= old(self).read(),
            final(self).read() == run_end(old(self).text(), k),
            r matches Ok(RegexTerminal::Sequence(sl)) && sl@ == old(self).text().subrange(
                k,
                run_end(old(self).text(), k),
            ),
    {
        let ghost s = self.text();
        proof {
            self.input.lemma_bounds();
        }
        loop
            invariant
                self.wf(),
                self.text() == s,
                s == old(self).text(),
                old(self).read() <= self.read(),
                0 <= k <= self.read() <= s.len(),
                position == pos_after(s, k),
                run_end(s, k) == run_end(s, self.read()),
            decreases s.len() - self.read(),
        {
            let ghost r0 = self.read();
            match self.input.peek() {
                Some(c) => {
                    if c == '_' || c == '*' || c == '+' || c == '?' || c == '(' || c == ')' || c
                        == '|' || c == '{' || c == '[' || c == '<' || c == '\\' {
                        proof {
                            assert(run_end(s, r0) == r0);
                            self.input.lemma_prefix(k);
                        }
                        return Ok(RegexTerminal::Sequence(self.input.input_slice_from(position)));
                    } else {
                        self.input.next();
                        proof {
                            assert(run_end(s, r0) == run_end(s, r0 + 1));
                        }
                    }
                },
                None => {
                    proof {
                        assert(run_end(s, r0) == r0);
                        self.input.lemma_prefix(k);
                    }
                    return Ok(RegexTerminal::Sequence(self.input.input_slice_from(position)));
                },
            }
        }
    }

    /// Lex an escaped character: the escape names one of the reserved
    /// characters, which becomes a literal sequence of its own.
    fn escaped(&mut self) -> (r: RegexResult<'a>)
        requires
            old(self).wf(),
        ensures
            final(self).wf(),
            final(self).text() == old(self).text(),
            final(self).read() >= old(self).read(),
            ({
                let s = old(self).text();
                let i = old(self).read();
                if i >= s.len() {
                    r == Err::<RegexTerminal<'a>, LexicalError>(
                        LexicalError::InvalidEscape { position: pos_after(s, i), character: None },
                    ) && final(self).read() == i
                } else if is_escapable(s[i]) {
                    (r matches Ok(RegexTerminal::Sequence(sl)) && sl@ == s.subrange(i, i + 1))
                        && final(self).read() == i + 1
                } else {
                    r == Err::<RegexTerminal<'a>, LexicalError>(
                        LexicalError::InvalidEscape {
                            position: pos_after(s, i + 1),
                            character: Some(s[i]),
                        },
                    ) && final(self).read() == i + 1
                }
            }),
    {
        let ghost s = self.text();
        let ghost i = self.read();
        proof {
            self.input.lemma_bounds();
        }
        let start = self.input.current_position();
        match self.input.next() {
            Some(c) => {
                if c == '_' || c == '*' || c == '+' || c == '?' || c == '{' || c == '}' || c
                    == '\\' || c == '[' || c == ']' || c == '|' || c == '(' || c == ')' || c == '<'
                    || c == '>' {
                    proof {
                        self.input.lemma_prefix(i);
                    }
                    Ok(RegexTerminal::Sequence(self.input.input_slice_from(start)))
                } else {
                    Err(
                        LexicalError::InvalidEscape {
                            position: self.input.current_position(),
                            character: Some(c),
                        },
                    )
                }
            },
            None => Err(
                LexicalError::InvalidEscape {
                    position: self.input.current_position(),
                    character: None,
                },
            ),
        }
    }
}


/// The lexer for category-definition bodies: sequences of literal
/// characters and `<name>` category references.
#[derive(Debug)]
pub struct CategoryLexer<'a> {
    input: TextReader<'a>,
}

impl<'a> CategoryLexer<'a> {
    /// The characters of the input being lexed.
    pub closed spec fn text(&self) -> Seq<char> {
        self.input.text()
    }

    /// How many characters have been consumed so far.
    pub closed spec fn read(&self) -> int {
        self.input.read()
    }

    /// The lexer's reader is consistent.
    pub closed spec fn wf(&self) -> bool {
        self.input.wf()
    }

    /// Create a category lexer over an input slice.
    pub fn new(input: &'a str) -> (r: CategoryLexer<'a>)
        ensures
            r.wf(),
            r.text() == input@,
            r.read() == 0,
    {
        CategoryLexer { input: TextReader::new(input) }
    }

    /// Lex one terminal of a category body, or yield `None` at the end of
    /// the input.
    pub fn next_token(&mut self) -> (r: Option<CategoryToken<'a>>)
        requires
            old(self).wf(),
        ensures
            final(self).wf(),
            final(self).text() == old(self).text(),
            old(self).read() >= old(self).text().len() ==> r is None && final(self).read() == old(
                self,
            ).read(),
            old(self).read() < old(self).text().len() ==> (r matches Some(t) && {
                let s = old(self).text();
                let i = old(self).read();
                let e = final(self).read();
                &&& category_token_ok(s, i, t.token, e)
                &&& t.position == (Span { start: pos_after(s, i), end: pos_after(s, e) })
                &&& t.slice@ == s.subrange(i, e)
                &&& i < e <= s.len()
            }),
    {
        let ghost s = self.text();
        let ghost i0 = self.read();
        proof {
            self.input.lemma_bounds();
            self.input.lemma_prefix(i0);
        }
        let position = self.input.current_position();
        let c = match self.input.next() {
            Some(c) => c,
            None => {
                return None;
            },
        };
        let tok: CategoryResult<'a> = if c == '\\' {
            self.escaped(position)
        } else if c == '<' {
            self.subexpression(position)
        } else {
            proof {
                assert(cat_run_end(s, i0) == cat_run_end(s, i0 + 1));
            }
            self.sequence(position, Ghost(i0))
        };
        proof {
            self.input.lemma_bounds();
            self.input.lemma_prefix(self.read());
            self.input.lemma_prefix(i0);
            if i0 < self.read() {
                crate::text_reader::lemma_prefix_bytes_mono(s, i0, self.read());
            }
        }
        let t = token::Token::from_reader(tok, position, &self.input);
        proof {
            assert(category_token_ok(s, i0, t.token, self.read()));
        }
        Some(t)
    }

    /// Lex an escaped character: only `\<` stands for a literal `<` inside
    /// a category body.
    fn escaped(&mut self, position: Position) -> (r: CategoryResult<'a>)
        requires
            old(self).wf(),
        ensures
            final(self).wf(),
            final(self).text() == old(self).text(),
            final(self).read() >= old(self).read(),
            ({
                let s = old(self).text();
                let i = old(self).read();
                if i >= s.len() {
                    r == Err::<CategoryNonterminal<'a>, LexicalError>(
                        LexicalError::InvalidEscape { position: pos_after(s, i), character: None },
                    ) && final(self).read() == i
                } else if s[i] == '<' {
                    (r matches Ok(CategoryNonterminal::Sequence(sl)) && sl@ == s.subrange(
                        i,
                        i + 1,
                    )) && final(self).read() == i + 1
                } else {
                    r == Err::<CategoryNonterminal<'a>, LexicalError>(
                        LexicalError::InvalidEscape {
                            position: pos_after(s, i + 1),
                            character: Some(s[i]),
                        },
                    ) && final(self).read() == i + 1
                }
            }),
    {
        let ghost i = self.read();
        proof {
            self.input.lemma_bounds();
        }
        let start = self.input.current_position();
        match self.input.next() {
            Some(c) => {
                if c == '<' {
                    proof {
                        self.input.lemma_prefix(i);
                    }
                    Ok(CategoryNonterminal::Sequence(self.input.input_slice_from(start)))
                } else {
                    Err(
                        LexicalError::InvalidEscape {
                            position: self.input.current_position(),
                            character: Some(c),
                        },
                    )
                }
            },
            None => Err(
                LexicalError::InvalidEscape {
                    position: self.input.current_position(),
                    character: None,
                },
            ),
        }
    }

    /// Lex a `<name>` category reference; `position` is where the `<` stood.
    fn subexpression(&mut self, position: Position) -> (r: CategoryResult<'a>)
        requires
            old(self).wf(),
        ensures
            final(self).wf(),
            final(self).text() == old(self).text(),
            final(self).read() >= old(self).read(),
            ({
                let s = old(self).text();
                let i = old(self).read();
                let j = close_idx(s, i);
                if j < s.len() {
                    (r matches Ok(CategoryNonterminal::Category(name)) && name@ == s.subrange(
                        i,
                        j,
                    )) && final(self).read() == j + 1
                } else {
                    r == Err::<CategoryNonterminal<'a>, LexicalError>(
                        LexicalError::UnclosedSubexpression { position },
                    ) && final(self).read() == s.len()
                }
            }),
    {
        match scan_to_close(&mut self.input, position) {
            Ok(name) => Ok(CategoryNonterminal::Category(name)),
            Err(e) => Err(e),
        }
    }

    /// Lex a maximal run of literal characters; `position` is where the run
    /// started, whose first character is already consumed.
    fn sequence(&mut self, position: Position, Ghost(k): Ghost<int>) -> (r: CategoryResult<'a>)
        requires
            old(self).wf(),
            0 <= k <= old(self).read(),
            position == pos_after(old(self).text(), k),
            cat_run_end(old(self).text(), k) == cat_run_end(old(self).text(), old(self).read()),
        ensures
            final(self).wf(),
            final(self).text() == old(self).text(),
            final(self).read() >= old(self).read(),
            final(self).read() == cat_run_end(old(self).text(), k),
            r matches Ok(CategoryNonterminal::Sequence(sl)) && sl@ == old(self).text().subrange(
                k,
                cat_run_end(old(self).text(), k),
            ),
    {
        let ghost s = self.text();
        proof {
            self.input.lemma_bounds();
        }
        loop
            invariant
                self.wf(),
                self.text() == s,
                s == old(self).text(),
                old(self).read() <= self.read(),
                0 <= k <= self.read() <= s.len(),
                position == pos_after(s, k),
                cat_run_end(s, k) == cat_run_end(s, self.read()),
            decreases s.len() - self.read(),
        {
            let ghost r0 = self.read();
            match self.input.peek() {
                Some(c) => {
                    if c == '<' || c == '\\' {
                        proof {
                            assert(cat_run_end(s, r0) == r0);
                            self.input.lemma_prefix(k);
                        }
                        return Ok(
                            CategoryNonterminal::Sequence(self.input.input_slice_from(position)),
                        );
                    } else {
                        self.input.next();
                        proof {
                            assert(cat_run_end(s, r0) == cat_run_end(s, r0 + 1));
                        }
                    }
                },
                None => {
                    proof {
                        assert(cat_run_end(s, r0) == r0);
                        self.input.lemma_prefix(k);
                    }
                    return Ok(
                        CategoryNonterminal::Sequence(self.input.input_slice_from(position)),
                    );
                },
            }
        }
    }
}

} // verus!
