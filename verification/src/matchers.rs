//! Character matchers: literal characters, built-in character categories,
//! and negated sets of either.

use vstd::prelude::*;

verus! {

/// The characters outside ASCII `a`-`z` that have the Unicode `Lowercase` property.
pub uninterp spec fn extra_lowercase(c: char) -> bool;

/// The characters outside ASCII `A`-`Z` that have the Unicode `Uppercase` property.
pub uninterp spec fn extra_uppercase(c: char) -> bool;

/// The Unicode alphabetic characters not covered by the ASCII letters and
/// the Unicode lowercase and uppercase characters.
pub uninterp spec fn extra_alphabetic(c: char) -> bool;

/// The Unicode numeric characters outside ASCII `0`-`9`.
pub uninterp spec fn extra_numeric(c: char) -> bool;

/// The Unicode whitespace characters outside the ASCII whitespace set.
pub uninterp spec fn extra_whitespace(c: char) -> bool;

/// ASCII lowercase letters `a`-`z`.
pub open spec fn ascii_lowercase(c: char) -> bool {
    'a' <= c && c <= 'z'
}

/// ASCII uppercase letters `A`-`Z`.
pub open spec fn ascii_uppercase(c: char) -> bool {
    'A' <= c && c <= 'Z'
}

/// ASCII decimal digits `0`-`9`.
pub open spec fn ascii_digit(c: char) -> bool {
    '0' <= c && c <= '9'
}

/// ASCII hexadecimal digits.
pub open spec fn ascii_hex_digit(c: char) -> bool {
    ascii_digit(c) || ('a' <= c && c <= 'f') || ('A' <= c && c <= 'F')
}

/// ASCII whitespace: space, horizontal tab, line feed, form feed, carriage return.
pub open spec fn ascii_whitespace(c: char) -> bool {
    c == ' ' || c == '\t' || c == '\n' || c == '\x0c' || c == '\r'
}

/// The Unicode `Lowercase` property; it contains the ASCII lowercase letters.
pub open spec fn utf8_lowercase(c: char) -> bool {
    ascii_lowercase(c) || extra_lowercase(c)
}

/// The Unicode `Uppercase` property; it contains the ASCII uppercase letters.
pub open spec fn utf8_uppercase(c: char) -> bool {
    ascii_uppercase(c) || extra_uppercase(c)
}

/// The Unicode `Alphabetic` property; it contains every lowercase and
/// uppercase character.
pub open spec fn utf8_alphabetic(c: char) -> bool {
    utf8_lowercase(c) || utf8_uppercase(c) || extra_alphabetic(c)
}

/// The Unicode numeric characters; they contain the ASCII digits.
pub open spec fn utf8_numeric(c: char) -> bool {
    ascii_digit(c) || extra_numeric(c)
}

/// The Unicode `White_Space` property; it contains the ASCII whitespace set.
pub open spec fn utf8_whitespace(c: char) -> bool {
    ascii_whitespace(c) || extra_whitespace(c)
}

/// Relies on char::is_lowercase: true exactly for characters with the
/// Unicode `Lowercase` property, which include the ASCII letters `a`-`z`.
#[verifier::external_body]
fn char_is_lowercase(c: char) -> (r: bool)
    ensures
        r == (ascii_lowercase(c) || extra_lowercase(c)),
{
    c.is_lowercase()
}

/// Relies on char::is_uppercase: true exactly for characters with the
/// Unicode `Uppercase` property, which include the ASCII letters `A`-`Z`.
#[verifier::external_body]
fn char_is_uppercase(c: char) -> (r: bool)
    ensures
        r == (ascii_uppercase(c) || extra_uppercase(c)),
{
    c.is_uppercase()
}

/// Relies on char::is_alphabetic: true exactly for characters with the
/// Unicode `Alphabetic` property, which include every lowercase and
/// uppercase character.
#[verifier::external_body]
fn char_is_alphabetic(c: char) -> (r: bool)
    ensures
        r == (utf8_lowercase(c) || utf8_uppercase(c) || extra_alphabetic(c)),
{
    c.is_alphabetic()
}

/// Relies on char::is_numeric: true exactly for characters with a Unicode
/// numeric general category, which include the ASCII digits `0`-`9`.
#[verifier::external_body]
fn char_is_numeric(c: char) -> (r: bool)
    ensures
        r == (ascii_digit(c) || extra_numeric(c)),
{
    c.is_numeric()
}

/// Relies on char::is_whitespace: true exactly for characters with the
/// Unicode `White_Space` property, which include the ASCII whitespace set.
#[verifier::external_body]
fn char_is_whitespace(c: char) -> (r: bool)
    ensures
        r == (ascii_whitespace(c) || extra_whitespace(c)),
{
    c.is_whitespace()
}

/// A category of characters for character matching.
///
/// The ordering of these variants is significant for this enum's total
/// ordering: the derived order sorts each category before its supersets.
#[derive(Debug, Clone, Copy, PartialEq, Eq, PartialOrd, Ord, Hash, Structural)]
pub enum CharacterCategory {
    /// The set of ASCII lowercase letters: a-z
    ASCIILowercase,
    /// The set of ASCII uppercase letters: A-Z
    ASCIIUppercase,
    /// The set of ASCII alphabetic characters: a-z, A-Z
    ASCIIAlpha,
    /// The set of ASCII binary digits: 0, 1
    ASCIIBinaryDigit,
    /// The set of ASCII decimal digits: 0-9
    ASCIIDigit,
    /// The set of ASCII hexadecimal digits: 0-9, a-f, A-F
    ASCIIHexDigit,
    /// The set of ASCII alphabetic and numeric characters: 0-9, a-z, A-Z
    ASCIIAlphanumeric,
    /// The set of ASCII whitespace characters: space, horizontal tab,
    /// line feed, form feed, carriage return
    ASCIIWhitespace,
    /// The set of Unicode lowercase letters
    Utf8Lowercase,
    /// The set of Unicode uppercase letters
    Utf8Uppercase,
    /// The set of Unicode alphabetic characters
    Utf8Alpha,
    /// The set of Unicode numeric characters
    Utf8Numeric,
    /// The set of Unicode alphabetic and numeric characters
    Utf8Alphanumeric,
    /// The set of Unicode whitespace characters
    Utf8Whitespace,
    /// Matches any character
    Any,
}

/// The set of characters a category stands for.
pub open spec fn category_matches(cat: CharacterCategory, c: char) -> bool {
    match cat {
        CharacterCategory::ASCIILowercase => ascii_lowercase(c),
        CharacterCategory::ASCIIUppercase => ascii_uppercase(c),
        CharacterCategory::ASCIIAlpha => ascii_lowercase(c) || ascii_uppercase(c),
        CharacterCategory::ASCIIBinaryDigit => c == '0' || c == '1',
        CharacterCategory::ASCIIDigit => ascii_digit(c),
        CharacterCategory::ASCIIHexDigit => ascii_hex_digit(c),
        CharacterCategory::ASCIIAlphanumeric => ascii_lowercase(c) || ascii_uppercase(c)
            || ascii_digit(c),
        CharacterCategory::ASCIIWhitespace => ascii_whitespace(c),
        CharacterCategory::Utf8Lowercase => utf8_lowercase(c),
        CharacterCategory::Utf8Uppercase => utf8_uppercase(c),
        CharacterCategory::Utf8Alpha => utf8_alphabetic(c),
        CharacterCategory::Utf8Numeric => utf8_numeric(c),
        CharacterCategory::Utf8Alphanumeric => utf8_alphabetic(c) || utf8_numeric(c),
        CharacterCategory::Utf8Whitespace => utf8_whitespace(c),
        CharacterCategory::Any => true,
    }
}

impl CharacterCategory {
    /// A predicate returning true if the presented character belongs in the
    /// character category.
    pub fn is_matching(self, c: char) -> (r: bool)
        ensures
            r == category_matches(self, c),
    {
        match self {
            CharacterCategory::ASCIILowercase => 'a' <= c && c <= 'z',
            CharacterCategory::ASCIIUppercase => 'A' <= c && c <= 'Z',
            CharacterCategory::ASCIIAlpha => ('a' <= c && c <= 'z') || ('A' <= c && c <= 'Z'),
            CharacterCategory::ASCIIBinaryDigit => c == '0' || c == '1',
            CharacterCategory::ASCIIDigit => '0' <= c && c <= '9',
            CharacterCategory::ASCIIHexDigit => ('0' <= c && c <= '9') || ('a' <= c && c <= 'f')
                || ('A' <= c && c <= 'F'),
            CharacterCategory::ASCIIAlphanumeric => ('a' <= c && c <= 'z') || ('A' <= c && c
                <= 'Z') || ('0' <= c && c <= '9'),
            CharacterCategory::ASCIIWhitespace => c == ' ' || c == '\t' || c == '\n' || c
                == '\x0c' || c == '\r',
            CharacterCategory::Utf8Lowercase => char_is_lowercase(c),
            CharacterCategory::Utf8Uppercase => char_is_uppercase(c),
            CharacterCategory::Utf8Alpha => char_is_alphabetic(c),
            CharacterCategory::Utf8Numeric => char_is_numeric(c),
            CharacterCategory::Utf8Alphanumeric => {
                if char_is_alphabetic(c) {
                    true
                } else {
                    char_is_numeric(c)
                }
            },
            CharacterCategory::Utf8Whitespace => char_is_whitespace(c),
            CharacterCategory::Any => true,
        }
    }
}

/// A character matcher: a literal character or a category of characters.
#[derive(Debug, Clone, Copy, PartialEq, Eq, Hash, Structural)]
pub enum SingleMatcher {
    /// Matches a literal character.
    Character(char),
    /// Matches a category of characters.
    Category(CharacterCategory),
}

/// The set of characters a single matcher accepts.
pub open spec fn single_matches(m: SingleMatcher, c: char) -> bool {
    match m {
        SingleMatcher::Character(pattern) => c == pattern,
        SingleMatcher::Category(category) => category_matches(category, c),
    }
}

impl SingleMatcher {
    /// A predicate determining whether a character matches with the matcher.
    pub fn is_matching(self, c: char) -> (r: bool)
        ensures
            r == single_matches(self, c),
    {
        match self {
            SingleMatcher::Character(pattern) => c == pattern,
            SingleMatcher::Category(category) => category.is_matching(c),
        }
    }
}

/// A character matcher for text input: a single matcher, or a negated set
/// matching any character that no member of the set matches.
#[derive(Debug, Clone, PartialEq, Eq, Hash)]
pub enum Matcher {
    /// Matches what the single matcher matches.
    SingleMatcher(SingleMatcher),
    /// Matches any character except those matched by a member of the set.
    NegatedSet(Vec<SingleMatcher>),
}

/// The set of characters a matcher accepts.
pub open spec fn matcher_matches(m: Matcher, c: char) -> bool {
    match m {
        Matcher::SingleMatcher(single) => single_matches(single, c),
        Matcher::NegatedSet(set) => forall|i: int|
            0 <= i < set@.len() ==> !single_matches(set@[i], c),
    }
}

impl Matcher {
    /// A predicate determining whether a character matches with the matcher.
    pub fn is_matching(&self, c: char) -> (r: bool)
        ensures
            r == matcher_matches(*self, c),
    {
        match self {
            Matcher::SingleMatcher(matcher) => matcher.is_matching(c),
            Matcher::NegatedSet(set) => {
                let mut i: usize = 0;
                while i < set.len()
                    invariant
                        self is NegatedSet,
                        self->NegatedSet_0@ == set@,
                        0 <= i <= set@.len(),
                        forall|j: int| 0 <= j < i ==> !single_matches(set@[j], c),
                    decreases set@.len() - i,
                {
                    if set[i].is_matching(c) {
                        proof {
                            assert(single_matches(set@[i as int], c));
                            assert(!matcher_matches(*self, c));
                        }
                        return false;
                    }
                    i = i + 1;
                }
                true
            },
        }
    }

}

/// Two matchers are alike when they are built from the same parts.
pub open spec fn matcher_like(a: Matcher, b: Matcher) -> bool {
    match (a, b) {
        (Matcher::SingleMatcher(x), Matcher::SingleMatcher(y)) => x == y,
        (Matcher::NegatedSet(x), Matcher::NegatedSet(y)) => x@ == y@,
        _ => false,
    }
}

} // verus!
