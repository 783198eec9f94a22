//! The partial order of matchers and categories by set inclusion.

use std::cmp::Ordering;
use turn::matchers::{CharacterCategory, Matcher, SingleMatcher};
use turn::set_ordering::SetOrdering;

#[test]
fn ascii_alphanumeric_set_ordering() {

    assert_eq!(CharacterCategory::ASCIIAlphanumeric.set_ordering(&CharacterCategory::ASCIIAlphanumeric), Some(Ordering::Equal));
    assert_eq!(CharacterCategory::ASCIIAlphanumeric.set_ordering(&CharacterCategory::ASCIIAlpha), Some(Ordering::Greater));
    assert_eq!(CharacterCategory::ASCIIAlphanumeric.set_ordering(&CharacterCategory::ASCIIBinaryDigit), Some(Ordering::Greater));
    assert_eq!(CharacterCategory::ASCIIAlphanumeric.set_ordering(&CharacterCategory::ASCIIDigit), Some(Ordering::Greater));
    assert_eq!(CharacterCategory::ASCIIAlphanumeric.set_ordering(&CharacterCategory::ASCIIHexDigit), Some(Ordering::Greater));
    assert_eq!(CharacterCategory::ASCIIAlphanumeric.set_ordering(&CharacterCategory::ASCIILowercase), Some(Ordering::Greater));
    assert_eq!(CharacterCategory::ASCIIAlphanumeric.set_ordering(&CharacterCategory::ASCIIUppercase), Some(Ordering::Greater));
    assert_eq!(CharacterCategory::ASCIIAlphanumeric.set_ordering(&CharacterCategory::ASCIIWhitespace), None);
    assert_eq!(CharacterCategory::ASCIIAlphanumeric.set_ordering(&CharacterCategory::Utf8Alphanumeric), Some(Ordering::Less));
    assert_eq!(CharacterCategory::ASCIIAlphanumeric.set_ordering(&CharacterCategory::Utf8Alpha), None);
    assert_eq!(CharacterCategory::ASCIIAlphanumeric.set_ordering(&CharacterCategory::Utf8Lowercase), None);
    assert_eq!(CharacterCategory::ASCIIAlphanumeric.set_ordering(&CharacterCategory::Utf8Numeric), None);
    assert_eq!(CharacterCategory::ASCIIAlphanumeric.set_ordering(&CharacterCategory::Utf8Uppercase), None);
    assert_eq!(CharacterCategory::ASCIIAlphanumeric.set_ordering(&CharacterCategory::Utf8Whitespace), None);
}

#[test]
fn ascii_alpha_set_ordering() {

    assert_eq!(CharacterCategory::ASCIIAlpha.set_ordering(&CharacterCategory::ASCIIAlphanumeric), Some(Ordering::Less));
    assert_eq!(CharacterCategory::ASCIIAlpha.set_ordering(&CharacterCategory::ASCIIAlpha), Some(Ordering::Equal));
    assert_eq!(CharacterCategory::ASCIIAlpha.set_ordering(&CharacterCategory::ASCIIBinaryDigit), None);
    assert_eq!(CharacterCategory::ASCIIAlpha.set_ordering(&CharacterCategory::ASCIIDigit), None);
    assert_eq!(CharacterCategory::ASCIIAlpha.set_ordering(&CharacterCategory::ASCIIHexDigit), None);
    assert_eq!(CharacterCategory::ASCIIAlpha.set_ordering(&CharacterCategory::ASCIILowercase), Some(Ordering::Greater));
    assert_eq!(CharacterCategory::ASCIIAlpha.set_ordering(&CharacterCategory::ASCIIUppercase), Some(Ordering::Greater));
    assert_eq!(CharacterCategory::ASCIIAlpha.set_ordering(&CharacterCategory::ASCIIWhitespace), None);
    assert_eq!(CharacterCategory::ASCIIAlpha.set_ordering(&CharacterCategory::Utf8Alphanumeric), Some(Ordering::Less));
    assert_eq!(CharacterCategory::ASCIIAlpha.set_ordering(&CharacterCategory::Utf8Alpha), Some(Ordering::Less));
    assert_eq!(CharacterCategory::ASCIIAlpha.set_ordering(&CharacterCategory::Utf8Lowercase), None);
    assert_eq!(CharacterCategory::ASCIIAlpha.set_ordering(&CharacterCategory::Utf8Numeric), None);
    assert_eq!(CharacterCategory::ASCIIAlpha.set_ordering(&CharacterCategory::Utf8Uppercase), None);
    assert_eq!(CharacterCategory::ASCIIAlpha.set_ordering(&CharacterCategory::Utf8Whitespace), None);
}

#[test]
fn ascii_binary_digit_set_ordering() {

    assert_eq!(CharacterCategory::ASCIIBinaryDigit.set_ordering(&CharacterCategory::ASCIIAlphanumeric), Some(Ordering::Less));
    assert_eq!(CharacterCategory::ASCIIBinaryDigit.set_ordering(&CharacterCategory::ASCIIAlpha), None);
    assert_eq!(CharacterCategory::ASCIIBinaryDigit.set_ordering(&CharacterCategory::ASCIIBinaryDigit), Some(Ordering::Equal));
    assert_eq!(CharacterCategory::ASCIIBinaryDigit.set_ordering(&CharacterCategory::ASCIIDigit), Some(Ordering::Less));
    assert_eq!(CharacterCategory::ASCIIBinaryDigit.set_ordering(&CharacterCategory::ASCIIHexDigit), Some(Ordering::Less));
    assert_eq!(CharacterCategory::ASCIIBinaryDigit.set_ordering(&CharacterCategory::ASCIILowercase), None);
    assert_eq!(CharacterCategory::ASCIIBinaryDigit.set_ordering(&CharacterCategory::ASCIIUppercase), None);
    assert_eq!(CharacterCategory::ASCIIBinaryDigit.set_ordering(&CharacterCategory::ASCIIWhitespace), None);
    assert_eq!(CharacterCategory::ASCIIBinaryDigit.set_ordering(&CharacterCategory::Utf8Alphanumeric), Some(Ordering::Less));
    assert_eq!(CharacterCategory::ASCIIBinaryDigit.set_ordering(&CharacterCategory::Utf8Alpha), None);
    assert_eq!(CharacterCategory::ASCIIBinaryDigit.set_ordering(&CharacterCategory::Utf8Lowercase), None);
    assert_eq!(CharacterCategory::ASCIIBinaryDigit.set_ordering(&CharacterCategory::Utf8Numeric), Some(Ordering::Less));
    assert_eq!(CharacterCategory::ASCIIBinaryDigit.set_ordering(&CharacterCategory::Utf8Uppercase), None);
    assert_eq!(CharacterCategory::ASCIIBinaryDigit.set_ordering(&CharacterCategory::Utf8Whitespace), None);
}

#[test]
fn ascii_digit_set_ordering() {

    assert_eq!(CharacterCategory::ASCIIDigit.set_ordering(&CharacterCategory::ASCIIAlphanumeric), Some(Ordering::Less));
    assert_eq!(CharacterCategory::ASCIIDigit.set_ordering(&CharacterCategory::ASCIIAlpha), None);
    assert_eq!(CharacterCategory::ASCIIDigit.set_ordering(&CharacterCategory::ASCIIBinaryDigit), Some(Ordering::Greater));
    assert_eq!(CharacterCategory::ASCIIDigit.set_ordering(&CharacterCategory::ASCIIDigit), Some(Ordering::Equal));
    assert_eq!(CharacterCategory::ASCIIDigit.set_ordering(&CharacterCategory::ASCIIHexDigit), Some(Ordering::Less));
    assert_eq!(CharacterCategory::ASCIIDigit.set_ordering(&CharacterCategory::ASCIILowercase), None);
    assert_eq!(CharacterCategory::ASCIIDigit.set_ordering(&CharacterCategory::ASCIIUppercase), None);
    assert_eq!(CharacterCategory::ASCIIDigit.set_ordering(&CharacterCategory::ASCIIWhitespace), None);
    assert_eq!(CharacterCategory::ASCIIDigit.set_ordering(&CharacterCategory::Utf8Alphanumeric), Some(Ordering::Less));
    assert_eq!(CharacterCategory::ASCIIDigit.set_ordering(&CharacterCategory::Utf8Alpha), None);
    assert_eq!(CharacterCategory::ASCIIDigit.set_ordering(&CharacterCategory::Utf8Lowercase), None);
    assert_eq!(CharacterCategory::ASCIIDigit.set_ordering(&CharacterCategory::Utf8Numeric), Some(Ordering::Less));
    assert_eq!(CharacterCategory::ASCIIDigit.set_ordering(&CharacterCategory::Utf8Uppercase), None);
    assert_eq!(CharacterCategory::ASCIIDigit.set_ordering(&CharacterCategory::Utf8Whitespace), None);
}

#[test]
fn ascii_hex_digit_set_ordering() {

    assert_eq!(CharacterCategory::ASCIIHexDigit.set_ordering(&CharacterCategory::ASCIIAlphanumeric), Some(Ordering::Less));
    assert_eq!(CharacterCategory::ASCIIHexDigit.set_ordering(&CharacterCategory::ASCIIAlpha), None);
    assert_eq!(CharacterCategory::ASCIIHexDigit.set_ordering(&CharacterCategory::ASCIIBinaryDigit), Some(Ordering::Greater));
    assert_eq!(CharacterCategory::ASCIIHexDigit.set_ordering(&CharacterCategory::ASCIIDigit), Some(Ordering::Greater));
    assert_eq!(CharacterCategory::ASCIIHexDigit.set_ordering(&CharacterCategory::ASCIIHexDigit), Some(Ordering::Equal));
    assert_eq!(CharacterCategory::ASCIIHexDigit.set_ordering(&CharacterCategory::ASCIILowercase), None);
    assert_eq!(CharacterCategory::ASCIIHexDigit.set_ordering(&CharacterCategory::ASCIIUppercase), None);
    assert_eq!(CharacterCategory::ASCIIHexDigit.set_ordering(&CharacterCategory::ASCIIWhitespace), None);
    assert_eq!(CharacterCategory::ASCIIHexDigit.set_ordering(&CharacterCategory::Utf8Alphanumeric), Some(Ordering::Less));
    assert_eq!(CharacterCategory::ASCIIHexDigit.set_ordering(&CharacterCategory::Utf8Alpha), None);
    assert_eq!(CharacterCategory::ASCIIHexDigit.set_ordering(&CharacterCategory::Utf8Lowercase), None);
    assert_eq!(CharacterCategory::ASCIIHexDigit.set_ordering(&CharacterCategory::Utf8Numeric), None);
    assert_eq!(CharacterCategory::ASCIIHexDigit.set_ordering(&CharacterCategory::Utf8Uppercase), None);
    assert_eq!(CharacterCategory::ASCIIHexDigit.set_ordering(&CharacterCategory::Utf8Whitespace), None);
}

#[test]
fn ascii_lowercase_set_ordering() {

    assert_eq!(CharacterCategory::ASCIILowercase.set_ordering(&CharacterCategory::ASCIIAlphanumeric), Some(Ordering::Less));
    assert_eq!(CharacterCategory::ASCIILowercase.set_ordering(&CharacterCategory::ASCIIAlpha), Some(Ordering::Less));
    assert_eq!(CharacterCategory::ASCIILowercase.set_ordering(&CharacterCategory::ASCIIBinaryDigit), None);
    assert_eq!(CharacterCategory::ASCIILowercase.set_ordering(&CharacterCategory::ASCIIDigit), None);
    assert_eq!(CharacterCategory::ASCIILowercase.set_ordering(&CharacterCategory::ASCIIHexDigit), None);
    assert_eq!(CharacterCategory::ASCIILowercase.set_ordering(&CharacterCategory::ASCIILowercase), Some(Ordering::Equal));
    assert_eq!(CharacterCategory::ASCIILowercase.set_ordering(&CharacterCategory::ASCIIUppercase), None);
    assert_eq!(CharacterCategory::ASCIILowercase.set_ordering(&CharacterCategory::ASCIIWhitespace), None);
    assert_eq!(CharacterCategory::ASCIILowercase.set_ordering(&CharacterCategory::Utf8Alphanumeric), Some(Ordering::Less));
    assert_eq!(CharacterCategory::ASCIILowercase.set_ordering(&CharacterCategory::Utf8Alpha), Some(Ordering::Less));
    assert_eq!(CharacterCategory::ASCIILowercase.set_ordering(&CharacterCategory::Utf8Lowercase), Some(Ordering::Less));
    assert_eq!(CharacterCategory::ASCIILowercase.set_ordering(&CharacterCategory::Utf8Numeric), None);
    assert_eq!(CharacterCategory::ASCIILowercase.set_ordering(&CharacterCategory::Utf8Uppercase), None);
    assert_eq!(CharacterCategory::ASCIILowercase.set_ordering(&CharacterCategory::Utf8Whitespace), None);
}

#[test]
fn ascii_uppercase_set_ordering() {

    assert_eq!(CharacterCategory::ASCIIUppercase.set_ordering(&CharacterCategory::ASCIIAlphanumeric), Some(Ordering::Less));
    assert_eq!(CharacterCategory::ASCIIUppercase.set_ordering(&CharacterCategory::ASCIIAlpha), Some(Ordering::Less));
    assert_eq!(CharacterCategory::ASCIIUppercase.set_ordering(&CharacterCategory::ASCIIBinaryDigit), None);
    assert_eq!(CharacterCategory::ASCIIUppercase.set_ordering(&CharacterCategory::ASCIIDigit), None);
    assert_eq!(CharacterCategory::ASCIIUppercase.set_ordering(&CharacterCategory::ASCIIHexDigit), None);
    assert_eq!(CharacterCategory::ASCIIUppercase.set_ordering(&CharacterCategory::ASCIILowercase), None);
    assert_eq!(CharacterCategory::ASCIIUppercase.set_ordering(&CharacterCategory::ASCIIUppercase), Some(Ordering::Equal));
    assert_eq!(CharacterCategory::ASCIIUppercase.set_ordering(&CharacterCategory::ASCIIWhitespace), None);
    assert_eq!(CharacterCategory::ASCIIUppercase.set_ordering(&CharacterCategory::Utf8Alphanumeric), Some(Ordering::Less));
    assert_eq!(CharacterCategory::ASCIIUppercase.set_ordering(&CharacterCategory::Utf8Alpha), Some(Ordering::Less));
    assert_eq!(CharacterCategory::ASCIIUppercase.set_ordering(&CharacterCategory::Utf8Lowercase), None);
    assert_eq!(CharacterCategory::ASCIIUppercase.set_ordering(&CharacterCategory::Utf8Numeric), None);
    assert_eq!(CharacterCategory::ASCIIUppercase.set_ordering(&CharacterCategory::Utf8Uppercase), Some(Ordering::Less));
    assert_eq!(CharacterCategory::ASCIIUppercase.set_ordering(&CharacterCategory::Utf8Whitespace), None);
}

#[test]
fn ascii_whitespace_set_ordering() {

    assert_eq!(CharacterCategory::ASCIIWhitespace.set_ordering(&CharacterCategory::ASCIIAlphanumeric), None);
    assert_eq!(CharacterCategory::ASCIIWhitespace.set_ordering(&CharacterCategory::ASCIIAlpha), None);
    assert_eq!(CharacterCategory::ASCIIWhitespace.set_ordering(&CharacterCategory::ASCIIBinaryDigit), None);
    assert_eq!(CharacterCategory::ASCIIWhitespace.set_ordering(&CharacterCategory::ASCIIDigit), None);
    assert_eq!(CharacterCategory::ASCIIWhitespace.set_ordering(&CharacterCategory::ASCIIHexDigit), None);
    assert_eq!(CharacterCategory::ASCIIWhitespace.set_ordering(&CharacterCategory::ASCIILowercase), None);
    assert_eq!(CharacterCategory::ASCIIWhitespace.set_ordering(&CharacterCategory::ASCIIUppercase), None);
    assert_eq!(CharacterCategory::ASCIIWhitespace.set_ordering(&CharacterCategory::ASCIIWhitespace), Some(Ordering::Equal));
    assert_eq!(CharacterCategory::ASCIIWhitespace.set_ordering(&CharacterCategory::Utf8Alphanumeric), None);
    assert_eq!(CharacterCategory::ASCIIWhitespace.set_ordering(&CharacterCategory::Utf8Alpha), None);
    assert_eq!(CharacterCategory::ASCIIWhitespace.set_ordering(&CharacterCategory::Utf8Lowercase), None);
    assert_eq!(CharacterCategory::ASCIIWhitespace.set_ordering(&CharacterCategory::Utf8Numeric), None);
    assert_eq!(CharacterCategory::ASCIIWhitespace.set_ordering(&CharacterCategory::Utf8Uppercase), None);
    assert_eq!(CharacterCategory::ASCIIWhitespace.set_ordering(&CharacterCategory::Utf8Whitespace), Some(Ordering::Less));
}

#[test]
fn utf8_alphanumeric_set_ordering() {

    assert_eq!(CharacterCategory::Utf8Alphanumeric.set_ordering(&CharacterCategory::ASCIIAlphanumeric), Some(Ordering::Greater));
    assert_eq!(CharacterCategory::Utf8Alphanumeric.set_ordering(&CharacterCategory::ASCIIAlpha), Some(Ordering::Greater));
    assert_eq!(CharacterCategory::Utf8Alphanumeric.set_ordering(&CharacterCategory::ASCIIBinaryDigit), Some(Ordering::Greater));
    assert_eq!(CharacterCategory::Utf8Alphanumeric.set_ordering(&CharacterCategory::ASCIIDigit), Some(Ordering::Greater));
    assert_eq!(CharacterCategory::Utf8Alphanumeric.set_ordering(&CharacterCategory::ASCIIHexDigit), Some(Ordering::Greater));
    assert_eq!(CharacterCategory::Utf8Alphanumeric.set_ordering(&CharacterCategory::ASCIILowercase), Some(Ordering::Greater));
    assert_eq!(CharacterCategory::Utf8Alphanumeric.set_ordering(&CharacterCategory::ASCIIUppercase), Some(Ordering::Greater));
    assert_eq!(CharacterCategory::Utf8Alphanumeric.set_ordering(&CharacterCategory::ASCIIWhitespace), None);
    assert_eq!(CharacterCategory::Utf8Alphanumeric.set_ordering(&CharacterCategory::Utf8Alphanumeric), Some(Ordering::Equal));
    assert_eq!(CharacterCategory::Utf8Alphanumeric.set_ordering(&CharacterCategory::Utf8Alpha), Some(Ordering::Greater));
    assert_eq!(CharacterCategory::Utf8Alphanumeric.set_ordering(&CharacterCategory::Utf8Lowercase), Some(Ordering::Greater));
    assert_eq!(CharacterCategory::Utf8Alphanumeric.set_ordering(&CharacterCategory::Utf8Numeric), Some(Ordering::Greater));
    assert_eq!(CharacterCategory::Utf8Alphanumeric.set_ordering(&CharacterCategory::Utf8Uppercase), Some(Ordering::Greater));
    assert_eq!(CharacterCategory::Utf8Alphanumeric.set_ordering(&CharacterCategory::Utf8Whitespace), None);
}

#[test]
fn utf8_alpha_set_ordering() {

    assert_eq!(CharacterCategory::Utf8Alpha.set_ordering(&CharacterCategory::ASCIIAlphanumeric), None);
    assert_eq!(CharacterCategory::Utf8Alpha.set_ordering(&CharacterCategory::ASCIIAlpha), Some(Ordering::Greater));
    assert_eq!(CharacterCategory::Utf8Alpha.set_ordering(&CharacterCategory::ASCIIBinaryDigit), None);
    assert_eq!(CharacterCategory::Utf8Alpha.set_ordering(&CharacterCategory::ASCIIDigit), None);
    assert_eq!(CharacterCategory::Utf8Alpha.set_ordering(&CharacterCategory::ASCIIHexDigit), None);
    assert_eq!(CharacterCategory::Utf8Alpha.set_ordering(&CharacterCategory::ASCIILowercase), Some(Ordering::Greater));
    assert_eq!(CharacterCategory::Utf8Alpha.set_ordering(&CharacterCategory::ASCIIUppercase), Some(Ordering::Greater));
    assert_eq!(CharacterCategory::Utf8Alpha.set_ordering(&CharacterCategory::ASCIIWhitespace), None);
    assert_eq!(CharacterCategory::Utf8Alpha.set_ordering(&CharacterCategory::Utf8Alphanumeric), Some(Ordering::Less));
    assert_eq!(CharacterCategory::Utf8Alpha.set_ordering(&CharacterCategory::Utf8Alpha), Some(Ordering::Equal));
    assert_eq!(CharacterCategory::Utf8Alpha.set_ordering(&CharacterCategory::Utf8Lowercase), Some(Ordering::Greater));
    assert_eq!(CharacterCategory::Utf8Alpha.set_ordering(&CharacterCategory::Utf8Numeric), None);
    assert_eq!(CharacterCategory::Utf8Alpha.set_ordering(&CharacterCategory::Utf8Uppercase), Some(Ordering::Greater));
    assert_eq!(CharacterCategory::Utf8Alpha.set_ordering(&CharacterCategory::Utf8Whitespace), None);
}

#[test]
fn utf8_lowercase_set_ordering() {

    assert_eq!(CharacterCategory::Utf8Lowercase.set_ordering(&CharacterCategory::ASCIIAlphanumeric), None);
    assert_eq!(CharacterCategory::Utf8Lowercase.set_ordering(&CharacterCategory::ASCIIAlpha), None);
    assert_eq!(CharacterCategory::Utf8Lowercase.set_ordering(&CharacterCategory::ASCIIBinaryDigit), None);
    assert_eq!(CharacterCategory::Utf8Lowercase.set_ordering(&CharacterCategory::ASCIIDigit), None);
    assert_eq!(CharacterCategory::Utf8Lowercase.set_ordering(&CharacterCategory::ASCIIHexDigit), None);
    assert_eq!(CharacterCategory::Utf8Lowercase.set_ordering(&CharacterCategory::ASCIILowercase), Some(Ordering::Greater));
    assert_eq!(CharacterCategory::Utf8Lowercase.set_ordering(&CharacterCategory::ASCIIUppercase), None);
    assert_eq!(CharacterCategory::Utf8Lowercase.set_ordering(&CharacterCategory::ASCIIWhitespace), None);
    assert_eq!(CharacterCategory::Utf8Lowercase.set_ordering(&CharacterCategory::Utf8Alphanumeric), Some(Ordering::Less));
    assert_eq!(CharacterCategory::Utf8Lowercase.set_ordering(&CharacterCategory::Utf8Alpha), Some(Ordering::Less));
    assert_eq!(CharacterCategory::Utf8Lowercase.set_ordering(&CharacterCategory::Utf8Lowercase), Some(Ordering::Equal));
    assert_eq!(CharacterCategory::Utf8Lowercase.set_ordering(&CharacterCategory::Utf8Numeric), None);
    assert_eq!(CharacterCategory::Utf8Lowercase.set_ordering(&CharacterCategory::Utf8Uppercase), None);
    assert_eq!(CharacterCategory::Utf8Lowercase.set_ordering(&CharacterCategory::Utf8Whitespace), None);
}

#[test]
fn utf8_numeric_set_ordering() {

    assert_eq!(CharacterCategory::Utf8Numeric.set_ordering(&CharacterCategory::ASCIIAlphanumeric), None);
    assert_eq!(CharacterCategory::Utf8Numeric.set_ordering(&CharacterCategory::ASCIIAlpha), None);
    assert_eq!(CharacterCategory::Utf8Numeric.set_ordering(&CharacterCategory::ASCIIBinaryDigit), Some(Ordering::Greater));
    assert_eq!(CharacterCategory::Utf8Numeric.set_ordering(&CharacterCategory::ASCIIDigit), Some(Ordering::Greater));
    assert_eq!(CharacterCategory::Utf8Numeric.set_ordering(&CharacterCategory::ASCIIHexDigit), None);
    assert_eq!(CharacterCategory::Utf8Numeric.set_ordering(&CharacterCategory::ASCIILowercase), None);
    assert_eq!(CharacterCategory::Utf8Numeric.set_ordering(&CharacterCategory::ASCIIUppercase), None);
    assert_eq!(CharacterCategory::Utf8Numeric.set_ordering(&CharacterCategory::ASCIIWhitespace), None);
    assert_eq!(CharacterCategory::Utf8Numeric.set_ordering(&CharacterCategory::Utf8Alphanumeric), Some(Ordering::Less));
    assert_eq!(CharacterCategory::Utf8Numeric.set_ordering(&CharacterCategory::Utf8Alpha), None);
    assert_eq!(CharacterCategory::Utf8Numeric.set_ordering(&CharacterCategory::Utf8Lowercase), None);
    assert_eq!(CharacterCategory::Utf8Numeric.set_ordering(&CharacterCategory::Utf8Numeric), Some(Ordering::Equal));
    assert_eq!(CharacterCategory::Utf8Numeric.set_ordering(&CharacterCategory::Utf8Uppercase), None);
    assert_eq!(CharacterCategory::Utf8Numeric.set_ordering(&CharacterCategory::Utf8Whitespace), None);
}

#[test]
fn utf8_uppercase_set_ordering() {

    assert_eq!(CharacterCategory::Utf8Uppercase.set_ordering(&CharacterCategory::ASCIIAlphanumeric), None);
    assert_eq!(CharacterCategory::Utf8Uppercase.set_ordering(&CharacterCategory::ASCIIAlpha), None);
    assert_eq!(CharacterCategory::Utf8Uppercase.set_ordering(&CharacterCategory::ASCIIBinaryDigit), None);
    assert_eq!(CharacterCategory::Utf8Uppercase.set_ordering(&CharacterCategory::ASCIIDigit), None);
    assert_eq!(CharacterCategory::Utf8Uppercase.set_ordering(&CharacterCategory::ASCIIHexDigit), None);
    assert_eq!(CharacterCategory::Utf8Uppercase.set_ordering(&CharacterCategory::ASCIILowercase), None);
    assert_eq!(CharacterCategory::Utf8Uppercase.set_ordering(&CharacterCategory::ASCIIUppercase), Some(Ordering::Greater));
    assert_eq!(CharacterCategory::Utf8Uppercase.set_ordering(&CharacterCategory::ASCIIWhitespace), None);
    assert_eq!(CharacterCategory::Utf8Uppercase.set_ordering(&CharacterCategory::Utf8Alphanumeric), Some(Ordering::Less));
    assert_eq!(CharacterCategory::Utf8Uppercase.set_ordering(&CharacterCategory::Utf8Alpha), Some(Ordering::Less));
    assert_eq!(CharacterCategory::Utf8Uppercase.set_ordering(&CharacterCategory::Utf8Lowercase), None);
    assert_eq!(CharacterCategory::Utf8Uppercase.set_ordering(&CharacterCategory::Utf8Numeric), None);
    assert_eq!(CharacterCategory::Utf8Uppercase.set_ordering(&CharacterCategory::Utf8Uppercase), Some(Ordering::Equal));
    assert_eq!(CharacterCategory::Utf8Uppercase.set_ordering(&CharacterCategory::Utf8Whitespace), None);
}

#[test]
fn utf8_whitespace_set_ordering() {

    assert_eq!(CharacterCategory::Utf8Whitespace.set_ordering(&CharacterCategory::ASCIIAlphanumeric), None);
    assert_eq!(CharacterCategory::Utf8Whitespace.set_ordering(&CharacterCategory::ASCIIAlpha), None);
    assert_eq!(CharacterCategory::Utf8Whitespace.set_ordering(&CharacterCategory::ASCIIBinaryDigit), None);
    assert_eq!(CharacterCategory::Utf8Whitespace.set_ordering(&CharacterCategory::ASCIIDigit), None);
    assert_eq!(CharacterCategory::Utf8Whitespace.set_ordering(&CharacterCategory::ASCIIHexDigit), None);
    assert_eq!(CharacterCategory::Utf8Whitespace.set_ordering(&CharacterCategory::ASCIILowercase), None);
    assert_eq!(CharacterCategory::Utf8Whitespace.set_ordering(&CharacterCategory::ASCIIUppercase), None);
    assert_eq!(CharacterCategory::Utf8Whitespace.set_ordering(&CharacterCategory::ASCIIWhitespace), Some(Ordering::Greater));
    assert_eq!(CharacterCategory::Utf8Whitespace.set_ordering(&CharacterCategory::Utf8Alphanumeric), None);
    assert_eq!(CharacterCategory::Utf8Whitespace.set_ordering(&CharacterCategory::Utf8Alpha), None);
    assert_eq!(CharacterCategory::Utf8Whitespace.set_ordering(&CharacterCategory::Utf8Lowercase), None);
    assert_eq!(CharacterCategory::Utf8Whitespace.set_ordering(&CharacterCategory::Utf8Numeric), None);
    assert_eq!(CharacterCategory::Utf8Whitespace.set_ordering(&CharacterCategory::Utf8Uppercase), None);
    assert_eq!(CharacterCategory::Utf8Whitespace.set_ordering(&CharacterCategory::Utf8Whitespace), Some(Ordering::Equal));
}


#[test]
fn character_category_total_ordering() {
    let expected_ordering = vec![
        CharacterCategory::ASCIILowercase,
        CharacterCategory::ASCIIUppercase,
        CharacterCategory::ASCIIAlpha,
        CharacterCategory::ASCIIBinaryDigit,
        CharacterCategory::ASCIIDigit,
        CharacterCategory::ASCIIHexDigit,
        CharacterCategory::ASCIIAlphanumeric,
        CharacterCategory::ASCIIWhitespace,
        CharacterCategory::Utf8Lowercase,
        CharacterCategory::Utf8Uppercase,
        CharacterCategory::Utf8Alpha,
        CharacterCategory::Utf8Numeric,
        CharacterCategory::Utf8Alphanumeric,
        CharacterCategory::Utf8Whitespace,
        CharacterCategory::Any,
    ];

    let mut reversed = vec![
        CharacterCategory::Any,
        CharacterCategory::Utf8Whitespace,
        CharacterCategory::Utf8Alphanumeric,
        CharacterCategory::Utf8Numeric,
        CharacterCategory::Utf8Alpha,
        CharacterCategory::Utf8Uppercase,
        CharacterCategory::Utf8Lowercase,
        CharacterCategory::ASCIIWhitespace,
        CharacterCategory::ASCIIAlphanumeric,
        CharacterCategory::ASCIIHexDigit,
        CharacterCategory::ASCIIDigit,
        CharacterCategory::ASCIIBinaryDigit,
        CharacterCategory::ASCIIAlpha,
        CharacterCategory::ASCIIUppercase,
        CharacterCategory::ASCIILowercase,
    ];
    reversed.sort_unstable();
    assert_eq!(reversed, expected_ordering);

    let mut shuffled = vec![
        CharacterCategory::Utf8Whitespace,
        CharacterCategory::ASCIILowercase,
        CharacterCategory::ASCIIUppercase,
        CharacterCategory::Utf8Alpha,
        CharacterCategory::ASCIIAlpha,
        CharacterCategory::Utf8Alphanumeric,
        CharacterCategory::ASCIIDigit,
        CharacterCategory::Utf8Uppercase,
        CharacterCategory::ASCIIHexDigit,
        CharacterCategory::Any,
        CharacterCategory::ASCIIAlphanumeric,
        CharacterCategory::ASCIIWhitespace,
        CharacterCategory::Utf8Lowercase,
        CharacterCategory::ASCIIBinaryDigit,
        CharacterCategory::Utf8Numeric,
    ];
    shuffled.sort_unstable();
    assert_eq!(shuffled, expected_ordering);
}

#[test]
fn single_matcher_set_ordering() {
    // two characters
    assert_eq!(SingleMatcher::Character('x').set_ordering(&SingleMatcher::Character('x')), Some(Ordering::Equal));
    assert_eq!(SingleMatcher::Character('a').set_ordering(&SingleMatcher::Character('b')), None);
    // character and category
    assert_eq!(
        SingleMatcher::Character('x').set_ordering(&SingleMatcher::Category(CharacterCategory::ASCIILowercase)),
        Some(Ordering::Less)
    );
    assert_eq!(
        SingleMatcher::Character('x').set_ordering(&SingleMatcher::Category(CharacterCategory::ASCIIWhitespace)),
        None
    );
    // category and character
    assert_eq!(
        SingleMatcher::Category(CharacterCategory::Utf8Alphanumeric).set_ordering(&SingleMatcher::Character('α')),
        Some(Ordering::Greater)
    );
    assert_eq!(SingleMatcher::Category(CharacterCategory::ASCIIHexDigit).set_ordering(&SingleMatcher::Character('\n')), None);
    // two categories
    assert_eq!(
        SingleMatcher::Category(CharacterCategory::ASCIIAlphanumeric).set_ordering(&SingleMatcher::Category(CharacterCategory::Utf8Alphanumeric)),
        Some(Ordering::Less)
    );
    assert_eq!(
        SingleMatcher::Category(CharacterCategory::ASCIIWhitespace).set_ordering(&SingleMatcher::Category(CharacterCategory::ASCIIWhitespace)),
        Some(Ordering::Equal)
    );
    assert_eq!(
        SingleMatcher::Category(CharacterCategory::ASCIIAlphanumeric).set_ordering(&SingleMatcher::Category(CharacterCategory::ASCIIDigit)),
        Some(Ordering::Greater)
    );
    assert_eq!(
        SingleMatcher::Category(CharacterCategory::ASCIIAlphanumeric).set_ordering(&SingleMatcher::Category(CharacterCategory::Utf8Whitespace)),
        None
    );
}

#[test]
fn matcher_set_ordering() {

    // compare SingleMatcher with SingleMatcher
    assert_eq!(
        Matcher::SingleMatcher(SingleMatcher::Category(CharacterCategory::ASCIIHexDigit))
            .set_ordering(&Matcher::SingleMatcher(SingleMatcher::Category(CharacterCategory::Utf8Alphanumeric))),
        Some(Ordering::Less)
    );
    assert_eq!(
        Matcher::SingleMatcher(SingleMatcher::Character('x')).set_ordering(&Matcher::SingleMatcher(SingleMatcher::Character('x'))),
        Some(Ordering::Equal)
    );
    assert_eq!(
        Matcher::SingleMatcher(SingleMatcher::Category(CharacterCategory::ASCIIHexDigit)).set_ordering(&Matcher::SingleMatcher(SingleMatcher::Character('F'))),
        Some(Ordering::Greater)
    );
    assert_eq!(
        Matcher::SingleMatcher(SingleMatcher::Character('x')).set_ordering(&Matcher::SingleMatcher(SingleMatcher::Character('a'))),
        None
    );
    // compare SingleMatcher with NegatedSet
    assert_eq!(
        Matcher::SingleMatcher(SingleMatcher::Category(CharacterCategory::Utf8Numeric)).set_ordering(&Matcher::NegatedSet(vec![
            SingleMatcher::Character('a'),
            SingleMatcher::Category(CharacterCategory::Utf8Whitespace)
        ])),
        Some(Ordering::Less)
    );
    assert_eq!(
        Matcher::SingleMatcher(SingleMatcher::Category(CharacterCategory::ASCIIDigit)).set_ordering(&Matcher::NegatedSet(vec![
            SingleMatcher::Character('a'),
            SingleMatcher::Category(CharacterCategory::Utf8Whitespace),
            SingleMatcher::Character('8'),
        ])),
        None
    );
    assert_eq!(
        Matcher::SingleMatcher(SingleMatcher::Category(CharacterCategory::ASCIIWhitespace)).set_ordering(&Matcher::NegatedSet(vec![
            SingleMatcher::Category(CharacterCategory::Utf8Whitespace),
            SingleMatcher::Character(' '),
        ])),
        None
    );
    // compare NegatedSet with SingleMatcher
    assert_eq!(
        Matcher::NegatedSet(vec![SingleMatcher::Character('x')]).set_ordering(&Matcher::SingleMatcher(SingleMatcher::Character('x'))),
        None
    );
    assert_eq!(
        Matcher::NegatedSet(vec![SingleMatcher::Character('x')])
            .set_ordering(&Matcher::SingleMatcher(SingleMatcher::Category(CharacterCategory::Utf8Whitespace))),
        Some(Ordering::Greater)
    );
    // compare NegatedSet with NegatedSet
    assert_eq!(
        Matcher::NegatedSet(vec![SingleMatcher::Character('x')]).set_ordering(&Matcher::NegatedSet(vec![SingleMatcher::Character('a')])),
        None
    );
    assert_eq!(
        Matcher::NegatedSet(vec![
            SingleMatcher::Category(CharacterCategory::ASCIIAlphanumeric),
            SingleMatcher::Category(CharacterCategory::Utf8Whitespace)
        ])
        .set_ordering(&Matcher::NegatedSet(vec![
            SingleMatcher::Category(CharacterCategory::ASCIIWhitespace),
            SingleMatcher::Category(CharacterCategory::Utf8Alphanumeric)
        ])),
        None
    );
    assert_eq!(
        Matcher::NegatedSet(vec![SingleMatcher::Category(CharacterCategory::Utf8Whitespace)])
            .set_ordering(&Matcher::NegatedSet(vec![SingleMatcher::Category(CharacterCategory::ASCIIWhitespace)])),
        Some(Ordering::Less)
    );
    assert_eq!(
        Matcher::NegatedSet(vec![SingleMatcher::Category(CharacterCategory::ASCIIAlpha), SingleMatcher::Character('α')]).set_ordering(&Matcher::NegatedSet(
            vec![SingleMatcher::Category(CharacterCategory::Utf8Alpha), SingleMatcher::Category(CharacterCategory::ASCIILowercase)]
        )),
        Some(Ordering::Greater)
    );
    assert_eq!(
        Matcher::NegatedSet(vec![
            SingleMatcher::Character('a'),
            SingleMatcher::Character('b'),
            SingleMatcher::Character('c'),
            SingleMatcher::Category(CharacterCategory::Utf8Whitespace)
        ])
        .set_ordering(&Matcher::NegatedSet(vec![
            SingleMatcher::Character('c'),
            SingleMatcher::Category(CharacterCategory::Utf8Whitespace),
            SingleMatcher::Character('b'),
            SingleMatcher::Character('c'),
            SingleMatcher::Category(CharacterCategory::ASCIIWhitespace),
            SingleMatcher::Character('a'),
        ])),
        Some(Ordering::Equal)
    );
    assert_eq!(
        Matcher::NegatedSet(vec![
            SingleMatcher::Character('c'),
            SingleMatcher::Category(CharacterCategory::Utf8Whitespace),
            SingleMatcher::Character('b'),
            SingleMatcher::Character('c'),
            SingleMatcher::Category(CharacterCategory::ASCIIWhitespace),
            SingleMatcher::Character('a'),
        ])
        .set_ordering(&Matcher::NegatedSet(vec![
            SingleMatcher::Character('a'),
            SingleMatcher::Character('b'),
            SingleMatcher::Character('c'),
            SingleMatcher::Category(CharacterCategory::Utf8Whitespace)
        ])),
        Some(Ordering::Equal)
    );
}

#[derive(Clone, Copy)]
struct TwoDimensionalIntegerSet(i32, i32);

impl SetOrdering for TwoDimensionalIntegerSet {
    fn set_ordering(&self, other: &Self) -> Option<Ordering> {
        if self.0 == other.0 && self.1 == other.1 {
            return Some(Ordering::Equal);
        }
        if self.0 <= other.0 && self.1 <= other.1 {
            return Some(Ordering::Less);
        }
        if self.0 >= other.0 && self.1 >= other.1 {
            return Some(Ordering::Greater);
        }
        None
    }
}

#[test]
fn set_ordering_test() {

    // pairs of subset and superset
    let subset0 = (TwoDimensionalIntegerSet(0, -1), TwoDimensionalIntegerSet(0, 0));
    let subset1 = (TwoDimensionalIntegerSet(0, -1), TwoDimensionalIntegerSet(1, -1));
    let subset2 = (TwoDimensionalIntegerSet(0, -1), TwoDimensionalIntegerSet(1, 0));
    // pair of uncomparable structs
    let uncomparable = (TwoDimensionalIntegerSet(42, 24), TwoDimensionalIntegerSet(24, 42));
    // pair of equal structs
    let equal = (TwoDimensionalIntegerSet(42, 24), TwoDimensionalIntegerSet(42, 24));
    // pairs of superset and subset
    let superset0 = (TwoDimensionalIntegerSet(55, 666), TwoDimensionalIntegerSet(55, 0));
    let superset1 = (TwoDimensionalIntegerSet(55, 666), TwoDimensionalIntegerSet(0, 666));
    let superset2 = (TwoDimensionalIntegerSet(55, 666), TwoDimensionalIntegerSet(0, 0));

    assert_eq!(subset0.0.set_ordering(&subset0.1), Some(Ordering::Less));
    assert_eq!(subset1.0.set_ordering(&subset1.1), Some(Ordering::Less));
    assert_eq!(subset2.0.set_ordering(&subset2.1), Some(Ordering::Less));
    assert_eq!(uncomparable.0.set_ordering(&uncomparable.1), None);
    assert_eq!(equal.0.set_ordering(&equal.1), Some(Ordering::Equal));
    assert_eq!(
        superset0.0.set_ordering(&superset0.1),
        Some(Ordering::Greater)
    );
    assert_eq!(
        superset1.0.set_ordering(&superset1.1),
        Some(Ordering::Greater)
    );
    assert_eq!(
        superset2.0.set_ordering(&superset2.1),
        Some(Ordering::Greater)
    );
}

#[test]
fn is_subset_test() {

    // pairs of subset and superset
    let subset0 = (TwoDimensionalIntegerSet(0, -1), TwoDimensionalIntegerSet(0, 0));
    let subset1 = (TwoDimensionalIntegerSet(0, -1), TwoDimensionalIntegerSet(1, -1));
    let subset2 = (TwoDimensionalIntegerSet(0, -1), TwoDimensionalIntegerSet(1, 0));
    // pair of uncomparable structs
    let uncomparable = (TwoDimensionalIntegerSet(42, 24), TwoDimensionalIntegerSet(24, 42));
    // pair of equal structs
    let equal = (TwoDimensionalIntegerSet(42, 24), TwoDimensionalIntegerSet(42, 24));
    // pairs of superset and subset
    let superset0 = (TwoDimensionalIntegerSet(55, 666), TwoDimensionalIntegerSet(55, 0));
    let superset1 = (TwoDimensionalIntegerSet(55, 666), TwoDimensionalIntegerSet(0, 666));
    let superset2 = (TwoDimensionalIntegerSet(55, 666), TwoDimensionalIntegerSet(0, 0));

    assert!(subset0.0.is_subset(&subset0.1));
    assert!(subset1.0.is_subset(&subset1.1));
    assert!(subset2.0.is_subset(&subset2.1));
    assert!(!uncomparable.0.is_subset(&uncomparable.1));
    assert!(equal.0.is_subset(&equal.1));
    assert!(!superset0.0.is_subset(&superset0.1));
    assert!(!superset1.0.is_subset(&superset1.1));
    assert!(!superset2.0.is_subset(&superset2.1));
}

#[test]
fn is_strict_subset_test() {

    // pairs of subset and superset
    let subset0 = (TwoDimensionalIntegerSet(0, -1), TwoDimensionalIntegerSet(0, 0));
    let subset1 = (TwoDimensionalIntegerSet(0, -1), TwoDimensionalIntegerSet(1, -1));
    let subset2 = (TwoDimensionalIntegerSet(0, -1), TwoDimensionalIntegerSet(1, 0));
    // pair of uncomparable structs
    let uncomparable = (TwoDimensionalIntegerSet(42, 24), TwoDimensionalIntegerSet(24, 42));
    // pair of equal structs
    let equal = (TwoDimensionalIntegerSet(42, 24), TwoDimensionalIntegerSet(42, 24));
    // pairs of superset and subset
    let superset0 = (TwoDimensionalIntegerSet(55, 666), TwoDimensionalIntegerSet(55, 0));
    let superset1 = (TwoDimensionalIntegerSet(55, 666), TwoDimensionalIntegerSet(0, 666));
    let superset2 = (TwoDimensionalIntegerSet(55, 666), TwoDimensionalIntegerSet(0, 0));

    assert!(subset0.0.is_strict_subset(&subset0.1));
    assert!(subset1.0.is_strict_subset(&subset1.1));
    assert!(subset2.0.is_strict_subset(&subset2.1));
    assert!(!uncomparable.0.is_strict_subset(&uncomparable.1));
    assert!(!equal.0.is_strict_subset(&equal.1));
    assert!(!superset0.0.is_strict_subset(&superset0.1));
    assert!(!superset1.0.is_strict_subset(&superset1.1));
    assert!(!superset2.0.is_strict_subset(&superset2.1));
}

#[test]
fn is_uncomparable_test() {

    // pairs of subset and superset
    let subset0 = (TwoDimensionalIntegerSet(0, -1), TwoDimensionalIntegerSet(0, 0));
    let subset1 = (TwoDimensionalIntegerSet(0, -1), TwoDimensionalIntegerSet(1, -1));
    let subset2 = (TwoDimensionalIntegerSet(0, -1), TwoDimensionalIntegerSet(1, 0));
    // pair of uncomparable structs
    let uncomparable = (TwoDimensionalIntegerSet(42, 24), TwoDimensionalIntegerSet(24, 42));
    // pair of equal structs
    let equal = (TwoDimensionalIntegerSet(42, 24), TwoDimensionalIntegerSet(42, 24));
    // pairs of superset and subset
    let superset0 = (TwoDimensionalIntegerSet(55, 666), TwoDimensionalIntegerSet(55, 0));
    let superset1 = (TwoDimensionalIntegerSet(55, 666), TwoDimensionalIntegerSet(0, 666));
    let superset2 = (TwoDimensionalIntegerSet(55, 666), TwoDimensionalIntegerSet(0, 0));

    assert!(!subset0.0.is_uncomparable(&subset0.1));
    assert!(!subset1.0.is_uncomparable(&subset1.1));
    assert!(!subset2.0.is_uncomparable(&subset2.1));
    assert!(uncomparable.0.is_uncomparable(&uncomparable.1));
    assert!(!equal.0.is_uncomparable(&equal.1));
    assert!(!superset0.0.is_uncomparable(&superset0.1));
    assert!(!superset1.0.is_uncomparable(&superset1.1));
    assert!(!superset2.0.is_uncomparable(&superset2.1));
}

#[test]
fn is_equal_test() {

    // pairs of subset and superset
    let subset0 = (TwoDimensionalIntegerSet(0, -1), TwoDimensionalIntegerSet(0, 0));
    let subset1 = (TwoDimensionalIntegerSet(0, -1), TwoDimensionalIntegerSet(1, -1));
    let subset2 = (TwoDimensionalIntegerSet(0, -1), TwoDimensionalIntegerSet(1, 0));
    // pair of uncomparable structs
    let uncomparable = (TwoDimensionalIntegerSet(42, 24), TwoDimensionalIntegerSet(24, 42));
    // pair of equal structs
    let equal = (TwoDimensionalIntegerSet(42, 24), TwoDimensionalIntegerSet(42, 24));
    // pairs of superset and subset
    let superset0 = (TwoDimensionalIntegerSet(55, 666), TwoDimensionalIntegerSet(55, 0));
    let superset1 = (TwoDimensionalIntegerSet(55, 666), TwoDimensionalIntegerSet(0, 666));
    let superset2 = (TwoDimensionalIntegerSet(55, 666), TwoDimensionalIntegerSet(0, 0));

    assert!(!subset0.0.is_equal(&subset0.1));
    assert!(!subset1.0.is_equal(&subset1.1));
    assert!(!subset2.0.is_equal(&subset2.1));
    assert!(!uncomparable.0.is_equal(&uncomparable.1));
    assert!(equal.0.is_equal(&equal.1));
    assert!(!superset0.0.is_equal(&superset0.1));
    assert!(!superset1.0.is_equal(&superset1.1));
    assert!(!superset2.0.is_equal(&superset2.1));
}

#[test]
fn is_superset_test() {

    // pairs of subset and superset
    let subset0 = (TwoDimensionalIntegerSet(0, -1), TwoDimensionalIntegerSet(0, 0));
    let subset1 = (TwoDimensionalIntegerSet(0, -1), TwoDimensionalIntegerSet(1, -1));
    let subset2 = (TwoDimensionalIntegerSet(0, -1), TwoDimensionalIntegerSet(1, 0));
    // pair of uncomparable structs
    let uncomparable = (TwoDimensionalIntegerSet(42, 24), TwoDimensionalIntegerSet(24, 42));
    // pair of equal structs
    let equal = (TwoDimensionalIntegerSet(42, 24), TwoDimensionalIntegerSet(42, 24));
    // pairs of superset and subset
    let superset0 = (TwoDimensionalIntegerSet(55, 666), TwoDimensionalIntegerSet(55, 0));
    let superset1 = (TwoDimensionalIntegerSet(55, 666), TwoDimensionalIntegerSet(0, 666));
    let superset2 = (TwoDimensionalIntegerSet(55, 666), TwoDimensionalIntegerSet(0, 0));

    assert!(!subset0.0.is_superset(&subset0.1));
    assert!(!subset1.0.is_superset(&subset1.1));
    assert!(!subset2.0.is_superset(&subset2.1));
    assert!(!uncomparable.0.is_superset(&uncomparable.1));
    assert!(equal.0.is_superset(&equal.1));
    assert!(superset0.0.is_superset(&superset0.1));
    assert!(superset1.0.is_superset(&superset1.1));
    assert!(superset2.0.is_superset(&superset2.1));
}

#[test]
fn is_strict_superset_test() {

    // pairs of subset and superset
    let subset0 = (TwoDimensionalIntegerSet(0, -1), TwoDimensionalIntegerSet(0, 0));
    let subset1 = (TwoDimensionalIntegerSet(0, -1), TwoDimensionalIntegerSet(1, -1));
    let subset2 = (TwoDimensionalIntegerSet(0, -1), TwoDimensionalIntegerSet(1, 0));
    // pair of uncomparable structs
    let uncomparable = (TwoDimensionalIntegerSet(42, 24), TwoDimensionalIntegerSet(24, 42));
    // pair of equal structs
    let equal = (TwoDimensionalIntegerSet(42, 24), TwoDimensionalIntegerSet(42, 24));
    // pairs of superset and subset
    let superset0 = (TwoDimensionalIntegerSet(55, 666), TwoDimensionalIntegerSet(55, 0));
    let superset1 = (TwoDimensionalIntegerSet(55, 666), TwoDimensionalIntegerSet(0, 666));
    let superset2 = (TwoDimensionalIntegerSet(55, 666), TwoDimensionalIntegerSet(0, 0));

    assert!(!subset0.0.is_strict_superset(&subset0.1));
    assert!(!subset1.0.is_strict_superset(&subset1.1));
    assert!(!subset2.0.is_strict_superset(&subset2.1));
    assert!(!uncomparable.0.is_strict_superset(&uncomparable.1));
    assert!(!equal.0.is_strict_superset(&equal.1));
    assert!(superset0.0.is_strict_superset(&superset0.1));
    assert!(superset1.0.is_strict_superset(&superset1.1));
    assert!(superset2.0.is_strict_superset(&superset2.1));
}
