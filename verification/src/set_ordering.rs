//! A partial order over character matchers by set inclusion, used as the
//! overlap oracle when comparing automaton transitions.

use crate::matchers::{
    category_matches, single_matches, CharacterCategory, Matcher, SingleMatcher,
};
use std::cmp::Ordering;
use vstd::prelude::*;

verus! {

/// The fixed partial order of the built-in categories by set inclusion.
/// `Equal` arises only between identical tags; `Any` is the universal
/// superset of every category.
pub open spec fn spec_category_ordering(lhs: CharacterCategory, rhs: CharacterCategory) -> Option<
    Ordering,
> {
    if lhs == rhs {
        Some(Ordering::Equal)
    } else {
        match (lhs, rhs) {
            (CharacterCategory::Any, _) => Some(Ordering::Greater),
            (_, CharacterCategory::Any) => Some(Ordering::Less),
            // ASCIIAlphanumeric
            (CharacterCategory::ASCIIAlphanumeric, CharacterCategory::Utf8Alphanumeric) => Some(
                Ordering::Less,
            ),
            (CharacterCategory::ASCIIAlphanumeric, CharacterCategory::ASCIIAlpha)
            | (CharacterCategory::ASCIIAlphanumeric, CharacterCategory::ASCIIBinaryDigit)
            | (CharacterCategory::ASCIIAlphanumeric, CharacterCategory::ASCIIDigit)
            | (CharacterCategory::ASCIIAlphanumeric, CharacterCategory::ASCIIHexDigit)
            | (CharacterCategory::ASCIIAlphanumeric, CharacterCategory::ASCIILowercase)
            | (CharacterCategory::ASCIIAlphanumeric, CharacterCategory::ASCIIUppercase) => Some(
                Ordering::Greater,
            ),
            // ASCIIAlpha
            (CharacterCategory::ASCIIAlpha, CharacterCategory::ASCIIAlphanumeric)
            | (CharacterCategory::ASCIIAlpha, CharacterCategory::Utf8Alphanumeric)
            | (CharacterCategory::ASCIIAlpha, CharacterCategory::Utf8Alpha) => Some(
                Ordering::Less,
            ),
            (CharacterCategory::ASCIIAlpha, CharacterCategory::ASCIILowercase)
            | (CharacterCategory::ASCIIAlpha, CharacterCategory::ASCIIUppercase) => Some(
                Ordering::Greater,
            ),
            // ASCIIBinaryDigit
            (CharacterCategory::ASCIIBinaryDigit, CharacterCategory::ASCIIAlphanumeric)
            | (CharacterCategory::ASCIIBinaryDigit, CharacterCategory::ASCIIDigit)
            | (CharacterCategory::ASCIIBinaryDigit, CharacterCategory::ASCIIHexDigit)
            | (CharacterCategory::ASCIIBinaryDigit, CharacterCategory::Utf8Alphanumeric)
            | (CharacterCategory::ASCIIBinaryDigit, CharacterCategory::Utf8Numeric) => Some(
                Ordering::Less,
            ),
            // ASCIIDigit
            (CharacterCategory::ASCIIDigit, CharacterCategory::ASCIIAlphanumeric)
            | (CharacterCategory::ASCIIDigit, CharacterCategory::ASCIIHexDigit)
            | (CharacterCategory::ASCIIDigit, CharacterCategory::Utf8Alphanumeric)
            | (CharacterCategory::ASCIIDigit, CharacterCategory::Utf8Numeric) => Some(
                Ordering::Less,
            ),
            (CharacterCategory::ASCIIDigit, CharacterCategory::ASCIIBinaryDigit) => Some(
                Ordering::Greater,
            ),
            // ASCIIHexDigit
            (CharacterCategory::ASCIIHexDigit, CharacterCategory::ASCIIAlphanumeric)
            | (CharacterCategory::ASCIIHexDigit, CharacterCategory::Utf8Alphanumeric) => Some(
                Ordering::Less,
            ),
            (CharacterCategory::ASCIIHexDigit, CharacterCategory::ASCIIBinaryDigit)
            | (CharacterCategory::ASCIIHexDigit, CharacterCategory::ASCIIDigit) => Some(
                Ordering::Greater,
            ),
            // ASCIILowercase
            (CharacterCategory::ASCIILowercase, CharacterCategory::ASCIIAlphanumeric)
            | (CharacterCategory::ASCIILowercase, CharacterCategory::ASCIIAlpha)
            | (CharacterCategory::ASCIILowercase, CharacterCategory::Utf8Alphanumeric)
            | (CharacterCategory::ASCIILowercase, CharacterCategory::Utf8Alpha)
            | (CharacterCategory::ASCIILowercase, CharacterCategory::Utf8Lowercase) => Some(
                Ordering::Less,
            ),
            // ASCIIUppercase
            (CharacterCategory::ASCIIUppercase, CharacterCategory::ASCIIAlphanumeric)
            | (CharacterCategory::ASCIIUppercase, CharacterCategory::ASCIIAlpha)
            | (CharacterCategory::ASCIIUppercase, CharacterCategory::Utf8Alphanumeric)
            | (CharacterCategory::ASCIIUppercase, CharacterCategory::Utf8Alpha)
            | (CharacterCategory::ASCIIUppercase, CharacterCategory::Utf8Uppercase) => Some(
                Ordering::Less,
            ),
            // ASCIIWhitespace
            (CharacterCategory::ASCIIWhitespace, CharacterCategory::Utf8Whitespace) => Some(
                Ordering::Less,
            ),
            // Utf8Alphanumeric
            (CharacterCategory::Utf8Alphanumeric, CharacterCategory::ASCIIAlphanumeric)
            | (CharacterCategory::Utf8Alphanumeric, CharacterCategory::ASCIIAlpha)
            | (CharacterCategory::Utf8Alphanumeric, CharacterCategory::ASCIIBinaryDigit)
            | (CharacterCategory::Utf8Alphanumeric, CharacterCategory::ASCIIDigit)
            | (CharacterCategory::Utf8Alphanumeric, CharacterCategory::ASCIIHexDigit)
            | (CharacterCategory::Utf8Alphanumeric, CharacterCategory::ASCIILowercase)
            | (CharacterCategory::Utf8Alphanumeric, CharacterCategory::ASCIIUppercase)
            | (CharacterCategory::Utf8Alphanumeric, CharacterCategory::Utf8Alpha)
            | (CharacterCategory::Utf8Alphanumeric, CharacterCategory::Utf8Lowercase)
            | (CharacterCategory::Utf8Alphanumeric, CharacterCategory::Utf8Numeric)
            | (CharacterCategory::Utf8Alphanumeric, CharacterCategory::Utf8Uppercase) => Some(
                Ordering::Greater,
            ),
            // Utf8Alpha
            (CharacterCategory::Utf8Alpha, CharacterCategory::Utf8Alphanumeric) => Some(
                Ordering::Less,
            ),
            (CharacterCategory::Utf8Alpha, CharacterCategory::ASCIIAlpha)
            | (CharacterCategory::Utf8Alpha, CharacterCategory::ASCIILowercase)
            | (CharacterCategory::Utf8Alpha, CharacterCategory::ASCIIUppercase)
            | (CharacterCategory::Utf8Alpha, CharacterCategory::Utf8Lowercase)
            | (CharacterCategory::Utf8Alpha, CharacterCategory::Utf8Uppercase) => Some(
                Ordering::Greater,
            ),
            // Utf8Lowercase
            (CharacterCategory::Utf8Lowercase, CharacterCategory::Utf8Alphanumeric)
            | (CharacterCategory::Utf8Lowercase, CharacterCategory::Utf8Alpha) => Some(
                Ordering::Less,
            ),
            (CharacterCategory::Utf8Lowercase, CharacterCategory::ASCIILowercase) => Some(
                Ordering::Greater,
            ),
            // Utf8Numeric
            (CharacterCategory::Utf8Numeric, CharacterCategory::Utf8Alphanumeric) => Some(
                Ordering::Less,
            ),
            (CharacterCategory::Utf8Numeric, CharacterCategory::ASCIIBinaryDigit)
            | (CharacterCategory::Utf8Numeric, CharacterCategory::ASCIIDigit) => Some(
                Ordering::Greater,
            ),
            // Utf8Uppercase
            (CharacterCategory::Utf8Uppercase, CharacterCategory::Utf8Alphanumeric)
            | (CharacterCategory::Utf8Uppercase, CharacterCategory::Utf8Alpha) => Some(
                Ordering::Less,
            ),
            (CharacterCategory::Utf8Uppercase, CharacterCategory::ASCIIUppercase) => Some(
                Ordering::Greater,
            ),
            // Utf8Whitespace
            (CharacterCategory::Utf8Whitespace, CharacterCategory::ASCIIWhitespace) => Some(
                Ordering::Greater,
            ),
            _ => None,
        }
    }
}

/// The partial order of single matchers by set inclusion: two literal
/// characters are only comparable when equal, a character sits below every
/// category that matches it, and categories follow the fixed table.
pub open spec fn spec_single_ordering(lhs: SingleMatcher, rhs: SingleMatcher) -> Option<Ordering> {
    match (lhs, rhs) {
        (SingleMatcher::Character(x), SingleMatcher::Character(y)) => if x == y {
            Some(Ordering::Equal)
        } else {
            None
        },
        (SingleMatcher::Character(x), SingleMatcher::Category(c)) => if category_matches(c, x) {
            Some(Ordering::Less)
        } else {
            None
        },
        (SingleMatcher::Category(c), SingleMatcher::Character(x)) => if category_matches(c, x) {
            Some(Ordering::Greater)
        } else {
            None
        },
        (SingleMatcher::Category(c1), SingleMatcher::Category(c2)) => spec_category_ordering(
            c1,
            c2,
        ),
    }
}

/// Subset-or-equal between single matchers.
pub open spec fn single_le(lhs: SingleMatcher, rhs: SingleMatcher) -> bool {
    spec_single_ordering(lhs, rhs) == Some(Ordering::Less) || spec_single_ordering(lhs, rhs)
        == Some(Ordering::Equal)
}

/// `m` is subset-or-equal to some member of `set`.
pub open spec fn le_member(m: SingleMatcher, set: Seq<SingleMatcher>) -> bool {
    exists|j: int| 0 <= j < set.len() && single_le(m, #[trigger] set[j])
}

/// Every member of `lhs` is subset-or-equal to some member of `rhs`, so the
/// union of `lhs` is contained in the union of `rhs`.
pub open spec fn excluded_covered(lhs: Seq<SingleMatcher>, rhs: Seq<SingleMatcher>) -> bool {
    forall|i: int| 0 <= i < lhs.len() ==> le_member(#[trigger] lhs[i], rhs)
}

/// A single matcher is comparable to some member of the excluded set.
pub open spec fn some_member_comparable(s: SingleMatcher, set: Seq<SingleMatcher>) -> bool {
    exists|i: int| 0 <= i < set.len() && spec_single_ordering(s, #[trigger] set[i]) is Some
}

/// The partial order of matchers by set inclusion. A single matcher sits
/// strictly below a negated set whenever no excluded member overlaps it;
/// negated sets are compared by containment of their exclusion sets.
pub open spec fn spec_matcher_ordering(lhs: Matcher, rhs: Matcher) -> Option<Ordering> {
    match (lhs, rhs) {
        (Matcher::SingleMatcher(x), Matcher::SingleMatcher(y)) => spec_single_ordering(x, y),
        (Matcher::SingleMatcher(s), Matcher::NegatedSet(set)) => if some_member_comparable(
            s,
            set@,
        ) {
            None
        } else {
            Some(Ordering::Less)
        },
        (Matcher::NegatedSet(set), Matcher::SingleMatcher(s)) => if some_member_comparable(
            s,
            set@,
        ) {
            None
        } else {
            Some(Ordering::Greater)
        },
        (Matcher::NegatedSet(l), Matcher::NegatedSet(r)) => {
            match (excluded_covered(l@, r@), excluded_covered(r@, l@)) {
                (true, true) => Some(Ordering::Equal),
                (true, false) => Some(Ordering::Greater),
                (false, true) => Some(Ordering::Less),
                (false, false) => None,
            }
        },
    }
}

/// A partial set ordering trait.
///
/// By implementing `set_ordering`, we get subset and superset predicates for
/// free. In some cases, we may want to provide a total ordering for storing
/// sets in maps, but we may still need to determine when they are subsets of
/// each other.
pub trait SetOrdering {
    /// Determines the ordering of the two sets.
    fn set_ordering(&self, other: &Self) -> Option<Ordering>;

    /// Returns true if the left hand side is a subset of the right hand side.
    fn is_subset(&self, other: &Self) -> bool {
        match self.set_ordering(other) {
            Some(Ordering::Less) | Some(Ordering::Equal) => true,
            _ => false,
        }
    }

    /// Returns true if the left hand side is a strict subset of the right hand side.
    fn is_strict_subset(&self, other: &Self) -> bool {
        match self.set_ordering(other) {
            Some(Ordering::Less) => true,
            _ => false,
        }
    }

    /// Returns true if the two sets are not comparable.
    fn is_uncomparable(&self, other: &Self) -> bool {
        match self.set_ordering(other) {
            None => true,
            _ => false,
        }
    }

    /// Returns true if the two sets are equal.
    fn is_equal(&self, other: &Self) -> bool {
        match self.set_ordering(other) {
            Some(Ordering::Equal) => true,
            _ => false,
        }
    }

    /// Returns true if the left hand side is a superset of the right hand side.
    fn is_superset(&self, other: &Self) -> bool {
        match self.set_ordering(other) {
            Some(Ordering::Greater) | Some(Ordering::Equal) => true,
            _ => false,
        }
    }

    /// Returns true if the left hand side is a strict superset of the right hand side.
    fn is_strict_superset(&self, other: &Self) -> bool {
        match self.set_ordering(other) {
            Some(Ordering::Greater) => true,
            _ => false,
        }
    }
}

impl SetOrdering for CharacterCategory {
    /// The set ordering for character categories, following the fixed table.
    fn set_ordering(&self, other: &Self) -> (r: Option<Ordering>)
        ensures
            r == spec_category_ordering(*self, *other),
    {
        if self == other {
            return Some(Ordering::Equal);
        }
        match (self, other) {
            (CharacterCategory::Any, _) => Some(Ordering::Greater),
            (_, CharacterCategory::Any) => Some(Ordering::Less),
            (CharacterCategory::ASCIIAlphanumeric, CharacterCategory::Utf8Alphanumeric) => Some(
                Ordering::Less,
            ),
            (CharacterCategory::ASCIIAlphanumeric, CharacterCategory::ASCIIAlpha)
            | (CharacterCategory::ASCIIAlphanumeric, CharacterCategory::ASCIIBinaryDigit)
            | (CharacterCategory::ASCIIAlphanumeric, CharacterCategory::ASCIIDigit)
            | (CharacterCategory::ASCIIAlphanumeric, CharacterCategory::ASCIIHexDigit)
            | (CharacterCategory::ASCIIAlphanumeric, CharacterCategory::ASCIILowercase)
            | (CharacterCategory::ASCIIAlphanumeric, CharacterCategory::ASCIIUppercase) => Some(
                Ordering::Greater,
            ),
            (CharacterCategory::ASCIIAlpha, CharacterCategory::ASCIIAlphanumeric)
            | (CharacterCategory::ASCIIAlpha, CharacterCategory::Utf8Alphanumeric)
            | (CharacterCategory::ASCIIAlpha, CharacterCategory::Utf8Alpha) => Some(
                Ordering::Less,
            ),
            (CharacterCategory::ASCIIAlpha, CharacterCategory::ASCIILowercase)
            | (CharacterCategory::ASCIIAlpha, CharacterCategory::ASCIIUppercase) => Some(
                Ordering::Greater,
            ),
            (CharacterCategory::ASCIIBinaryDigit, CharacterCategory::ASCIIAlphanumeric)
            | (CharacterCategory::ASCIIBinaryDigit, CharacterCategory::ASCIIDigit)
            | (CharacterCategory::ASCIIBinaryDigit, CharacterCategory::ASCIIHexDigit)
            | (CharacterCategory::ASCIIBinaryDigit, CharacterCategory::Utf8Alphanumeric)
            | (CharacterCategory::ASCIIBinaryDigit, CharacterCategory::Utf8Numeric) => Some(
                Ordering::Less,
            ),
            (CharacterCategory::ASCIIDigit, CharacterCategory::ASCIIAlphanumeric)
            | (CharacterCategory::ASCIIDigit, CharacterCategory::ASCIIHexDigit)
            | (CharacterCategory::ASCIIDigit, CharacterCategory::Utf8Alphanumeric)
            | (CharacterCategory::ASCIIDigit, CharacterCategory::Utf8Numeric) => Some(
                Ordering::Less,
            ),
            (CharacterCategory::ASCIIDigit, CharacterCategory::ASCIIBinaryDigit) => Some(
                Ordering::Greater,
            ),
            (CharacterCategory::ASCIIHexDigit, CharacterCategory::ASCIIAlphanumeric)
            | (CharacterCategory::ASCIIHexDigit, CharacterCategory::Utf8Alphanumeric) => Some(
                Ordering::Less,
            ),
            (CharacterCategory::ASCIIHexDigit, CharacterCategory::ASCIIBinaryDigit)
            | (CharacterCategory::ASCIIHexDigit, CharacterCategory::ASCIIDigit) => Some(
                Ordering::Greater,
            ),
            (CharacterCategory::ASCIILowercase, CharacterCategory::ASCIIAlphanumeric)
            | (CharacterCategory::ASCIILowercase, CharacterCategory::ASCIIAlpha)
            | (CharacterCategory::ASCIILowercase, CharacterCategory::Utf8Alphanumeric)
            | (CharacterCategory::ASCIILowercase, CharacterCategory::Utf8Alpha)
            | (CharacterCategory::ASCIILowercase, CharacterCategory::Utf8Lowercase) => Some(
                Ordering::Less,
            ),
            (CharacterCategory::ASCIIUppercase, CharacterCategory::ASCIIAlphanumeric)
            | (CharacterCategory::ASCIIUppercase, CharacterCategory::ASCIIAlpha)
            | (CharacterCategory::ASCIIUppercase, CharacterCategory::Utf8Alphanumeric)
            | (CharacterCategory::ASCIIUppercase, CharacterCategory::Utf8Alpha)
            | (CharacterCategory::ASCIIUppercase, CharacterCategory::Utf8Uppercase) => Some(
                Ordering::Less,
            ),
            (CharacterCategory::ASCIIWhitespace, CharacterCategory::Utf8Whitespace) => Some(
                Ordering::Less,
            ),
            (CharacterCategory::Utf8Alphanumeric, CharacterCategory::ASCIIAlphanumeric)
            | (CharacterCategory::Utf8Alphanumeric, CharacterCategory::ASCIIAlpha)
            | (CharacterCategory::Utf8Alphanumeric, CharacterCategory::ASCIIBinaryDigit)
            | (CharacterCategory::Utf8Alphanumeric, CharacterCategory::ASCIIDigit)
            | (CharacterCategory::Utf8Alphanumeric, CharacterCategory::ASCIIHexDigit)
            | (CharacterCategory::Utf8Alphanumeric, CharacterCategory::ASCIILowercase)
            | (CharacterCategory::Utf8Alphanumeric, CharacterCategory::ASCIIUppercase)
            | (CharacterCategory::Utf8Alphanumeric, CharacterCategory::Utf8Alpha)
            | (CharacterCategory::Utf8Alphanumeric, CharacterCategory::Utf8Lowercase)
            | (CharacterCategory::Utf8Alphanumeric, CharacterCategory::Utf8Numeric)
            | (CharacterCategory::Utf8Alphanumeric, CharacterCategory::Utf8Uppercase) => Some(
                Ordering::Greater,
            ),
            (CharacterCategory::Utf8Alpha, CharacterCategory::Utf8Alphanumeric) => Some(
                Ordering::Less,
            ),
            (CharacterCategory::Utf8Alpha, CharacterCategory::ASCIIAlpha)
            | (CharacterCategory::Utf8Alpha, CharacterCategory::ASCIILowercase)
            | (CharacterCategory::Utf8Alpha, CharacterCategory::ASCIIUppercase)
            | (CharacterCategory::Utf8Alpha, CharacterCategory::Utf8Lowercase)
            | (CharacterCategory::Utf8Alpha, CharacterCategory::Utf8Uppercase) => Some(
                Ordering::Greater,
            ),
            (CharacterCategory::Utf8Lowercase, CharacterCategory::Utf8Alphanumeric)
            | (CharacterCategory::Utf8Lowercase, CharacterCategory::Utf8Alpha) => Some(
                Ordering::Less,
            ),
            (CharacterCategory::Utf8Lowercase, CharacterCategory::ASCIILowercase) => Some(
                Ordering::Greater,
            ),
            (CharacterCategory::Utf8Numeric, CharacterCategory::Utf8Alphanumeric) => Some(
                Ordering::Less,
            ),
            (CharacterCategory::Utf8Numeric, CharacterCategory::ASCIIBinaryDigit)
            | (CharacterCategory::Utf8Numeric, CharacterCategory::ASCIIDigit) => Some(
                Ordering::Greater,
            ),
            (CharacterCategory::Utf8Uppercase, CharacterCategory::Utf8Alphanumeric)
            | (CharacterCategory::Utf8Uppercase, CharacterCategory::Utf8Alpha) => Some(
                Ordering::Less,
            ),
            (CharacterCategory::Utf8Uppercase, CharacterCategory::ASCIIUppercase) => Some(
                Ordering::Greater,
            ),
            (CharacterCategory::Utf8Whitespace, CharacterCategory::ASCIIWhitespace) => Some(
                Ordering::Greater,
            ),
            _ => None,
        }
    }
}

impl SetOrdering for SingleMatcher {
    /// Character matchers are only comparable if they match the same
    /// character. A character matcher is a subset of a category if the
    /// matched character belongs to the category. Finally, two categories
    /// are compared based on their character sets.
    fn set_ordering(&self, other: &Self) -> (r: Option<Ordering>)
        ensures
            r == spec_single_ordering(*self, *other),
    {
        match (*self, *other) {
            (SingleMatcher::Character(x), SingleMatcher::Character(y)) => {
                if x == y {
                    Some(Ordering::Equal)
                } else {
                    None
                }
            },
            (SingleMatcher::Character(character), SingleMatcher::Category(category)) => {
                if category.is_matching(character) {
                    Some(Ordering::Less)
                } else {
                    None
                }
            },
            (SingleMatcher::Category(category), SingleMatcher::Character(character)) => {
                if category.is_matching(character) {
                    Some(Ordering::Greater)
                } else {
                    None
                }
            },
            (SingleMatcher::Category(category1), SingleMatcher::Category(category2)) => category1
                .set_ordering(&category2),
        }
    }
}

/// Whether `single` is comparable to any member of the excluded set.
fn any_comparable(single: SingleMatcher, set: &Vec<SingleMatcher>) -> (r: bool)
    ensures
        r == some_member_comparable(single, set@),
{
    let mut i: usize = 0;
    while i < set.len()
        invariant
            0 <= i <= set@.len(),
            forall|j: int| 0 <= j < i ==> spec_single_ordering(single, #[trigger] set@[j]) is None,
        decreases set@.len() - i,
    {
        if single.set_ordering(&set[i]).is_some() {
            proof {
                assert(spec_single_ordering(single, set@[i as int]) is Some);
            }
            return true;
        }
        i = i + 1;
    }
    false
}

/// Whether `m` is subset-or-equal to some member of `set`.
fn le_some(m: SingleMatcher, set: &Vec<SingleMatcher>) -> (r: bool)
    ensures
        r == le_member(m, set@),
{
    let mut j: usize = 0;
    while j < set.len()
        invariant
            0 <= j <= set@.len(),
            forall|k: int| 0 <= k < j ==> !single_le(m, #[trigger] set@[k]),
        decreases set@.len() - j,
    {
        match m.set_ordering(&set[j]) {
            Some(Ordering::Less) | Some(Ordering::Equal) => {
                proof {
                    assert(single_le(m, set@[j as int]));
                }
                return true;
            },
            _ => {
                j = j + 1;
            },
        }
    }
    false
}

/// Whether every member of `lhs` is subset-or-equal to some member of `rhs`.
fn covered_by(lhs: &Vec<SingleMatcher>, rhs: &Vec<SingleMatcher>) -> (r: bool)
    ensures
        r == excluded_covered(lhs@, rhs@),
{
    let mut i: usize = 0;
    while i < lhs.len()
        invariant
            0 <= i <= lhs@.len(),
            forall|k: int| 0 <= k < i ==> le_member(#[trigger] lhs@[k], rhs@),
        decreases lhs@.len() - i,
    {
        if !le_some(lhs[i], rhs) {
            proof {
                assert(!le_member(lhs@[i as int], rhs@));
            }
            return false;
        }
        i = i + 1;
    }
    true
}

impl SetOrdering for Matcher {
    /// The set ordering of full matchers: single matchers follow their own
    /// order; a single matcher that overlaps no excluded member is a strict
    /// subset of the negated set; negated sets are compared by containment
    /// of their exclusion sets.
    fn set_ordering(&self, other: &Self) -> (r: Option<Ordering>)
        ensures
            r == spec_matcher_ordering(*self, *other),
    {
        match (self, other) {
            (Matcher::SingleMatcher(lhs), Matcher::SingleMatcher(rhs)) => lhs.set_ordering(rhs),
            (Matcher::SingleMatcher(single), Matcher::NegatedSet(negated_set)) => {
                // if any subset of the category is excluded, the negated set is not comparable
                if any_comparable(*single, negated_set) {
                    None
                } else {
                    Some(Ordering::Less)
                }
            },
            (Matcher::NegatedSet(negated_set), Matcher::SingleMatcher(single)) => {
                // if any subset of the category is excluded, the negated set is not comparable
                if any_comparable(*single, negated_set) {
                    None
                } else {
                    Some(Ordering::Greater)
                }
            },
            (Matcher::NegatedSet(lhs), Matcher::NegatedSet(rhs)) => {
                // if lhs excludes equal sets or subsets only,
                // it excludes the same number or fewer characters
                match (covered_by(lhs, rhs), covered_by(rhs, lhs)) {
                    (true, true) => Some(Ordering::Equal),
                    (true, false) => Some(Ordering::Greater),
                    (false, true) => Some(Ordering::Less),
                    (false, false) => None,
                }
            },
        }
    }

    /// Returns true if the left hand side is a subset of the right hand side.
    fn is_subset(&self, other: &Self) -> (r: bool)
        ensures
            r == (spec_matcher_ordering(*self, *other) == Some(Ordering::Less)
                || spec_matcher_ordering(*self, *other) == Some(Ordering::Equal)),
    {
        match self.set_ordering(other) {
            Some(Ordering::Less) | Some(Ordering::Equal) => true,
            _ => false,
        }
    }

    /// Returns true if the left hand side is a strict subset of the right hand side.
    fn is_strict_subset(&self, other: &Self) -> (r: bool)
        ensures
            r == (spec_matcher_ordering(*self, *other) == Some(Ordering::Less)),
    {
        match self.set_ordering(other) {
            Some(Ordering::Less) => true,
            _ => false,
        }
    }

    /// Returns true if the two sets are not comparable.
    fn is_uncomparable(&self, other: &Self) -> (r: bool)
        ensures
            r == (spec_matcher_ordering(*self, *other) is None),
    {
        match self.set_ordering(other) {
            None => true,
            _ => false,
        }
    }

    /// Returns true if the two sets are equal.
    fn is_equal(&self, other: &Self) -> (r: bool)
        ensures
            r == (spec_matcher_ordering(*self, *other) == Some(Ordering::Equal)),
    {
        match self.set_ordering(other) {
            Some(Ordering::Equal) => true,
            _ => false,
        }
    }

    /// Returns true if the left hand side is a superset of the right hand side.
    fn is_superset(&self, other: &Self) -> (r: bool)
        ensures
            r == (spec_matcher_ordering(*self, *other) == Some(Ordering::Greater)
                || spec_matcher_ordering(*self, *other) == Some(Ordering::Equal)),
    {
        match self.set_ordering(other) {
            Some(Ordering::Greater) | Some(Ordering::Equal) => true,
            _ => false,
        }
    }

    /// Returns true if the left hand side is a strict superset of the right hand side.
    fn is_strict_superset(&self, other: &Self) -> (r: bool)
        ensures
            r == (spec_matcher_ordering(*self, *other) == Some(Ordering::Greater)),
    {
        match self.set_ordering(other) {
            Some(Ordering::Greater) => true,
            _ => false,
        }
    }
}

/// `Equal` in the category table arises exactly between identical tags.
pub proof fn lemma_category_ordering_equal(lhs: CharacterCategory, rhs: CharacterCategory)
    ensures
        (spec_category_ordering(lhs, rhs) == Some(Ordering::Equal)) <==> lhs == rhs,
{
}

/// The category table orders every category at-or-below itself.
pub proof fn lemma_category_ordering_reflexive(cat: CharacterCategory)
    ensures
        spec_category_ordering(cat, cat) == Some(Ordering::Equal),
{
}

/// The category table is antisymmetric: it answers `Less` one way exactly
/// when it answers `Greater` the other way.
pub proof fn lemma_category_ordering_antisymmetric(lhs: CharacterCategory, rhs: CharacterCategory)
    ensures
        (spec_category_ordering(lhs, rhs) == Some(Ordering::Less)) <==> (spec_category_ordering(
            rhs,
            lhs,
        ) == Some(Ordering::Greater)),
        (spec_category_ordering(lhs, rhs) is None) <==> (spec_category_ordering(rhs, lhs) is None),
{
}

/// Subset-or-equal in the category table.
pub open spec fn category_le(lhs: CharacterCategory, rhs: CharacterCategory) -> bool {
    spec_category_ordering(lhs, rhs) == Some(Ordering::Less) || spec_category_ordering(lhs, rhs)
        == Some(Ordering::Equal)
}

/// The category table is transitive along subset-or-equal chains, e.g.
/// ASCII digits sit below ASCII alphanumerics, which sit below Unicode
/// alphanumerics.
#[verifier::rlimit(100)]
pub proof fn lemma_category_ordering_transitive(
    a: CharacterCategory,
    b: CharacterCategory,
    c: CharacterCategory,
)
    requires
        category_le(a, b),
        category_le(b, c),
    ensures
        category_le(a, c),
{
}

/// The category table is sound for subset reasoning: when it orders `lhs`
/// at-or-below `rhs`, every character matched by `lhs` is matched by `rhs`.
#[verifier::rlimit(100)]
pub proof fn lemma_category_ordering_sound(
    lhs: CharacterCategory,
    rhs: CharacterCategory,
    c: char,
)
    requires
        category_le(lhs, rhs),
        category_matches(lhs, c),
    ensures
        category_matches(rhs, c),
{
}

/// Subset-or-equal between single matchers is transitive.
pub proof fn lemma_single_le_transitive(x: SingleMatcher, y: SingleMatcher, z: SingleMatcher)
    requires
        single_le(x, y),
        single_le(y, z),
    ensures
        single_le(x, z),
{
    match (x, y, z) {
        (SingleMatcher::Character(a), SingleMatcher::Category(c1), SingleMatcher::Category(c2)) => {
            lemma_category_ordering_sound(c1, c2, a);
        },
        (SingleMatcher::Category(c1), SingleMatcher::Category(c2), SingleMatcher::Category(c3)) => {
            lemma_category_ordering_transitive(c1, c2, c3);
        },
        _ => {},
    }
}

/// Every matcher compares equal to itself: `set_ordering(a, a)` is `Equal`.
pub proof fn lemma_set_ordering_reflexive(m: &Matcher)
    ensures
        spec_matcher_ordering(*m, *m) == Some(Ordering::Equal),
{
    match m {
        Matcher::SingleMatcher(s) => {
            match s {
                SingleMatcher::Category(c) => {
                    lemma_category_ordering_reflexive(*c);
                },
                _ => {},
            }
        },
        Matcher::NegatedSet(set) => {
            assert forall|i: int| 0 <= i < set@.len() implies le_member(#[trigger] set@[i], set@) by {
                match set@[i] {
                    SingleMatcher::Category(c) => {
                        lemma_category_ordering_reflexive(c);
                    },
                    _ => {},
                }
                assert(single_le(set@[i], set@[i]));
            }
            assert(excluded_covered(set@, set@));
        },
    }
}

/// The matcher ordering is antisymmetric: `set_ordering(a, b)` is `Less`
/// exactly when `set_ordering(b, a)` is `Greater`, and `Equal` is mutual.
pub proof fn lemma_set_ordering_antisymmetric(a: &Matcher, b: &Matcher)
    ensures
        (spec_matcher_ordering(*a, *b) == Some(Ordering::Less)) <==> (spec_matcher_ordering(*b, *a)
            == Some(Ordering::Greater)),
        (spec_matcher_ordering(*a, *b) == Some(Ordering::Equal)) <==> (spec_matcher_ordering(
            *b,
            *a,
        ) == Some(Ordering::Equal)),
{
    match (a, b) {
        (Matcher::SingleMatcher(x), Matcher::SingleMatcher(y)) => {
            match (x, y) {
                (SingleMatcher::Category(c1), SingleMatcher::Category(c2)) => {
                    lemma_category_ordering_antisymmetric(*c1, *c2);
                    lemma_category_ordering_equal(*c1, *c2);
                    lemma_category_ordering_equal(*c2, *c1);
                },
                _ => {},
            }
        },
        _ => {},
    }
}

/// Equality of matchers under `set_ordering` is transitive.
pub proof fn lemma_set_ordering_equal_transitive(a: &Matcher, b: &Matcher, c: &Matcher)
    requires
        spec_matcher_ordering(*a, *b) == Some(Ordering::Equal),
        spec_matcher_ordering(*b, *c) == Some(Ordering::Equal),
    ensures
        spec_matcher_ordering(*a, *c) == Some(Ordering::Equal),
{
    match (a, b, c) {
        (Matcher::SingleMatcher(x), Matcher::SingleMatcher(y), Matcher::SingleMatcher(z)) => {
            match (x, y) {
                (SingleMatcher::Category(c1), SingleMatcher::Category(c2)) => {
                    lemma_category_ordering_equal(*c1, *c2);
                },
                _ => {},
            }
            match (y, z) {
                (SingleMatcher::Category(c2), SingleMatcher::Category(c3)) => {
                    lemma_category_ordering_equal(*c2, *c3);
                },
                _ => {},
            }
            match (x, z) {
                (SingleMatcher::Category(c1), SingleMatcher::Category(c3)) => {
                    lemma_category_ordering_equal(*c1, *c3);
                },
                _ => {},
            }
        },
        (Matcher::NegatedSet(l), Matcher::NegatedSet(m), Matcher::NegatedSet(r)) => {
            lemma_excluded_covered_transitive(l@, m@, r@);
            lemma_excluded_covered_transitive(r@, m@, l@);
        },
        _ => {},
    }
}

/// Coverage of exclusion sets is transitive.
proof fn lemma_excluded_covered_transitive(
    a: Seq<SingleMatcher>,
    b: Seq<SingleMatcher>,
    c: Seq<SingleMatcher>,
)
    requires
        excluded_covered(a, b),
        excluded_covered(b, c),
    ensures
        excluded_covered(a, c),
{
    assert forall|i: int| 0 <= i < a.len() implies le_member(#[trigger] a[i], c) by {
        assert(le_member(a[i], b));
        let j = choose|j: int| 0 <= j < b.len() && single_le(a[i], #[trigger] b[j]);
        assert(le_member(b[j], c));
        let k = choose|k: int| 0 <= k < c.len() && single_le(b[j], #[trigger] c[k]);
        lemma_single_le_transitive(a[i], b[j], c[k]);
        assert(single_le(a[i], c[k]));
    }
}

} // verus!
