//! The built-in character categories, keyed by the names a specification
//! may refer to.

use crate::matchers::CharacterCategory;
use vstd::prelude::*;

verus! {

/// The name-to-category table of the built-in categories.
pub fn builtin_categories() -> (r: Vec<(&'static str, CharacterCategory)>)
    ensures
        r@.len() == 14,
        r@[0].0@ == "lower"@ && r@[0].1 == CharacterCategory::Utf8Lowercase,
        r@[1].0@ == "upper"@ && r@[1].1 == CharacterCategory::Utf8Uppercase,
        r@[2].0@ == "alpha"@ && r@[2].1 == CharacterCategory::Utf8Alpha,
        r@[3].0@ == "alnum"@ && r@[3].1 == CharacterCategory::Utf8Alphanumeric,
        r@[4].0@ == "digit"@ && r@[4].1 == CharacterCategory::Utf8Numeric,
        r@[5].0@ == "whitespace"@ && r@[5].1 == CharacterCategory::Utf8Whitespace,
        r@[6].0@ == "a-z"@ && r@[6].1 == CharacterCategory::ASCIILowercase,
        r@[7].0@ == "A-Z"@ && r@[7].1 == CharacterCategory::ASCIIUppercase,
        r@[8].0@ == "a-Z"@ && r@[8].1 == CharacterCategory::ASCIIAlpha,
        r@[9].0@ == "0-Z"@ && r@[9].1 == CharacterCategory::ASCIIAlphanumeric,
        r@[10].0@ == "0b"@ && r@[10].1 == CharacterCategory::ASCIIBinaryDigit,
        r@[11].0@ == "0-9"@ && r@[11].1 == CharacterCategory::ASCIIDigit,
        r@[12].0@ == "0x"@ && r@[12].1 == CharacterCategory::ASCIIHexDigit,
        r@[13].0@ == " "@ && r@[13].1 == CharacterCategory::ASCIIWhitespace,
{
    let mut categories: Vec<(&'static str, CharacterCategory)> = Vec::new();
    categories.push(("lower", CharacterCategory::Utf8Lowercase));
    categories.push(("upper", CharacterCategory::Utf8Uppercase));
    categories.push(("alpha", CharacterCategory::Utf8Alpha));
    categories.push(("alnum", CharacterCategory::Utf8Alphanumeric));
    categories.push(("digit", CharacterCategory::Utf8Numeric));
    categories.push(("whitespace", CharacterCategory::Utf8Whitespace));
    categories.push(("a-z", CharacterCategory::ASCIILowercase));
    categories.push(("A-Z", CharacterCategory::ASCIIUppercase));
    categories.push(("a-Z", CharacterCategory::ASCIIAlpha));
    categories.push(("0-Z", CharacterCategory::ASCIIAlphanumeric));
    categories.push(("0b", CharacterCategory::ASCIIBinaryDigit));
    categories.push(("0-9", CharacterCategory::ASCIIDigit));
    categories.push(("0x", CharacterCategory::ASCIIHexDigit));
    categories.push((" ", CharacterCategory::ASCIIWhitespace));
    categories
}

/// The built-in category a name denotes, if any: the fixed table as a
/// lookup function.
pub open spec fn spec_builtin_of(name: Seq<char>) -> Option<CharacterCategory> {
    if name == "lower"@ {
        Some(CharacterCategory::Utf8Lowercase)
    } else if name == "upper"@ {
        Some(CharacterCategory::Utf8Uppercase)
    } else if name == "alpha"@ {
        Some(CharacterCategory::Utf8Alpha)
    } else if name == "alnum"@ {
        Some(CharacterCategory::Utf8Alphanumeric)
    } else if name == "digit"@ {
        Some(CharacterCategory::Utf8Numeric)
    } else if name == "whitespace"@ {
        Some(CharacterCategory::Utf8Whitespace)
    } else if name == "a-z"@ {
        Some(CharacterCategory::ASCIILowercase)
    } else if name == "A-Z"@ {
        Some(CharacterCategory::ASCIIUppercase)
    } else if name == "a-Z"@ {
        Some(CharacterCategory::ASCIIAlpha)
    } else if name == "0-Z"@ {
        Some(CharacterCategory::ASCIIAlphanumeric)
    } else if name == "0b"@ {
        Some(CharacterCategory::ASCIIBinaryDigit)
    } else if name == "0-9"@ {
        Some(CharacterCategory::ASCIIDigit)
    } else if name == "0x"@ {
        Some(CharacterCategory::ASCIIHexDigit)
    } else if name == " "@ {
        Some(CharacterCategory::ASCIIWhitespace)
    } else {
        None
    }
}

/// The name table built by `builtin_categories` looks names up exactly as
/// `spec_builtin_of` does.
pub proof fn lemma_builtin_table(table: Seq<(&str, CharacterCategory)>, name: Seq<char>)
    requires
        table.len() == 14,
        table[0].0@ == "lower"@ && table[0].1 == CharacterCategory::Utf8Lowercase,
        table[1].0@ == "upper"@ && table[1].1 == CharacterCategory::Utf8Uppercase,
        table[2].0@ == "alpha"@ && table[2].1 == CharacterCategory::Utf8Alpha,
        table[3].0@ == "alnum"@ && table[3].1 == CharacterCategory::Utf8Alphanumeric,
        table[4].0@ == "digit"@ && table[4].1 == CharacterCategory::Utf8Numeric,
        table[5].0@ == "whitespace"@ && table[5].1 == CharacterCategory::Utf8Whitespace,
        table[6].0@ == "a-z"@ && table[6].1 == CharacterCategory::ASCIILowercase,
        table[7].0@ == "A-Z"@ && table[7].1 == CharacterCategory::ASCIIUppercase,
        table[8].0@ == "a-Z"@ && table[8].1 == CharacterCategory::ASCIIAlpha,
        table[9].0@ == "0-Z"@ && table[9].1 == CharacterCategory::ASCIIAlphanumeric,
        table[10].0@ == "0b"@ && table[10].1 == CharacterCategory::ASCIIBinaryDigit,
        table[11].0@ == "0-9"@ && table[11].1 == CharacterCategory::ASCIIDigit,
        table[12].0@ == "0x"@ && table[12].1 == CharacterCategory::ASCIIHexDigit,
        table[13].0@ == " "@ && table[13].1 == CharacterCategory::ASCIIWhitespace,
    ensures
        crate::convert::find_assoc(table, name) == spec_builtin_of(name),
{
    let t0 = table;
    assert(t0[0] == table[0]);
    let t1 = t0.drop_first();
    assert(t1.len() == 13);
    assert(t1[0] == table[1]);
    assert(t1[1] == table[2]);
    assert(t1[2] == table[3]);
    assert(t1[3] == table[4]);
    assert(t1[4] == table[5]);
    assert(t1[5] == table[6]);
    assert(t1[6] == table[7]);
    assert(t1[7] == table[8]);
    assert(t1[8] == table[9]);
    assert(t1[9] == table[10]);
    assert(t1[10] == table[11]);
    assert(t1[11] == table[12]);
    assert(t1[12] == table[13]);
    assert(t1[0] == table[1]);
    let t2 = t1.drop_first();
    assert(t2.len() == 12);
    assert(t2[0] == table[2]);
    assert(t2[1] == table[3]);
    assert(t2[2] == table[4]);
    assert(t2[3] == table[5]);
    assert(t2[4] == table[6]);
    assert(t2[5] == table[7]);
    assert(t2[6] == table[8]);
    assert(t2[7] == table[9]);
    assert(t2[8] == table[10]);
    assert(t2[9] == table[11]);
    assert(t2[10] == table[12]);
    assert(t2[11] == table[13]);
    assert(t2[0] == table[2]);
    let t3 = t2.drop_first();
    assert(t3.len() == 11);
    assert(t3[0] == table[3]);
    assert(t3[1] == table[4]);
    assert(t3[2] == table[5]);
    assert(t3[3] == table[6]);
    assert(t3[4] == table[7]);
    assert(t3[5] == table[8]);
    assert(t3[6] == table[9]);
    assert(t3[7] == table[10]);
    assert(t3[8] == table[11]);
    assert(t3[9] == table[12]);
    assert(t3[10] == table[13]);
    assert(t3[0] == table[3]);
    let t4 = t3.drop_first();
    assert(t4.len() == 10);
    assert(t4[0] == table[4]);
    assert(t4[1] == table[5]);
    assert(t4[2] == table[6]);
    assert(t4[3] == table[7]);
    assert(t4[4] == table[8]);
    assert(t4[5] == table[9]);
    assert(t4[6] == table[10]);
    assert(t4[7] == table[11]);
    assert(t4[8] == table[12]);
    assert(t4[9] == table[13]);
    assert(t4[0] == table[4]);
    let t5 = t4.drop_first();
    assert(t5.len() == 9);
    assert(t5[0] == table[5]);
    assert(t5[1] == table[6]);
    assert(t5[2] == table[7]);
    assert(t5[3] == table[8]);
    assert(t5[4] == table[9]);
    assert(t5[5] == table[10]);
    assert(t5[6] == table[11]);
    assert(t5[7] == table[12]);
    assert(t5[8] == table[13]);
    assert(t5[0] == table[5]);
    let t6 = t5.drop_first();
    assert(t6.len() == 8);
    assert(t6[0] == table[6]);
    assert(t6[1] == table[7]);
    assert(t6[2] == table[8]);
    assert(t6[3] == table[9]);
    assert(t6[4] == table[10]);
    assert(t6[5] == table[11]);
    assert(t6[6] == table[12]);
    assert(t6[7] == table[13]);
    assert(t6[0] == table[6]);
    let t7 = t6.drop_first();
    assert(t7.len() == 7);
    assert(t7[0] == table[7]);
    assert(t7[1] == table[8]);
    assert(t7[2] == table[9]);
    assert(t7[3] == table[10]);
    assert(t7[4] == table[11]);
    assert(t7[5] == table[12]);
    assert(t7[6] == table[13]);
    assert(t7[0] == table[7]);
    let t8 = t7.drop_first();
    assert(t8.len() == 6);
    assert(t8[0] == table[8]);
    assert(t8[1] == table[9]);
    assert(t8[2] == table[10]);
    assert(t8[3] == table[11]);
    assert(t8[4] == table[12]);
    assert(t8[5] == table[13]);
    assert(t8[0] == table[8]);
    let t9 = t8.drop_first();
    assert(t9.len() == 5);
    assert(t9[0] == table[9]);
    assert(t9[1] == table[10]);
    assert(t9[2] == table[11]);
    assert(t9[3] == table[12]);
    assert(t9[4] == table[13]);
    assert(t9[0] == table[9]);
    let t10 = t9.drop_first();
    assert(t10.len() == 4);
    assert(t10[0] == table[10]);
    assert(t10[1] == table[11]);
    assert(t10[2] == table[12]);
    assert(t10[3] == table[13]);
    assert(t10[0] == table[10]);
    let t11 = t10.drop_first();
    assert(t11.len() == 3);
    assert(t11[0] == table[11]);
    assert(t11[1] == table[12]);
    assert(t11[2] == table[13]);
    assert(t11[0] == table[11]);
    let t12 = t11.drop_first();
    assert(t12.len() == 2);
    assert(t12[0] == table[12]);
    assert(t12[1] == table[13]);
    assert(t12[0] == table[12]);
    let t13 = t12.drop_first();
    assert(t13.len() == 1);
    assert(t13[0] == table[13]);
    assert(t13[0] == table[13]);
    let t14 = t13.drop_first();
    assert(t14.len() == 0);
    assert(crate::convert::find_assoc(t0, name) == (if table[0].0@ == name {
        Some(table[0].1)
    } else {
        crate::convert::find_assoc(t1, name)
    }));
    assert(crate::convert::find_assoc(t1, name) == (if table[1].0@ == name {
        Some(table[1].1)
    } else {
        crate::convert::find_assoc(t2, name)
    }));
    assert(crate::convert::find_assoc(t2, name) == (if table[2].0@ == name {
        Some(table[2].1)
    } else {
        crate::convert::find_assoc(t3, name)
    }));
    assert(crate::convert::find_assoc(t3, name) == (if table[3].0@ == name {
        Some(table[3].1)
    } else {
        crate::convert::find_assoc(t4, name)
    }));
    assert(crate::convert::find_assoc(t4, name) == (if table[4].0@ == name {
        Some(table[4].1)
    } else {
        crate::convert::find_assoc(t5, name)
    }));
    assert(crate::convert::find_assoc(t5, name) == (if table[5].0@ == name {
        Some(table[5].1)
    } else {
        crate::convert::find_assoc(t6, name)
    }));
    assert(crate::convert::find_assoc(t6, name) == (if table[6].0@ == name {
        Some(table[6].1)
    } else {
        crate::convert::find_assoc(t7, name)
    }));
    assert(crate::convert::find_assoc(t7, name) == (if table[7].0@ == name {
        Some(table[7].1)
    } else {
        crate::convert::find_assoc(t8, name)
    }));
    assert(crate::convert::find_assoc(t8, name) == (if table[8].0@ == name {
        Some(table[8].1)
    } else {
        crate::convert::find_assoc(t9, name)
    }));
    assert(crate::convert::find_assoc(t9, name) == (if table[9].0@ == name {
        Some(table[9].1)
    } else {
        crate::convert::find_assoc(t10, name)
    }));
    assert(crate::convert::find_assoc(t10, name) == (if table[10].0@ == name {
        Some(table[10].1)
    } else {
        crate::convert::find_assoc(t11, name)
    }));
    assert(crate::convert::find_assoc(t11, name) == (if table[11].0@ == name {
        Some(table[11].1)
    } else {
        crate::convert::find_assoc(t12, name)
    }));
    assert(crate::convert::find_assoc(t12, name) == (if table[12].0@ == name {
        Some(table[12].1)
    } else {
        crate::convert::find_assoc(t13, name)
    }));
    assert(crate::convert::find_assoc(t13, name) == (if table[13].0@ == name {
        Some(table[13].1)
    } else {
        crate::convert::find_assoc(t14, name)
    }));
    assert(crate::convert::find_assoc(t14, name) is None);
}

} // verus!
