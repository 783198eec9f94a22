//! The token-specification input: a plain model of a terminal enum with
//! its rule attributes, validated into the per-variant pattern lists, and
//! compiled into one deterministic automaton.

use crate::dfsa::DFSA;
use crate::nefsa::{offset_of, CompileError, ConstructionError, NEFSA};
use vstd::prelude::*;

verus! {

/// One pattern of a token rule: a literal string, or a regex.
#[derive(Debug, PartialEq, Eq, Clone)]
pub enum VariantRegex {
    Token(String),
    Regex(String),
}

/// A validated token specification: the enum's name, the skip pattern, and
/// each variant's patterns in declaration order.
#[derive(Debug, PartialEq, Eq)]
pub struct TerminalEnum {
    pub name: String,
    pub skip_regex: String,
    pub variants: Vec<(String, Vec<VariantRegex>)>,
}

/// One attribute of the enum or of a variant, reduced to plain values:
/// its name, whether it has the `name = value` form, and its literal text
/// when the value is a string or character literal.
#[derive(Debug, PartialEq, Eq, Clone)]
pub struct AttributeModel {
    pub name: String,
    pub is_name_value: bool,
    pub literal: Option<String>,
}

/// One variant of the input enum, reduced to plain values.
#[derive(Debug, PartialEq, Eq, Clone)]
pub struct VariantModel {
    pub name: String,
    pub is_unit: bool,
    pub has_discriminant: bool,
    pub attrs: Vec<AttributeModel>,
}

/// The input item the specification is attached to, reduced to plain
/// values.
#[derive(Debug, PartialEq, Eq)]
pub struct EnumModel {
    pub name: String,
    pub is_enum: bool,
    pub attrs: Vec<AttributeModel>,
    pub variants: Vec<VariantModel>,
}

/// What can be wrong with a token specification.
#[derive(Debug, PartialEq, Eq, Clone, Copy, Structural)]
pub enum DeriveError {
    /// The specification is only valid on an enum.
    NotAnEnum,
    /// A variant carries data fields.
    NonUnitVariant,
    /// A variant defines an explicit discriminant.
    ExplicitDiscriminant,
    /// A token rule stands at enum scope.
    TokenAtEnumLevel,
    /// A regex rule stands at enum scope.
    RegexAtEnumLevel,
    /// The skip pattern is defined twice.
    MultipleSkip,
    /// The skip pattern is not in the `skip = "..."` form.
    InvalidSkipFormat,
    /// A rule's value is neither a string nor a character literal.
    InvalidAttributeLiteral,
    /// A rule is not in the `name = "..."` form.
    InvalidRuleFormat,
    /// A variant has no token or regex rule at all.
    MissingRegex,
}

/// Whether some attribute of the list carries this name.
pub open spec fn has_attr(attrs: Seq<AttributeModel>, name: Seq<char>) -> bool {
    exists|i: int| 0 <= i < attrs.len() && (#[trigger] attrs[i]).name@ == name
}

/// The rule one attribute contributes: a token or regex flag with its
/// literal text, or nothing for any other attribute.
pub open spec fn attr_rule(a: AttributeModel) -> Seq<(bool, Seq<char>)> {
    let lit = match a.literal {
        Some(l) => l@,
        None => Seq::<char>::empty(),
    };
    if a.name@ == "token"@ {
        Seq::<(bool, Seq<char>)>::empty().push((true, lit))
    } else if a.name@ == "regex"@ {
        Seq::<(bool, Seq<char>)>::empty().push((false, lit))
    } else {
        Seq::<(bool, Seq<char>)>::empty()
    }
}

/// The rules a whole attribute list contributes, in order.
pub open spec fn attr_rules(attrs: Seq<AttributeModel>) -> Seq<(bool, Seq<char>)>
    decreases attrs.len(),
{
    if attrs.len() == 0 {
        Seq::empty()
    } else {
        attr_rule(attrs[0]) + attr_rules(attrs.drop_first())
    }
}

/// The flag-and-text shape of a collected rule list.
pub open spec fn rule_views(rules: Seq<VariantRegex>) -> Seq<(bool, Seq<char>)>
    decreases rules.len(),
{
    if rules.len() == 0 {
        Seq::empty()
    } else {
        rule_views(rules.drop_last()).push(
            match rules.last() {
                VariantRegex::Token(s) => (true, s@),
                VariantRegex::Regex(s) => (false, s@),
            },
        )
    }
}

/// The literal of the first `skip` attribute, if any.
pub open spec fn first_skip(attrs: Seq<AttributeModel>) -> Option<Seq<char>>
    decreases attrs.len(),
{
    if attrs.len() == 0 {
        None
    } else if attrs[0].name@ == "skip"@ {
        match attrs[0].literal {
            Some(l) => Some(l@),
            None => Some(Seq::<char>::empty()),
        }
    } else {
        first_skip(attrs.drop_first())
    }
}

/// Parse the attributes of the enum itself: only `skip = "..."` is
/// accepted there, at most once.
fn get_skip_regex(attrs: &Vec<AttributeModel>) -> (r: Result<Option<String>, DeriveError>)
    ensures
        !has_attr(attrs@, "token"@) && !has_attr(attrs@, "regex"@) && !has_attr(attrs@, "skip"@)
            ==> (r matches Ok(s) && s is None),
        r matches Ok(s) ==> (match s {
            Some(text) => first_skip(attrs@) == Some(text@),
            None => first_skip(attrs@) is None,
        }),
{
    let ghost a = attrs@;
    proof {
        assert(a.skip(0) =~= a);
    }
    let mut skip: Option<String> = None;
    let mut i: usize = 0;
    while i < attrs.len()
        invariant
            0 <= i <= attrs@.len(),
            a == attrs@,
            (forall|k: int| 0 <= k < i ==> (#[trigger] a[k]).name@ != "skip"@) ==> skip is None,
            first_skip(a) == (match skip {
                Some(sv) => Some(sv@),
                None => first_skip(a.skip(i as int)),
            }),
        decreases attrs@.len() - i,
    {
        proof {
            assert(a.skip(i as int)[0] == a[i as int]);
            assert(a.skip(i as int).drop_first() =~= a.skip(i + 1));
        }
        let attr = &attrs[i];
        if crate::hir::str_eq(attr.name.as_str(), "token") {
            proof {
                assert(has_attr(a, "token"@));
            }
            return Err(DeriveError::TokenAtEnumLevel);
        } else if crate::hir::str_eq(attr.name.as_str(), "regex") {
            proof {
                assert(has_attr(a, "regex"@));
            }
            return Err(DeriveError::RegexAtEnumLevel);
        } else if crate::hir::str_eq(attr.name.as_str(), "skip") {
            proof {
                assert(has_attr(a, "skip"@));
            }
            if !attr.is_name_value {
                return Err(DeriveError::InvalidSkipFormat);
            }
            if skip.is_some() {
                return Err(DeriveError::MultipleSkip);
            }
            match &attr.literal {
                Some(text) => {
                    skip = Some(clone_string(text));
                },
                None => {
                    return Err(DeriveError::InvalidAttributeLiteral);
                },
            }
        }
        i = i + 1;
    }
    proof {
        assert(a.skip(a.len() as int) =~= Seq::<AttributeModel>::empty());
    }
    Ok(skip)
}

/// Relies on String::clone: the copy holds the same characters.
#[verifier::external_body]
fn clone_string(s: &String) -> (r: String)
    ensures
        r@ == s@,
{
    s.clone()
}

/// Check one variant and collect its rules, in attribute order.
fn get_variant(variant: &VariantModel) -> (r: Result<Vec<VariantRegex>, DeriveError>)
    ensures
        !variant.is_unit ==> r matches Err(DeriveError::NonUnitVariant),
        variant.is_unit && variant.has_discriminant ==> r matches Err(
            DeriveError::ExplicitDiscriminant,
        ),
        r matches Ok(rules) ==> rules@.len() >= 1 && rule_views(rules@) == attr_rules(
            variant.attrs@,
        ),
{
    if !variant.is_unit {
        return Err(DeriveError::NonUnitVariant);
    }
    if variant.has_discriminant {
        return Err(DeriveError::ExplicitDiscriminant);
    }
    let ghost va = variant.attrs@;
    proof {
        assert(va.skip(0) =~= va);
        assert(Seq::<(bool, Seq<char>)>::empty() + attr_rules(va) =~= attr_rules(va));
    }
    let mut rules: Vec<VariantRegex> = Vec::new();
    let mut i: usize = 0;
    while i < variant.attrs.len()
        invariant
            0 <= i <= variant.attrs@.len(),
            va == variant.attrs@,
            variant.is_unit,
            !variant.has_discriminant,
            attr_rules(va) == rule_views(rules@) + attr_rules(va.skip(i as int)),
        decreases variant.attrs@.len() - i,
    {
        proof {
            assert(va.skip(i as int)[0] == va[i as int]);
            assert(va.skip(i as int).drop_first() =~= va.skip(i + 1));
        }
        let ghost rs0 = rules@;
        let ghost rv0 = rule_views(rules@);
        let attr = &variant.attrs[i];
        let is_token = crate::hir::str_eq(attr.name.as_str(), "token");
        let is_regex = crate::hir::str_eq(attr.name.as_str(), "regex");
        if is_token || is_regex {
            if !attr.is_name_value {
                return Err(DeriveError::InvalidRuleFormat);
            }
            match &attr.literal {
                Some(text) => {
                    if is_token {
                        rules.push(VariantRegex::Token(clone_string(text)));
                    } else {
                        rules.push(VariantRegex::Regex(clone_string(text)));
                    }
                    proof {
                        assert(rules@.drop_last() =~= rs0);
                        assert(rule_views(rules@) == rv0.push(
                            match rules@.last() {
                                VariantRegex::Token(s) => (true, s@),
                                VariantRegex::Regex(s) => (false, s@),
                            },
                        ));
                        assert(rv0 + attr_rules(va.skip(i as int)) =~= rule_views(rules@)
                            + attr_rules(va.skip(i + 1)));
                    }
                },
                None => {
                    return Err(DeriveError::InvalidAttributeLiteral);
                },
            }
        } else if crate::hir::str_eq(attr.name.as_str(), "skip") {
            return Err(DeriveError::InvalidSkipFormat);
        } else {
            proof {
                assert(attr_rule(va[i as int]) =~= Seq::<(bool, Seq<char>)>::empty());
                assert(rv0 + attr_rules(va.skip(i as int)) =~= rv0 + attr_rules(va.skip(i + 1)));
            }
        }
        i = i + 1;
    }
    proof {
        assert(va.skip(va.len() as int) =~= Seq::<AttributeModel>::empty());
        assert(rule_views(rules@) + Seq::<(bool, Seq<char>)>::empty() =~= rule_views(rules@));
    }
    if rules.len() == 0 {
        return Err(DeriveError::MissingRegex);
    }
    Ok(rules)
}

/// Parse the model of a derive input into a validated token specification:
/// the input must be an enum of unit variants without discriminants, each
/// with at least one rule; the skip pattern defaults to `<whitespace>*`.
pub fn parse(input: EnumModel) -> (r: Result<TerminalEnum, DeriveError>)
    ensures
        !input.is_enum ==> r matches Err(DeriveError::NotAnEnum),
        r matches Ok(te) ==> {
            &&& te.name@ == input.name@
            &&& te.variants@.len() == input.variants@.len()
            &&& forall|k: int|
                0 <= k < te.variants@.len() ==> (#[trigger] te.variants@[k]).0@
                    == input.variants@[k].name@
            &&& forall|k: int| 0 <= k < te.variants@.len() ==> (#[trigger] te.variants@[
                k]).1@.len() >= 1
            &&& forall|k: int|
                0 <= k < te.variants@.len() ==> rule_views((#[trigger] te.variants@[k]).1@)
                    == attr_rules(input.variants@[k].attrs@)
            &&& te.skip_regex@ == (match first_skip(input.attrs@) {
                Some(t) => t,
                None => "<whitespace>*"@,
            })
            &&& (!has_attr(input.attrs@, "token"@) && !has_attr(input.attrs@, "regex"@)
                && !has_attr(input.attrs@, "skip"@) ==> te.skip_regex@ == "<whitespace>*"@)
        },
{
    if !input.is_enum {
        return Err(DeriveError::NotAnEnum);
    }
    let skip = match get_skip_regex(&input.attrs) {
        Ok(s) => s,
        Err(e) => {
            return Err(e);
        },
    };
    let skip_regex = match skip {
        Some(s) => s,
        None => default_skip(),
    };
    let mut variants: Vec<(String, Vec<VariantRegex>)> = Vec::new();
    let mut i: usize = 0;
    while i < input.variants.len()
        invariant
            0 <= i <= input.variants@.len(),
            input.is_enum,
            variants@.len() == i,
            skip_regex@ == (match first_skip(input.attrs@) {
                Some(t) => t,
                None => "<whitespace>*"@,
            }),
            forall|k: int|
                0 <= k < i ==> (#[trigger] variants@[k]).0@ == input.variants@[k].name@,
            forall|k: int| 0 <= k < i ==> (#[trigger] variants@[k]).1@.len() >= 1,
            forall|k: int|
                0 <= k < i ==> rule_views((#[trigger] variants@[k]).1@) == attr_rules(
                    input.variants@[k].attrs@,
                ),
        decreases input.variants@.len() - i,
    {
        let rules = match get_variant(&input.variants[i]) {
            Ok(rs) => rs,
            Err(e) => {
                return Err(e);
            },
        };
        variants.push((clone_string(&input.variants[i].name), rules));
        i = i + 1;
    }
    Ok(TerminalEnum { name: input.name, skip_regex, variants })
}

/// The default skip pattern: any run of whitespace.
fn default_skip() -> (r: String)
    ensures
        r@ == "<whitespace>*"@,
{
    let r = string_from("<whitespace>*");
    r
}

/// Relies on String::from_str: the string holds the slice's characters.
#[verifier::external_body]
fn string_from(s: &str) -> (r: String)
    ensures
        r@ == s@,
{
    String::from(s)
}

/// Any failure of compiling a whole token specification.
#[derive(Debug, PartialEq, Eq)]
pub enum AutomatonError {
    /// A literal-token pattern string must not be empty.
    EmptyLiteralSource,
    /// Lexing or parsing a regex pattern failed.
    Syntax(crate::parser::Error),
    /// A pattern refers to a category name nobody defines.
    UnknownCategory(String),
    /// The combined automaton would be too large to build.
    TooLarge,
}

/// Compile every rule of a validated token specification into one
/// deterministic automaton over variant indices: rule automata are
/// unioned in declaration order, so the earliest-declared variant wins
/// ties, then the union is determinized.
pub fn create_minimal_automaton(input: &TerminalEnum) -> (r: Result<DFSA<usize>, AutomatonError>)
    ensures
        r matches Ok(d) ==> d.wf() && d.deterministic() && d.states@.len() >= 1,
        r matches Err(AutomatonError::EmptyLiteralSource) ==> exists|k: int, j: int|
            {
                &&& 0 <= k < input.variants@.len()
                &&& 0 <= j < input.variants@[k].1@.len()
                &&& (#[trigger] input.variants@[k].1@[j]) matches VariantRegex::Token(s)
                    && s@.len() == 0
            },
        (r matches Err(e) && (e matches AutomatonError::Syntax(_) || e
            matches AutomatonError::UnknownCategory(_))) ==> exists|k: int, j: int|
            {
                &&& 0 <= k < input.variants@.len()
                &&& 0 <= j < input.variants@[k].1@.len()
                &&& (#[trigger] input.variants@[k].1@[j]) is Regex
            },
{
    let mut nfas: Vec<NEFSA<usize>> = Vec::new();
    let mut i: usize = 0;
    while i < input.variants.len()
        invariant
            0 <= i <= input.variants@.len(),
            forall|k: int| 0 <= k < nfas@.len() ==> (#[trigger] nfas@[k]).wf(),
            forall|k: int| 0 <= k < nfas@.len() ==> (#[trigger] nfas@[k]).states@.len() >= 1,
        decreases input.variants@.len() - i,
    {
        let rules = &input.variants[i].1;
        let mut j: usize = 0;
        while j < rules.len()
            invariant
                0 <= j <= rules@.len(),
                0 <= i < input.variants@.len(),
                rules@ == input.variants@[i as int].1@,
                forall|k: int| 0 <= k < nfas@.len() ==> (#[trigger] nfas@[k]).wf(),
                forall|k: int| 0 <= k < nfas@.len() ==> (#[trigger] nfas@[k]).states@.len() >= 1,
            decreases rules@.len() - j,
        {
            let nfa = match &rules[j] {
                VariantRegex::Token(text) => {
                    match NEFSA::from_token(i, text.as_str()) {
                        Ok(a) => a,
                        Err(ConstructionError::EmptyLiteralSource) => {
                            proof {
                                assert(input.variants@[i as int].1@[j as int]
                                    matches VariantRegex::Token(s) && s@.len() == 0);
                            }
                            return Err(AutomatonError::EmptyLiteralSource);
                        },
                    }
                },
                VariantRegex::Regex(text) => {
                    match NEFSA::from_regex(i, text.as_str()) {
                        Ok(a) => a,
                        Err(CompileError::Syntax(e)) => {
                            proof {
                                assert(input.variants@[i as int].1@[j as int] is Regex);
                            }
                            return Err(AutomatonError::Syntax(e));
                        },
                        Err(CompileError::Resolution(e)) => {
                            match e {
                                crate::convert::ResolutionError::UnknownCategory(name) => {
                                    proof {
                                        assert(input.variants@[i as int].1@[j as int] is Regex);
                                    }
                                    return Err(
                                        AutomatonError::UnknownCategory(string_from(name)),
                                    );
                                },
                                crate::convert::ResolutionError::CyclicOrMissingDependency(_) => {
                                    // unreachable: patterns resolve against
                                    // built-in categories alone, so nothing
                                    // can block
                                    proof {
                                        assert(false);
                                    }
                                    return Err(AutomatonError::UnknownCategory(string_from("")));
                                },
                            }
                        },
                    }
                },
            };
            proof {
                assert(nfa.states@.len() > 0);
            }
            nfas.push(nfa);
            j = j + 1;
        }
        i = i + 1;
    }
    // make sure the union's renumbering cannot run out of indices
    let mut total: usize = 1;
    let mut k: usize = 0;
    while k < nfas.len()
        invariant
            0 <= k <= nfas@.len(),
            total as int == offset_of(nfas@, k as int),
            forall|q: int| 0 <= q < nfas@.len() ==> (#[trigger] nfas@[q]).wf(),
            forall|q: int| 0 <= q < nfas@.len() ==> (#[trigger] nfas@[q]).states@.len() >= 1,
        decreases nfas@.len() - k,
    {
        let extra = nfas[k].states.len();
        total = match total.checked_add(extra) {
            Some(t) => t,
            None => {
                return Err(AutomatonError::TooLarge);
            },
        };
        k = k + 1;
    }
    proof {
        crate::nefsa::lemma_offset_mono(nfas@, 0, nfas@.len() as int);
    }
    let combined = NEFSA::union(nfas);
    match DFSA::determinize(&combined) {
        Some(d) => Ok(d),
        None => Err(AutomatonError::TooLarge),
    }
}

} // verus!
