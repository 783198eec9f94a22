//! The high-level intermediate representation of a regular expression:
//! the syntax tree produced by the parser, before named references are
//! resolved.

use vstd::prelude::*;

verus! {

/// A member of a set. Represents either a single character or a category of
/// characters, still referred to by name.
#[derive(Debug, PartialEq, Eq, Clone, Copy)]
pub enum SetMember<'a> {
    Character(char),
    Category(&'a str),
}

/// A high-level representation of a hierarchical regular expression.
#[derive(Debug, PartialEq, Eq)]
pub enum HIR<'a> {
    /// Matches any character
    AnyChar,
    /// A sequence of simple characters
    Sequence(&'a str),
    /// A subexpression or character category
    SubRegex(&'a str),
    /// Repetition of a regular expression
    Repetition { regex: Box<HIR<'a>>, min: u16, max: Option<u16> },
    /// Regular expression alternatives
    Alternation(Vec<HIR<'a>>),
    /// A set of characters or character categories
    CharSet(Vec<SetMember<'a>>),
    /// A set of all characters excluding specific characters or categories
    NegatedSet(Vec<SetMember<'a>>),
    /// Concatenation of regular expressions
    Concatenation(Vec<HIR<'a>>),
}

/// The names of the categories referred to by the members of a set.
pub open spec fn members_deps(members: Seq<SetMember>) -> Set<Seq<char>> {
    Set::new(
        |name: Seq<char>|
            exists|i: int|
                0 <= i < members.len() && ((#[trigger] members[i]) matches SetMember::Category(c)
                    && c@ == name),
    )
}

/// The names of the categories and subexpressions a regex refers to.
pub open spec fn hir_deps(hir: HIR) -> Set<Seq<char>>
    decreases hir,
{
    match hir {
        HIR::AnyChar => Set::empty(),
        HIR::Sequence(_) => Set::empty(),
        HIR::SubRegex(name) => Set::empty().insert(name@),
        HIR::Repetition { regex, .. } => hir_deps(*regex),
        HIR::Alternation(regexes) => hirs_deps(regexes@),
        HIR::CharSet(members) => members_deps(members@),
        HIR::NegatedSet(members) => members_deps(members@),
        HIR::Concatenation(regexes) => hirs_deps(regexes@),
    }
}

/// The union of the dependencies of a list of regexes.
pub open spec fn hirs_deps(hirs: Seq<HIR>) -> Set<Seq<char>>
    decreases hirs,
{
    if hirs.len() == 0 {
        Set::empty()
    } else {
        hir_deps(hirs[0]).union(hirs_deps(hirs.drop_first()))
    }
}

/// A name is in the union of a list's dependencies exactly when it is in
/// some element's dependencies.
pub proof fn lemma_hirs_deps(hirs: Seq<HIR>, name: Seq<char>)
    ensures
        hirs_deps(hirs).contains(name) <==> exists|j: int|
            0 <= j < hirs.len() && hir_deps(#[trigger] hirs[j]).contains(name),
    decreases hirs,
{
    if hirs.len() > 0 {
        lemma_hirs_deps(hirs.drop_first(), name);
        if hirs_deps(hirs).contains(name) {
            if hir_deps(hirs[0]).contains(name) {
            } else {
                let j = choose|j: int|
                    0 <= j < hirs.drop_first().len() && hir_deps(
                        #[trigger] hirs.drop_first()[j],
                    ).contains(name);
                assert(hirs.drop_first()[j] == hirs[j + 1]);
                assert(hir_deps(hirs[j + 1]).contains(name));
            }
        }
        if exists|j: int| 0 <= j < hirs.len() && hir_deps(#[trigger] hirs[j]).contains(name) {
            let j = choose|j: int|
                0 <= j < hirs.len() && hir_deps(#[trigger] hirs[j]).contains(name);
            if j > 0 {
                assert(hirs.drop_first()[j - 1] == hirs[j]);
            }
        }
    }
}

/// The names held by a list of dependency names.
pub open spec fn names_set(names: Seq<&str>) -> Set<Seq<char>> {
    Set::new(|name: Seq<char>| exists|i: int| 0 <= i < names.len() && (#[trigger] names[i])@ == name)
}

/// A list of names without repetitions.
pub open spec fn names_unique(names: Seq<&str>) -> bool {
    forall|i: int, j: int| 0 <= i < j < names.len() ==> names[i]@ != names[j]@
}

/// Relies on str's PartialEq: equality of two string slices is equality of
/// their characters.
#[verifier::external_body]
pub fn str_eq(a: &str, b: &str) -> (r: bool)
    ensures
        r == (a@ == b@),
{
    a == b
}

/// Whether `names` holds a name with the characters of `name`.
pub fn names_contain(names: &Vec<&str>, name: &str) -> (r: bool)
    ensures
        r == names_set(names@).contains(name@),
{
    let mut i: usize = 0;
    while i < names.len()
        invariant
            0 <= i <= names@.len(),
            forall|j: int| 0 <= j < i ==> (#[trigger] names@[j])@ != name@,
        decreases names@.len() - i,
    {
        if str_eq(names[i], name) {
            proof {
                assert(names_set(names@).contains(name@));
            }
            return true;
        }
        i = i + 1;
    }
    proof {
        if names_set(names@).contains(name@) {
            let j = choose|j: int| 0 <= j < names@.len() && (#[trigger] names@[j])@ == name@;
            assert(false);
        }
    }
    false
}

/// Add a name to the list if no equal name is present yet.
fn insert_name<'a>(out: &mut Vec<&'a str>, name: &'a str)
    requires
        names_unique(old(out)@),
    ensures
        names_unique(final(out)@),
        names_set(final(out)@).contains(name@),
        forall|n: Seq<char>|
            #[trigger] names_set(final(out)@).contains(n) ==> names_set(old(out)@).contains(n) || n
                == name@,
        forall|n: Seq<char>|
            #[trigger] names_set(old(out)@).contains(n) ==> names_set(final(out)@).contains(n),
{
    let ghost prev = out@;
    if !names_contain(out, name) {
        out.push(name);
        proof {
            assert(out@.last() == name);
            assert(names_set(out@).contains(name@));
            assert forall|n: Seq<char>| #[trigger]
                names_set(out@).contains(n) implies names_set(prev).contains(n) || n == name@ by {
                let k = choose|k: int| 0 <= k < out@.len() && (#[trigger] out@[k])@ == n;
                if k < prev.len() {
                    assert(prev[k]@ == n);
                }
            }
            assert forall|n: Seq<char>| #[trigger]
                names_set(prev).contains(n) implies names_set(out@).contains(n) by {
                let k = choose|k: int| 0 <= k < prev.len() && (#[trigger] prev[k])@ == n;
                assert(out@[k]@ == n);
            }
        }
    }
}

/// Collect the category names of a member list into `out`.
fn collect_member_deps<'a>(members: &Vec<SetMember<'a>>, out: &mut Vec<&'a str>)
    requires
        names_unique(old(out)@),
    ensures
        names_unique(final(out)@),
        forall|n: Seq<char>|
            #[trigger] names_set(final(out)@).contains(n) ==> names_set(old(out)@).contains(n)
                || members_deps(members@).contains(n),
        forall|n: Seq<char>|
            #[trigger] members_deps(members@).contains(n) ==> names_set(final(out)@).contains(n),
        forall|n: Seq<char>|
            #[trigger] names_set(old(out)@).contains(n) ==> names_set(final(out)@).contains(n),
{
    let ghost orig = old(out)@;
    let mut i: usize = 0;
    while i < members.len()
        invariant
            0 <= i <= members@.len(),
            names_unique(out@),
            forall|n: Seq<char>|
                #[trigger] names_set(out@).contains(n) ==> names_set(orig).contains(n)
                    || members_deps(members@).contains(n),
            forall|k: int|
                0 <= k < i ==> ((#[trigger] members@[k]) matches SetMember::Category(c)
                    ==> names_set(out@).contains(c@)),
            forall|n: Seq<char>|
                #[trigger] names_set(orig).contains(n) ==> names_set(out@).contains(n),
        decreases members@.len() - i,
    {
        let ghost prev = out@;
        match members[i] {
            SetMember::Category(name) => {
                insert_name(out, name);
                proof {
                    assert(members@[i as int] matches SetMember::Category(c) && c@ == name@);
                    assert(members_deps(members@).contains(name@));
                }
            },
            SetMember::Character(_) => {},
        }
        i = i + 1;
    }
    proof {
        assert forall|n: Seq<char>| #[trigger]
            members_deps(members@).contains(n) implies names_set(out@).contains(n) by {
            let k = choose|k: int|
                0 <= k < members@.len() && ((#[trigger] members@[k]) matches SetMember::Category(
                    c,
                ) && c@ == n);
        }
    }
}

/// Collect the dependencies of a regex into `out`.
fn collect_deps<'a>(hir: &HIR<'a>, out: &mut Vec<&'a str>)
    requires
        names_unique(old(out)@),
    ensures
        names_unique(final(out)@),
        forall|n: Seq<char>|
            #[trigger] names_set(final(out)@).contains(n) ==> names_set(old(out)@).contains(n)
                || hir_deps(*hir).contains(n),
        forall|n: Seq<char>|
            #[trigger] hir_deps(*hir).contains(n) ==> names_set(final(out)@).contains(n),
        forall|n: Seq<char>|
            #[trigger] names_set(old(out)@).contains(n) ==> names_set(final(out)@).contains(n),
    decreases *hir,
{
    match hir {
        HIR::AnyChar => {},
        HIR::Sequence(_) => {},
        HIR::SubRegex(name) => {
            insert_name(out, name);
            proof {
                assert(hir_deps(*hir) =~= Set::empty().insert(name@));
            }
        },
        HIR::Repetition { regex, .. } => {
            collect_deps(regex, out);
            proof {
                assert(hir_deps(*hir) == hir_deps(**regex));
            }
        },
        HIR::Alternation(regexes) => {
            proof {
                assert(decreases_to!(*hir => regexes@));
            }
            collect_list_deps(regexes, out);
            proof {
                assert(hir_deps(*hir) == hirs_deps(regexes@));
            }
        },
        HIR::Concatenation(regexes) => {
            proof {
                assert(decreases_to!(*hir => regexes@));
            }
            collect_list_deps(regexes, out);
            proof {
                assert(hir_deps(*hir) == hirs_deps(regexes@));
            }
        },
        HIR::CharSet(members) | HIR::NegatedSet(members) => {
            collect_member_deps(members, out);
            proof {
                assert(hir_deps(*hir) == members_deps(members@));
            }
        },
    }
}

/// Collect the dependencies of each regex of a list into `out`.
fn collect_list_deps<'a>(regexes: &Vec<HIR<'a>>, out: &mut Vec<&'a str>)
    requires
        names_unique(old(out)@),
    ensures
        names_unique(final(out)@),
        forall|n: Seq<char>|
            #[trigger] names_set(final(out)@).contains(n) ==> names_set(old(out)@).contains(n)
                || hirs_deps(regexes@).contains(n),
        forall|n: Seq<char>|
            #[trigger] hirs_deps(regexes@).contains(n) ==> names_set(final(out)@).contains(n),
        forall|n: Seq<char>|
            #[trigger] names_set(old(out)@).contains(n) ==> names_set(final(out)@).contains(n),
    decreases regexes@,
{
    let ghost orig = old(out)@;
    let mut i: usize = 0;
    while i < regexes.len()
        invariant
            0 <= i <= regexes@.len(),
            names_unique(out@),
            forall|n: Seq<char>|
                #[trigger] names_set(out@).contains(n) ==> names_set(orig).contains(n)
                    || hirs_deps(regexes@).contains(n),
            forall|k: int, n: Seq<char>|
                0 <= k < i && #[trigger] hir_deps(regexes@[k]).contains(n) ==> names_set(
                    out@,
                ).contains(n),
            forall|n: Seq<char>|
                #[trigger] names_set(orig).contains(n) ==> names_set(out@).contains(n),
        decreases regexes@.len() - i,
    {
        let ghost prev = out@;
        collect_deps(&regexes[i], out);
        proof {
            assert forall|n: Seq<char>| #[trigger]
                names_set(out@).contains(n) implies names_set(orig).contains(n) || hirs_deps(
                regexes@,
            ).contains(n) by {
                if names_set(prev).contains(n) {
                } else if hir_deps(regexes@[i as int]).contains(n) {
                    lemma_hirs_deps(regexes@, n);
                }
            }
        }
        i = i + 1;
    }
    proof {
        assert forall|n: Seq<char>| #[trigger]
            hirs_deps(regexes@).contains(n) implies names_set(out@).contains(n) by {
            lemma_hirs_deps(regexes@, n);
            let j = choose|j: int|
                0 <= j < regexes@.len() && hir_deps(#[trigger] regexes@[j]).contains(n);
        }
    }
}

impl<'a> HIR<'a> {
    /// The names of every category and subexpression this regex refers to,
    /// each listed once.
    pub fn dependencies(&self) -> (r: Vec<&'a str>)
        ensures
            names_unique(r@),
            forall|i: int| 0 <= i < r@.len() ==> hir_deps(*self).contains((#[trigger] r@[i])@),
            forall|n: Seq<char>|
                #[trigger] hir_deps(*self).contains(n) ==> names_set(r@).contains(n),
    {
        let mut out: Vec<&'a str> = Vec::new();
        collect_deps(self, &mut out);
        proof {
            assert forall|i: int| 0 <= i < out@.len() implies hir_deps(*self).contains(
                (#[trigger] out@[i])@,
            ) by {
                assert(names_set(out@).contains(out@[i]@));
            }
        }
        out
    }
}

} // verus!
