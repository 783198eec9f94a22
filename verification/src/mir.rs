//! The mid-level intermediate representation of a regular expression:
//! the syntax tree after every named reference has been resolved to a
//! concrete matcher.

use crate::matchers::{CharacterCategory, SingleMatcher};
use vstd::prelude::*;

verus! {

/// A member of a resolved set: a literal character or a built-in category.
#[derive(Debug, PartialEq, Eq, Clone, Copy, Structural)]
pub enum SetMember {
    Character(char),
    Category(CharacterCategory),
}

impl SetMember {
    /// The single matcher this member stands for.
    pub open spec fn spec_matcher(self) -> SingleMatcher {
        match self {
            SetMember::Character(c) => SingleMatcher::Character(c),
            SetMember::Category(category) => SingleMatcher::Category(category),
        }
    }

    /// Turn the member into its single matcher.
    pub fn to_matcher(self) -> (r: SingleMatcher)
        ensures
            r == self.spec_matcher(),
    {
        match self {
            SetMember::Character(c) => SingleMatcher::Character(c),
            SetMember::Category(category) => SingleMatcher::Category(category),
        }
    }
}

/// A resolved regular expression.
#[derive(Debug, PartialEq, Eq)]
pub enum MIR<'a> {
    /// Matches one character of a category
    Category(CharacterCategory),
    /// A sequence of simple characters
    Sequence(&'a str),
    /// Repetition of a regular expression
    Repetition { regex: Box<MIR<'a>>, min: u16, max: Option<u16> },
    /// Regular expression alternatives
    Alternation(Vec<MIR<'a>>),
    /// A set of characters or character categories
    CharSet(Vec<SetMember>),
    /// A set of all characters excluding specific characters or categories
    NegatedSet(Vec<SetMember>),
    /// Concatenation of regular expressions
    Concatenation(Vec<MIR<'a>>),
}

/// The mathematical shape of a resolved regex.
pub enum MirView {
    Category(CharacterCategory),
    Sequence(Seq<char>),
    Repetition { regex: Box<MirView>, min: u16, max: Option<u16> },
    Alternation(Seq<MirView>),
    CharSet(Seq<SetMember>),
    NegatedSet(Seq<SetMember>),
    Concatenation(Seq<MirView>),
}

impl<'a> View for MIR<'a> {
    type V = MirView;

    open spec fn view(&self) -> MirView
        decreases self,
    {
        match *self {
            MIR::Category(c) => MirView::Category(c),
            MIR::Sequence(s) => MirView::Sequence(s@),
            MIR::Repetition { ref regex, min, max } => MirView::Repetition {
                regex: Box::new((**regex)@),
                min,
                max,
            },
            MIR::Alternation(ref rs) => MirView::Alternation(mirs_view(rs@)),
            MIR::CharSet(ref ms) => MirView::CharSet(ms@),
            MIR::NegatedSet(ref ms) => MirView::NegatedSet(ms@),
            MIR::Concatenation(ref rs) => MirView::Concatenation(mirs_view(rs@)),
        }
    }
}

/// The shapes of a list of resolved regexes.
pub open spec fn mirs_view(s: Seq<MIR>) -> Seq<MirView>
    decreases s,
{
    if s.len() == 0 {
        Seq::empty()
    } else {
        mirs_view(s.drop_last()).push(s.last()@)
    }
}

/// Indexing the shapes of a list indexes the list.
pub proof fn lemma_mirs_view(s: Seq<MIR>)
    ensures
        mirs_view(s).len() == s.len(),
        forall|k: int| 0 <= k < s.len() ==> mirs_view(s)[k] == s[k]@,
    decreases s.len(),
{
    if s.len() > 0 {
        lemma_mirs_view(s.drop_last());
        assert(mirs_view(s) == mirs_view(s.drop_last()).push(s.last()@));
        assert forall|k: int| 0 <= k < s.len() implies mirs_view(s)[k] == s[k]@ by {
            if k < s.len() - 1 {
                assert(s.drop_last()[k] == s[k]);
                assert(mirs_view(s)[k] == mirs_view(s.drop_last())[k]);
            } else {
                assert(s.last() == s[k]);
            }
        }
    }
}

/// The shape of a pushed regex is pushed onto the shapes.
pub proof fn lemma_mirs_view_push(rs: Seq<MIR>, m: MIR)
    ensures
        mirs_view(rs.push(m)) == mirs_view(rs).push(m@),
{
    assert(rs.push(m).drop_last() =~= rs);
    assert(rs.push(m).last() == m);
}

impl<'a> MIR<'a> {
    /// A structurally identical copy of this regex.
    pub fn duplicate(&self) -> (r: MIR<'a>)
        ensures
            r@ == self@,
        decreases *self,
    {
        match self {
            MIR::Category(c) => MIR::Category(*c),
            MIR::Sequence(s) => MIR::Sequence(s),
            MIR::Repetition { regex, min, max } => MIR::Repetition {
                regex: Box::new(regex.duplicate()),
                min: *min,
                max: *max,
            },
            MIR::Alternation(rs) => {
                proof {
                    assert(decreases_to!(*self => rs@));
                }
                MIR::Alternation(duplicate_list(rs))
            },
            MIR::CharSet(ms) => MIR::CharSet(copy_members(ms)),
            MIR::NegatedSet(ms) => MIR::NegatedSet(copy_members(ms)),
            MIR::Concatenation(rs) => {
                proof {
                    assert(decreases_to!(*self => rs@));
                }
                MIR::Concatenation(duplicate_list(rs))
            },
        }
    }
}

/// A structurally identical copy of a list of regexes.
fn duplicate_list<'a>(rs: &Vec<MIR<'a>>) -> (r: Vec<MIR<'a>>)
    ensures
        mirs_view(r@) == mirs_view(rs@),
    decreases rs@,
{
    proof {
        lemma_mirs_view(rs@);
    }
    let mut out: Vec<MIR<'a>> = Vec::new();
    let mut i: usize = 0;
    while i < rs.len()
        invariant
            0 <= i <= rs@.len(),
            mirs_view(out@) =~= mirs_view(rs@).take(i as int),
            forall|k: int| 0 <= k < rs@.len() ==> mirs_view(rs@)[k] == rs@[k]@,
            mirs_view(rs@).len() == rs@.len(),
        decreases rs@.len() - i,
    {
        proof {
            assert(decreases_to!(rs@ => rs@[i as int]));
        }
        let ghost o0 = out@;
        let copy = rs[i].duplicate();
        out.push(copy);
        proof {
            lemma_mirs_view_push(o0, out@.last());
            assert(mirs_view(out@) =~= mirs_view(rs@).take(i + 1));
        }
        i = i + 1;
    }
    proof {
        assert(mirs_view(rs@).take(rs@.len() as int) =~= mirs_view(rs@));
    }
    out
}

/// A copy of a member list.
pub fn copy_members(ms: &Vec<SetMember>) -> (r: Vec<SetMember>)
    ensures
        r@ == ms@,
{
    let mut r: Vec<SetMember> = Vec::new();
    let mut i: usize = 0;
    while i < ms.len()
        invariant
            0 <= i <= ms@.len(),
            r@ == ms@.take(i as int),
        decreases ms@.len() - i,
    {
        r.push(ms[i]);
        proof {
            assert(r@ =~= ms@.take(i + 1));
        }
        i = i + 1;
    }
    proof {
        assert(ms@.take(ms@.len() as int) =~= ms@);
    }
    r
}

} // verus!
