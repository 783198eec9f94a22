//! The recursive-descent parser for the regex mini-language, and the flat
//! parser for category-definition bodies.

use crate::hir::{SetMember, HIR};
use crate::lexer::{CategoryNonterminal, CategoryResult, LexicalError, RegexResult, RegexTerminal};
use vstd::prelude::*;

verus! {

/// A parsing error of the regex grammar.
#[derive(Debug, Clone, Copy, PartialEq, Eq, Structural)]
pub enum ParsingError {
    /// A repetition marker with no preceding term to repeat.
    StandaloneRepetition,
    /// A `)` with no matching `(`.
    UnexpectedRParenthesis,
}

/// Any error of lexing or parsing a regex.
#[derive(Debug, Clone, Copy, PartialEq, Eq, Structural)]
pub enum Error {
    LexicalError(LexicalError),
    ParsingError(ParsingError),
}

/// The mathematical shape of a set member.
pub enum MemberView {
    Character(char),
    Category(Seq<char>),
}

/// The mathematical shape of a regex syntax tree.
pub enum HirView {
    AnyChar,
    Sequence(Seq<char>),
    SubRegex(Seq<char>),
    Repetition { regex: Box<HirView>, min: u16, max: Option<u16> },
    Alternation(Seq<HirView>),
    CharSet(Seq<MemberView>),
    NegatedSet(Seq<MemberView>),
    Concatenation(Seq<HirView>),
}

/// The mathematical shape of a regex terminal.
pub enum TermView {
    Sequence(Seq<char>),
    AnyChar,
    Repetition { min: u16, max: Option<u16> },
    CharSet(Seq<MemberView>),
    NegatedSet(Seq<MemberView>),
    Alternation,
    LParenthesis,
    RParenthesis,
    Subexpression(Seq<char>),
}

impl View for SetMember<'_> {
    type V = MemberView;

    open spec fn view(&self) -> MemberView {
        match *self {
            SetMember::Character(c) => MemberView::Character(c),
            SetMember::Category(name) => MemberView::Category(name@),
        }
    }
}

/// The shapes of a list of set members.
pub open spec fn members_view(s: Seq<SetMember>) -> Seq<MemberView>
    decreases s.len(),
{
    if s.len() == 0 {
        Seq::empty()
    } else {
        members_view(s.drop_last()).push(s.last()@)
    }
}

impl<'a> View for HIR<'a> {
    type V = HirView;

    open spec fn view(&self) -> HirView
        decreases self,
    {
        match *self {
            HIR::AnyChar => HirView::AnyChar,
            HIR::Sequence(s) => HirView::Sequence(s@),
            HIR::SubRegex(s) => HirView::SubRegex(s@),
            HIR::Repetition { ref regex, min, max } => HirView::Repetition {
                regex: Box::new((**regex)@),
                min,
                max,
            },
            HIR::Alternation(ref rs) => HirView::Alternation(hirs_view(rs@)),
            HIR::CharSet(ref ms) => HirView::CharSet(members_view(ms@)),
            HIR::NegatedSet(ref ms) => HirView::NegatedSet(members_view(ms@)),
            HIR::Concatenation(ref rs) => HirView::Concatenation(hirs_view(rs@)),
        }
    }
}

/// The shapes of a list of regexes.
pub open spec fn hirs_view(s: Seq<HIR>) -> Seq<HirView>
    decreases s,
{
    if s.len() == 0 {
        Seq::empty()
    } else {
        hirs_view(s.drop_last()).push(s.last()@)
    }
}

/// Indexing the shapes of a list indexes the list.
pub proof fn lemma_hirs_view(s: Seq<HIR>)
    ensures
        hirs_view(s).len() == s.len(),
        forall|k: int| 0 <= k < s.len() ==> hirs_view(s)[k] == s[k]@,
    decreases s.len(),
{
    if s.len() > 0 {
        lemma_hirs_view(s.drop_last());
        assert(hirs_view(s) == hirs_view(s.drop_last()).push(s.last()@));
        assert(hirs_view(s).len() == s.len());
        assert forall|k: int| 0 <= k < s.len() implies hirs_view(s)[k] == s[k]@ by {
            if k < s.len() - 1 {
                assert(s.drop_last()[k] == s[k]);
                assert(hirs_view(s)[k] == hirs_view(s.drop_last())[k]);
            } else {
                assert(s.last() == s[k]);
            }
        }
    }
}

/// Indexing the shapes of a member list indexes the list.
pub proof fn lemma_members_view(s: Seq<SetMember>)
    ensures
        members_view(s).len() == s.len(),
        forall|k: int| 0 <= k < s.len() ==> members_view(s)[k] == s[k]@,
    decreases s.len(),
{
    if s.len() > 0 {
        lemma_members_view(s.drop_last());
        assert(members_view(s) == members_view(s.drop_last()).push(s.last()@));
        assert forall|k: int| 0 <= k < s.len() implies members_view(s)[k] == s[k]@ by {
            if k < s.len() - 1 {
                assert(s.drop_last()[k] == s[k]);
                assert(members_view(s)[k] == members_view(s.drop_last())[k]);
            } else {
                assert(s.last() == s[k]);
            }
        }
    }
}

/// The shape of a pushed regex is pushed onto the shapes.
pub proof fn lemma_hirs_view_push(rs: Seq<HIR>, h: HIR)
    ensures
        hirs_view(rs.push(h)) == hirs_view(rs).push(h@),
{
    assert(rs.push(h).drop_last() =~= rs);
    assert(rs.push(h).last() == h);
}

/// The shape of a pushed member is pushed onto the shapes.
pub proof fn lemma_members_view_push(ms: Seq<SetMember>, m: SetMember)
    ensures
        members_view(ms.push(m)) == members_view(ms).push(m@),
{
    assert(ms.push(m).drop_last() =~= ms);
    assert(ms.push(m).last() == m);
}

impl<'a> View for RegexTerminal<'a> {
    type V = TermView;

    open spec fn view(&self) -> TermView {
        match *self {
            RegexTerminal::Sequence(s) => TermView::Sequence(s@),
            RegexTerminal::AnyChar => TermView::AnyChar,
            RegexTerminal::Repetition { min, max } => TermView::Repetition { min, max },
            RegexTerminal::CharSet(ref ms) => TermView::CharSet(members_view(ms@)),
            RegexTerminal::NegatedSet(ref ms) => TermView::NegatedSet(members_view(ms@)),
            RegexTerminal::Alternation => TermView::Alternation,
            RegexTerminal::LParenthesis => TermView::LParenthesis,
            RegexTerminal::RParenthesis => TermView::RParenthesis,
            RegexTerminal::Subexpression(s) => TermView::Subexpression(s@),
        }
    }
}

/// The shapes of a list of lexing outcomes.
pub open spec fn terms_view(s: Seq<RegexResult>) -> Seq<Result<TermView, LexicalError>>
    decreases s.len(),
{
    if s.len() == 0 {
        Seq::empty()
    } else {
        terms_view(s.drop_last()).push(
            match s.last() {
                Ok(t) => Ok(t@),
                Err(e) => Err(e),
            },
        )
    }
}

/// Indexing the shapes of a token list indexes the list.
pub proof fn lemma_terms_view(s: Seq<RegexResult>)
    ensures
        terms_view(s).len() == s.len(),
        forall|k: int|
            0 <= k < s.len() ==> terms_view(s)[k] == (match s[k] {
                Ok(t) => Ok::<TermView, LexicalError>(t@),
                Err(e) => Err::<TermView, LexicalError>(e),
            }),
    decreases s.len(),
{
    if s.len() > 0 {
        lemma_terms_view(s.drop_last());
        assert(terms_view(s) == terms_view(s.drop_last()).push(
            match s.last() {
                Ok(t) => Ok::<TermView, LexicalError>(t@),
                Err(e) => Err::<TermView, LexicalError>(e),
            },
        ));
        assert forall|k: int|
            0 <= k < s.len() implies terms_view(s)[k] == (match s[k] {
            Ok(t) => Ok::<TermView, LexicalError>(t@),
            Err(e) => Err::<TermView, LexicalError>(e),
        }) by {
            if k < s.len() - 1 {
                assert(s.drop_last()[k] == s[k]);
                assert(terms_view(s)[k] == terms_view(s.drop_last())[k]);
            } else {
                assert(s.last() == s[k]);
            }
        }
    }
}

/// Fold accumulated terms: a single term stands alone, anything else is an
/// implicit concatenation.
pub open spec fn fold_terms(acc: Seq<HirView>) -> HirView {
    if acc.len() == 1 {
        acc[0]
    } else {
        HirView::Concatenation(acc)
    }
}

/// One pass of the recursive-descent parser from position `i` with the
/// accumulated terms `acc`. Yields the parsed regex and the position one
/// past the last consumed token.
pub open spec fn sp_loop(
    toks: Seq<Result<TermView, LexicalError>>,
    i: int,
    in_parens: bool,
    acc: Seq<HirView>,
) -> (Result<HirView, Error>, int)
    decreases toks.len() - i, 0int when 0 <= i <= toks.len()
{
    if i >= toks.len() {
        (Ok(fold_terms(acc)), i)
    } else {
        match toks[i] {
            Err(e) => (Err(Error::LexicalError(e)), i + 1),
            Ok(t) => match t {
                TermView::Sequence(cs) => sp_loop(
                    toks,
                    i + 1,
                    in_parens,
                    acc.push(HirView::Sequence(cs)),
                ),
                TermView::AnyChar => sp_loop(toks, i + 1, in_parens, acc.push(HirView::AnyChar)),
                TermView::Repetition { min, max } => {
                    if acc.len() == 0 {
                        (Err(Error::ParsingError(ParsingError::StandaloneRepetition)), i + 1)
                    } else {
                        sp_loop(
                            toks,
                            i + 1,
                            in_parens,
                            acc.drop_last().push(
                                HirView::Repetition { regex: Box::new(acc.last()), min, max },
                            ),
                        )
                    }
                },
                TermView::CharSet(ms) => sp_loop(
                    toks,
                    i + 1,
                    in_parens,
                    acc.push(HirView::CharSet(ms)),
                ),
                TermView::NegatedSet(ms) => sp_loop(
                    toks,
                    i + 1,
                    in_parens,
                    acc.push(HirView::NegatedSet(ms)),
                ),
                TermView::Alternation => {
                    let (right, j) = sp_parse(toks, i + 1, in_parens);
                    match right {
                        Err(e) => (Err(e), j),
                        Ok(r) => {
                            let left = fold_terms(acc);
                            match r {
                                HirView::Alternation(alts) => (
                                    Ok(
                                        HirView::Alternation(
                                            Seq::<HirView>::empty().push(left) + alts,
                                        ),
                                    ),
                                    j,
                                ),
                                _ => (
                                    Ok(
                                        HirView::Alternation(
                                            Seq::<HirView>::empty().push(left).push(r),
                                        ),
                                    ),
                                    j,
                                ),
                            }
                        },
                    }
                },
                TermView::LParenthesis => {
                    let (inner, j0) = sp_parse(toks, i + 1, true);
                    let j = if j0 <= i + 1 {
                        i + 1
                    } else if j0 > toks.len() {
                        toks.len() as int
                    } else {
                        j0
                    };
                    match inner {
                        Err(e) => (Err(e), j),
                        Ok(h) => sp_loop(toks, j, in_parens, acc.push(h)),
                    }
                },
                TermView::RParenthesis => {
                    if in_parens {
                        (Ok(fold_terms(acc)), i + 1)
                    } else {
                        (Err(Error::ParsingError(ParsingError::UnexpectedRParenthesis)), i + 1)
                    }
                },
                TermView::Subexpression(name) => sp_loop(
                    toks,
                    i + 1,
                    in_parens,
                    acc.push(HirView::SubRegex(name)),
                ),
            },
        }
    }
}

/// Parse a regex from position `i`: accumulate terms until the end of the
/// input or, inside a group, the closing parenthesis.
pub open spec fn sp_parse(toks: Seq<Result<TermView, LexicalError>>, i: int, in_parens: bool) -> (
    Result<HirView, Error>,
    int,
)
    decreases toks.len() - i, 1int when 0 <= i <= toks.len()
{
    sp_loop(toks, i, in_parens, Seq::empty())
}

/// The parser always stops within the token list, after at least one token
/// when any is left.
pub proof fn lemma_sp_loop_range(
    toks: Seq<Result<TermView, LexicalError>>,
    i: int,
    in_parens: bool,
    acc: Seq<HirView>,
)
    requires
        0 <= i <= toks.len(),
    ensures
        i <= sp_loop(toks, i, in_parens, acc).1 <= toks.len(),
    decreases toks.len() - i, 0int,
{
    if i < toks.len() {
        match toks[i] {
            Err(_) => {},
            Ok(t) => match t {
                TermView::Sequence(cs) => {
                    lemma_sp_loop_range(toks, i + 1, in_parens, acc.push(HirView::Sequence(cs)));
                },
                TermView::AnyChar => {
                    lemma_sp_loop_range(toks, i + 1, in_parens, acc.push(HirView::AnyChar));
                },
                TermView::Repetition { min, max } => {
                    if acc.len() > 0 {
                        lemma_sp_loop_range(
                            toks,
                            i + 1,
                            in_parens,
                            acc.drop_last().push(
                                HirView::Repetition { regex: Box::new(acc.last()), min, max },
                            ),
                        );
                    }
                },
                TermView::CharSet(ms) => {
                    lemma_sp_loop_range(toks, i + 1, in_parens, acc.push(HirView::CharSet(ms)));
                },
                TermView::NegatedSet(ms) => {
                    lemma_sp_loop_range(toks, i + 1, in_parens, acc.push(HirView::NegatedSet(ms)));
                },
                TermView::Alternation => {
                    lemma_sp_parse_range(toks, i + 1, in_parens);
                },
                TermView::LParenthesis => {
                    lemma_sp_parse_range(toks, i + 1, true);
                    let (inner, j0) = sp_parse(toks, i + 1, true);
                    let j = if j0 <= i + 1 {
                        i + 1
                    } else if j0 > toks.len() {
                        toks.len() as int
                    } else {
                        j0
                    };
                    match inner {
                        Err(_) => {},
                        Ok(h) => {
                            lemma_sp_loop_range(toks, j, in_parens, acc.push(h));
                        },
                    }
                },
                TermView::RParenthesis => {},
                TermView::Subexpression(name) => {
                    lemma_sp_loop_range(toks, i + 1, in_parens, acc.push(HirView::SubRegex(name)));
                },
            },
        }
    }
}

/// The parser always stops within the token list.
pub proof fn lemma_sp_parse_range(
    toks: Seq<Result<TermView, LexicalError>>,
    i: int,
    in_parens: bool,
)
    requires
        0 <= i <= toks.len(),
    ensures
        i <= sp_parse(toks, i, in_parens).1 <= toks.len(),
    decreases toks.len() - i, 1int,
{
    lemma_sp_loop_range(toks, i, in_parens, Seq::empty());
}

/// The shapes of a list of category-lexing outcomes.
pub enum CatView {
    Sequence(Seq<char>),
    Category(Seq<char>),
}

impl<'a> View for CategoryNonterminal<'a> {
    type V = CatView;

    open spec fn view(&self) -> CatView {
        match *self {
            CategoryNonterminal::Sequence(s) => CatView::Sequence(s@),
            CategoryNonterminal::Category(s) => CatView::Category(s@),
        }
    }
}

/// The shapes of a list of category-lexing outcomes.
pub open spec fn cat_terms_view(s: Seq<CategoryResult>) -> Seq<Result<CatView, LexicalError>>
    decreases s.len(),
{
    if s.len() == 0 {
        Seq::empty()
    } else {
        cat_terms_view(s.drop_last()).push(
            match s.last() {
                Ok(t) => Ok(t@),
                Err(e) => Err(e),
            },
        )
    }
}

/// Indexing the shapes of a category token list indexes the list.
pub proof fn lemma_cat_terms_view(s: Seq<CategoryResult>)
    ensures
        cat_terms_view(s).len() == s.len(),
        forall|k: int|
            0 <= k < s.len() ==> cat_terms_view(s)[k] == (match s[k] {
                Ok(t) => Ok::<CatView, LexicalError>(t@),
                Err(e) => Err::<CatView, LexicalError>(e),
            }),
    decreases s.len(),
{
    if s.len() > 0 {
        lemma_cat_terms_view(s.drop_last());
        assert(cat_terms_view(s) == cat_terms_view(s.drop_last()).push(
            match s.last() {
                Ok(t) => Ok::<CatView, LexicalError>(t@),
                Err(e) => Err::<CatView, LexicalError>(e),
            },
        ));
        assert forall|k: int|
            0 <= k < s.len() implies cat_terms_view(s)[k] == (match s[k] {
            Ok(t) => Ok::<CatView, LexicalError>(t@),
            Err(e) => Err::<CatView, LexicalError>(e),
        }) by {
            if k < s.len() - 1 {
                assert(s.drop_last()[k] == s[k]);
                assert(cat_terms_view(s)[k] == cat_terms_view(s.drop_last())[k]);
            } else {
                assert(s.last() == s[k]);
            }
        }
    }
}

/// Each character of a literal run, as a set member.
pub open spec fn chars_members(cs: Seq<char>) -> Seq<MemberView>
    decreases cs.len(),
{
    if cs.len() == 0 {
        Seq::empty()
    } else {
        chars_members(cs.drop_last()).push(MemberView::Character(cs.last()))
    }
}

/// What parsing a category body from position `i` with members `acc`
/// already collected produces: the flat list of all its members.
pub open spec fn sp_category(
    toks: Seq<Result<CatView, LexicalError>>,
    i: int,
    acc: Seq<MemberView>,
) -> Result<Seq<MemberView>, Error>
    decreases toks.len() - i when 0 <= i <= toks.len()
{
    if i >= toks.len() {
        Ok(acc)
    } else {
        match toks[i] {
            Err(e) => Err(Error::LexicalError(e)),
            Ok(t) => match t {
                CatView::Sequence(cs) => sp_category(toks, i + 1, acc + chars_members(cs)),
                CatView::Category(name) => sp_category(
                    toks,
                    i + 1,
                    acc.push(MemberView::Category(name)),
                ),
            },
        }
    }
}

/// Copy a member list.
fn clone_members<'a>(ms: &Vec<SetMember<'a>>) -> (r: Vec<SetMember<'a>>)
    ensures
        r@ == ms@,
{
    let mut r: Vec<SetMember<'a>> = Vec::new();
    let mut i: usize = 0;
    while i < ms.len()
        invariant
            0 <= i <= ms@.len(),
            r@ == ms@.take(i as int),
        decreases ms@.len() - i,
    {
        r.push(ms[i]);
        proof {
            assert(ms@.take(i + 1).drop_last() =~= ms@.take(i as int));
            assert(r@ =~= ms@.take(i + 1));
        }
        i = i + 1;
    }
    proof {
        assert(ms@.take(ms@.len() as int) =~= ms@);
    }
    r
}

/// Fold the accumulated terms of one grouping depth: exactly one term
/// stands alone, anything else becomes an implicit concatenation.
fn fold_regexes<'a>(mut regexes: Vec<HIR<'a>>) -> (r: HIR<'a>)
    ensures
        r@ == fold_terms(hirs_view(regexes@)),
{
    proof {
        lemma_hirs_view(regexes@);
    }
    if regexes.len() == 1 {
        match regexes.pop() {
            Some(h) => h,
            None => HIR::AnyChar,
        }
    } else {
        HIR::Concatenation(regexes)
    }
}

/// Parse regex terminals from `*idx` on, accumulating terms, until the end
/// of the input or, inside a group, the closing parenthesis.
#[verifier::rlimit(100)]
#[verifier::spinoff_prover]
fn parse_regex_to<'a>(tokens: &Vec<RegexResult<'a>>, idx: &mut usize, in_parens: bool) -> (r:
    Result<HIR<'a>, Error>)
    requires
        *old(idx) <= tokens@.len(),
    ensures
        ({
            let toks = terms_view(tokens@);
            let (res, j) = sp_parse(toks, *old(idx) as int, in_parens);
            &&& *final(idx) == j
            &&& *old(idx) <= *final(idx) <= tokens@.len()
            &&& (match res {
                Ok(v) => r matches Ok(h) && h@ == v,
                Err(e) => r == Err::<HIR<'a>, Error>(e),
            })
        }),
    decreases tokens@.len() - *old(idx),
{
    let ghost toks = terms_view(tokens@);
    let ghost i0 = *old(idx) as int;
    proof {
        lemma_terms_view(tokens@);
        lemma_sp_parse_range(toks, i0, in_parens);
    }
    let mut regexes: Vec<HIR<'a>> = Vec::new();
    loop
        invariant
            toks == terms_view(tokens@),
            toks.len() == tokens@.len(),
            i0 == *old(idx) as int,
            i0 <= *idx as int <= tokens@.len(),
            sp_loop(toks, *idx as int, in_parens, hirs_view(regexes@)) == sp_parse(
                toks,
                i0,
                in_parens,
            ),
        decreases tokens@.len() - *idx,
    {
        proof {
            lemma_terms_view(tokens@);
            lemma_hirs_view(regexes@);
        }
        let ghost i = *idx as int;
        let ghost vs = hirs_view(regexes@);
        if *idx >= tokens.len() {
            let r = fold_regexes(regexes);
            return Ok(r);
        }
        let here = *idx;
        *idx = *idx + 1;
        match &tokens[here] {
            Err(e) => {
                return Err(Error::LexicalError(*e));
            },
            Ok(term) => {
                match term {
                    RegexTerminal::Sequence(sl) => {
                        let ghost rs0 = regexes@;
                        regexes.push(HIR::Sequence(sl));
                        proof {
                            lemma_hirs_view_push(rs0, regexes@.last());
                            assert(hirs_view(regexes@) == vs.push(HirView::Sequence(sl@)));
                        }
                    },
                    RegexTerminal::AnyChar => {
                        let ghost rs0 = regexes@;
                        regexes.push(HIR::AnyChar);
                        proof {
                            lemma_hirs_view_push(rs0, regexes@.last());
                            assert(hirs_view(regexes@) == vs.push(HirView::AnyChar));
                        }
                    },
                    RegexTerminal::Repetition { min, max } => {
                        if regexes.len() == 0 {
                            return Err(Error::ParsingError(ParsingError::StandaloneRepetition));
                        }
                        let ghost rs0 = regexes@;
                        let last = match regexes.pop() {
                            Some(h) => h,
                            None => HIR::AnyChar,
                        };
                        proof {
                            assert(regexes@ =~= rs0.drop_last());
                            assert(vs == hirs_view(regexes@).push(last@));
                            assert(vs.drop_last() =~= hirs_view(regexes@));
                            assert(vs.last() == last@);
                        }
                        let ghost rs1 = regexes@;
                        regexes.push(
                            HIR::Repetition { regex: Box::new(last), min: *min, max: *max },
                        );
                        proof {
                            lemma_hirs_view_push(rs1, regexes@.last());
                            assert(regexes@.last()@ == (HirView::Repetition {
                                regex: Box::new(vs.last()),
                                min: *min,
                                max: *max,
                            }));
                            assert(hirs_view(regexes@) == vs.drop_last().push(
                                HirView::Repetition {
                                    regex: Box::new(vs.last()),
                                    min: *min,
                                    max: *max,
                                },
                            ));
                        }
                    },
                    RegexTerminal::CharSet(ms) => {
                        let owned = clone_members(ms);
                        proof {
                            lemma_members_view(ms@);
                        }
                        let ghost rs0 = regexes@;
                        regexes.push(HIR::CharSet(owned));
                        proof {
                            lemma_hirs_view_push(rs0, regexes@.last());
                            assert(hirs_view(regexes@) == vs.push(
                                HirView::CharSet(members_view(ms@)),
                            ));
                        }
                    },
                    RegexTerminal::NegatedSet(ms) => {
                        let owned = clone_members(ms);
                        proof {
                            lemma_members_view(ms@);
                        }
                        let ghost rs0 = regexes@;
                        regexes.push(HIR::NegatedSet(owned));
                        proof {
                            lemma_hirs_view_push(rs0, regexes@.last());
                            assert(hirs_view(regexes@) == vs.push(
                                HirView::NegatedSet(members_view(ms@)),
                            ));
                        }
                    },
                    RegexTerminal::Alternation => {
                        let left = fold_regexes(regexes);
                        proof {
                            lemma_sp_parse_range(toks, i + 1, in_parens);
                        }
                        let right = parse_regex_to(tokens, idx, in_parens);
                        match right {
                            Err(e) => {
                                return Err(e);
                            },
                            Ok(h) => {
                                match h {
                                    HIR::Alternation(mut alts) => {
                                        let ghost av = hirs_view(alts@);
                                        proof {
                                            lemma_hirs_view(alts@);
                                        }
                                        alts.insert(0, left);
                                        proof {
                                            lemma_hirs_view(alts@);
                                            assert(hirs_view(alts@) =~= Seq::<
                                                HirView,
                                            >::empty().push(left@) + av);
                                        }
                                        return Ok(HIR::Alternation(alts));
                                    },
                                    other => {
                                        let mut alts: Vec<HIR<'a>> = Vec::new();
                                        alts.push(left);
                                        let ghost a1 = alts@;
                                        alts.push(other);
                                        proof {
                                            lemma_hirs_view_push(Seq::<HIR>::empty(), a1.last());
                                            lemma_hirs_view_push(a1, alts@.last());
                                            assert(a1 =~= Seq::<HIR>::empty().push(a1.last()));
                                            assert(hirs_view(alts@) =~= Seq::<
                                                HirView,
                                            >::empty().push(left@).push(alts@[1]@));
                                        }
                                        return Ok(HIR::Alternation(alts));
                                    },
                                }
                            },
                        }
                    },
                    RegexTerminal::LParenthesis => {
                        proof {
                            lemma_sp_parse_range(toks, i + 1, true);
                        }
                        let inner = parse_regex_to(tokens, idx, true);
                        match inner {
                            Err(e) => {
                                return Err(e);
                            },
                            Ok(h) => {
                                let ghost rs0 = regexes@;
                                regexes.push(h);
                                proof {
                                    lemma_hirs_view_push(rs0, regexes@.last());
                                }
                            },
                        }
                    },
                    RegexTerminal::RParenthesis => {
                        if in_parens {
                            let r = fold_regexes(regexes);
                            return Ok(r);
                        } else {
                            return Err(Error::ParsingError(ParsingError::UnexpectedRParenthesis));
                        }
                    },
                    RegexTerminal::Subexpression(name) => {
                        let ghost rs0 = regexes@;
                        regexes.push(HIR::SubRegex(name));
                        proof {
                            lemma_hirs_view_push(rs0, regexes@.last());
                            assert(hirs_view(regexes@) == vs.push(HirView::SubRegex(name@)));
                        }
                    },
                }
            },
        }
    }
}

/// Parse a regular expression from its lexed terminals and return its
/// high-level intermediate representation.
pub fn parse_regex<'a>(input: &Vec<RegexResult<'a>>) -> (r: Result<HIR<'a>, Error>)
    ensures
        ({
            let (res, j) = sp_parse(terms_view(input@), 0, false);
            match res {
                Ok(v) => r matches Ok(h) && h@ == v,
                Err(e) => r == Err::<HIR<'a>, Error>(e),
            }
        }),
{
    let mut idx: usize = 0;
    parse_regex_to(input, &mut idx, false)
}

/// Parse a category body from its lexed terminals: the flat set of all its
/// members.
pub fn parse_category<'a>(input: &Vec<CategoryResult<'a>>) -> (r: Result<HIR<'a>, Error>)
    ensures
        ({
            let res = sp_category(cat_terms_view(input@), 0, Seq::empty());
            match res {
                Ok(ms) => r matches Ok(h) && h@ == HirView::CharSet(ms),
                Err(e) => r == Err::<HIR<'a>, Error>(e),
            }
        }),
{
    let ghost toks = cat_terms_view(input@);
    proof {
        lemma_cat_terms_view(input@);
    }
    let mut set_members: Vec<SetMember<'a>> = Vec::new();
    let mut i: usize = 0;
    while i < input.len()
        invariant
            toks == cat_terms_view(input@),
            toks.len() == input@.len(),
            0 <= i <= input@.len(),
            sp_category(toks, i as int, members_view(set_members@)) == sp_category(
                toks,
                0,
                Seq::empty(),
            ),
        decreases input@.len() - i,
    {
        proof {
            lemma_cat_terms_view(input@);
        }
        let ghost mv = members_view(set_members@);
        match &input[i] {
            Err(e) => {
                return Err(Error::LexicalError(*e));
            },
            Ok(term) => {
                match term {
                    CategoryNonterminal::Sequence(sl) => {
                        let n = sl.unicode_len();
                        let mut k: usize = 0;
                        while k < n
                            invariant
                                0 <= k <= n,
                                n == sl@.len(),
                                members_view(set_members@) == mv + chars_members(sl@.take(k as int)),
                            decreases n - k,
                        {
                            let c = sl.get_char(k);
                            let ghost sm0 = set_members@;
                            set_members.push(SetMember::Character(c));
                            proof {
                                assert(sl@.take(k + 1).drop_last() =~= sl@.take(k as int));
                                assert(sl@.take(k + 1).last() == sl@[k as int]);
                                assert(chars_members(sl@.take(k + 1)) == chars_members(
                                    sl@.take(k as int),
                                ).push(MemberView::Character(sl@[k as int])));
                                lemma_members_view_push(sm0, set_members@.last());
                                assert(members_view(set_members@) =~= mv + chars_members(
                                    sl@.take(k + 1),
                                ));
                            }
                            k = k + 1;
                        }
                        proof {
                            assert(sl@.take(sl@.len() as int) =~= sl@);
                        }
                    },
                    CategoryNonterminal::Category(name) => {
                        let ghost sm0 = set_members@;
                        set_members.push(SetMember::Category(name));
                        proof {
                            lemma_members_view_push(sm0, set_members@.last());
                            assert(members_view(set_members@) == mv.push(
                                MemberView::Category(name@),
                            ));
                        }
                    },
                }
            },
        }
        i = i + 1;
    }
    Ok(HIR::CharSet(set_members))
}

} // verus!
