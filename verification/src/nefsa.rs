//! The nondeterministic finite state automaton with epsilon transitions:
//! the target of Thompson-style construction from resolved regexes.

use crate::matchers::{matcher_matches, Matcher, SingleMatcher};
use crate::mir::MIR;
use vstd::prelude::*;

verus! {

/// A construction error: a literal token rule with nothing to match.
#[derive(Debug, Clone, Copy, PartialEq, Eq, Structural)]
pub enum ConstructionError {
    /// A literal-token pattern string must not be empty.
    EmptyLiteralSource,
}

/// One state: labeled transitions (`None` is an epsilon transition), and
/// the token accepted when a scan ends here, if any.
pub struct NEFSAState<Token> {
    pub transitions: Vec<(Option<Matcher>, Vec<usize>)>,
    pub token: Option<Token>,
}

/// A nondeterministic finite state automaton with epsilon transitions.
/// State 0 is always the start state.
pub struct NEFSA<Token> {
    pub states: Vec<NEFSAState<Token>>,
}

/// Every transition of the state targets a state below `bound`.
pub open spec fn state_closed<Token>(s: NEFSAState<Token>, bound: int) -> bool {
    forall|t: int, u: int|
        0 <= t < s.transitions@.len() && 0 <= u < s.transitions@[t].1@.len() ==> #[trigger] s
            .transitions@[t].1@[u] < bound
}

/// Every transition of every state targets a state below `bound`.
pub open spec fn states_closed<Token>(ss: Seq<NEFSAState<Token>>, bound: int) -> bool {
    forall|k: int| 0 <= k < ss.len() ==> state_closed(#[trigger] ss[k], bound)
}

/// `x` is reached from `s` on the character `c` by a labeled transition.
pub open spec fn char_step<Token>(s: NEFSAState<Token>, c: char, x: int) -> bool {
    exists|t: int, u: int|
        {
            &&& 0 <= t < s.transitions@.len()
            &&& 0 <= u < s.transitions@[t].1@.len()
            &&& s.transitions@[t].0 matches Some(m) && matcher_matches(m, c)
            &&& #[trigger] s.transitions@[t].1@[u] == x
        }
}

/// `x` is reached from `s` by an epsilon transition.
pub open spec fn eps_step<Token>(s: NEFSAState<Token>, x: int) -> bool {
    exists|t: int, u: int|
        {
            &&& 0 <= t < s.transitions@.len()
            &&& 0 <= u < s.transitions@[t].1@.len()
            &&& s.transitions@[t].0 is None
            &&& #[trigger] s.transitions@[t].1@[u] == x
        }
}

/// A strictly increasing sequence of state indices.
pub open spec fn sorted_unique(s: Seq<usize>) -> bool {
    forall|i: int, j: int| 0 <= i < j < s.len() ==> s[i] < s[j]
}

/// Insert a state index into a sorted set of indices, keeping it sorted
/// and duplicate-free.
pub fn insert_sorted(v: &mut Vec<usize>, x: usize)
    requires
        sorted_unique(old(v)@),
    ensures
        sorted_unique(final(v)@),
        forall|y: usize| final(v)@.contains(y) <==> (old(v)@.contains(y) || y == x),
        old(v)@.contains(x) ==> final(v)@.len() == old(v)@.len(),
        !old(v)@.contains(x) ==> final(v)@.len() == old(v)@.len() + 1,
{
    let ghost v0 = v@;
    let mut i: usize = 0;
    while i < v.len() && v[i] < x
        invariant
            0 <= i <= v@.len(),
            v@ == v0,
            sorted_unique(v@),
            forall|k: int| 0 <= k < i ==> v@[k] < x,
        decreases v@.len() - i,
    {
        i = i + 1;
    }
    if i < v.len() {
        let here = v[i];
        if here == x {
            proof {
                assert(v0.contains(x)) by {
                    assert(v0[i as int] == x);
                }
            }
            return ;
        }
        v.insert(i, x);
        proof {
            assert(!v0.contains(x)) by {
                if v0.contains(x) {
                    let k = choose|k: int| 0 <= k < v0.len() && v0[k] == x;
                    if k > i {
                        assert(v0[i as int] < v0[k]);
                    }
                }
            }
            assert(v@ == v0.insert(i as int, x));
            assert forall|a: int, b: int| 0 <= a < b < v@.len() implies v@[a] < v@[b] by {
                if b < i {
                } else if a < i && b == i {
                } else if a < i && b > i {
                    assert(v@[b] == v0[b - 1]);
                } else if a == i {
                    assert(v@[b] == v0[b - 1]);
                    assert(v0[b - 1] >= v0[i as int]);
                } else {
                    assert(v@[a] == v0[a - 1] && v@[b] == v0[b - 1]);
                }
            }
            assert forall|y: usize| final(v)@.contains(y) implies (v0.contains(y) || y == x) by {
                let k = choose|k: int| 0 <= k < v@.len() && v@[k] == y;
                if k < i {
                    assert(v0[k] == y);
                } else if k > i {
                    assert(v0[k - 1] == y);
                }
            }
            assert forall|y: usize| (v0.contains(y) || y == x) implies final(v)@.contains(y) by {
                if y == x {
                    assert(v@[i as int] == x);
                } else {
                    let k = choose|k: int| 0 <= k < v0.len() && v0[k] == y;
                    if k < i {
                        assert(v@[k] == y);
                    } else {
                        assert(v@[k + 1] == y);
                    }
                }
            }
        }
    } else {
        v.push(x);
        proof {
            assert(!v0.contains(x)) by {
                if v0.contains(x) {
                    let k = choose|k: int| 0 <= k < v0.len() && v0[k] == x;
                }
            }
            assert(v@ == v0.push(x));
            assert forall|y: usize| final(v)@.contains(y) implies (v0.contains(y) || y == x) by {
                let k = choose|k: int| 0 <= k < v@.len() && v@[k] == y;
                if k < v0.len() {
                    assert(v0[k] == y);
                }
            }
            assert forall|y: usize| (v0.contains(y) || y == x) implies final(v)@.contains(y) by {
                if y == x {
                    assert(v@[v@.len() - 1] == x);
                } else {
                    let k = choose|k: int| 0 <= k < v0.len() && v0[k] == y;
                    assert(v@[k] == y);
                }
            }
        }
    }
}

impl<Token> NEFSA<Token> {
    /// Every transition targets an existing state.
    pub open spec fn wf(&self) -> bool {
        states_closed(self.states@, self.states@.len() as int)
    }

    /// Parse a token specification and create a nondeterministic finite
    /// state automaton with epsilon transitions from it.
    ///
    /// Tokens match the literal characters, so the source is directly
    /// translated into a chain of single-character transitions.
    pub fn from_token(result: Token, source: &str) -> (r: Result<NEFSA<Token>, ConstructionError>)
        ensures
            source@.len() == 0 ==> r matches Err(ConstructionError::EmptyLiteralSource),
            source@.len() > 0 ==> (r matches Ok(a) && {
                &&& a.states@.len() == source@.len() + 1
                &&& a.wf()
                &&& forall|i: int|
                    0 <= i < source@.len() ==> {
                        let st = #[trigger] a.states@[i];
                        &&& st.token is None
                        &&& st.transitions@.len() == 1
                        &&& st.transitions@[0].0 == Some(
                            Matcher::SingleMatcher(SingleMatcher::Character(source@[i])),
                        )
                        &&& st.transitions@[0].1@.len() == 1
                        &&& st.transitions@[0].1@[0] == i + 1
                    }
                &&& a.states@.last().transitions@.len() == 0
                &&& a.states@.last().token == Some(result)
            }),
    {
        let n = source.unicode_len();
        if n == 0 {
            return Err(ConstructionError::EmptyLiteralSource);
        }
        let mut states: Vec<NEFSAState<Token>> = Vec::new();
        let mut i: usize = 0;
        while i < n
            invariant
                0 <= i <= n,
                n == source@.len(),
                states@.len() == i,
                forall|k: int|
                    0 <= k < i ==> {
                        let st = #[trigger] states@[k];
                        &&& st.token is None
                        &&& st.transitions@.len() == 1
                        &&& st.transitions@[0].0 == Some(
                            Matcher::SingleMatcher(SingleMatcher::Character(source@[k])),
                        )
                        &&& st.transitions@[0].1@.len() == 1
                        &&& st.transitions@[0].1@[0] == k + 1
                    },
            decreases n - i,
        {
            let c = source.get_char(i);
            let mut targets: Vec<usize> = Vec::new();
            targets.push(i + 1);
            let mut transitions: Vec<(Option<Matcher>, Vec<usize>)> = Vec::new();
            transitions.push((Some(Matcher::SingleMatcher(SingleMatcher::Character(c))), targets));
            states.push(NEFSAState { transitions, token: None });
            i = i + 1;
        }
        states.push(NEFSAState { transitions: Vec::new(), token: Some(result) });
        proof {
            assert forall|k: int| 0 <= k < states@.len() implies state_closed(
                #[trigger] states@[k],
                states@.len() as int,
            ) by {}
        }
        Ok(NEFSA { states })
    }

    /// The set of states reached from `state` on the character `c`, as a
    /// sorted list without duplicates: the union of the target sets of
    /// every entry whose matcher accepts `c`, epsilon entries included.
    pub fn transition(&self, state: usize, c: char) -> (r: Vec<usize>)
        requires
            (state as int) < self.states@.len(),
        ensures
            sorted_unique(r@),
            forall|x: usize|
                r@.contains(x) <==> (char_step(self.states@[state as int], c, x as int)
                    || eps_step(self.states@[state as int], x as int)),
    {
        let ghost st = self.states@[state as int];
        let mut result: Vec<usize> = Vec::new();
        let transitions = &self.states[state].transitions;
        let mut t: usize = 0;
        while t < transitions.len()
            invariant
                0 <= t <= transitions@.len(),
                transitions@ == st.transitions@,
                sorted_unique(result@),
                forall|x: usize|
                    result@.contains(x) ==> (char_step(st, c, x as int) || eps_step(
                        st,
                        x as int,
                    )),
                forall|tt: int, u: int|
                    {
                        (0 <= tt < t && 0 <= u < st.transitions@[tt].1@.len() && (st.transitions@[
                            tt].0 is None || (st.transitions@[tt].0 matches Some(m)
                            && matcher_matches(m, c)))) ==> result@.contains(
                            #[trigger] st.transitions@[tt].1@[u],
                        )
                    },
            decreases transitions@.len() - t,
        {
            let matches_here = match &transitions[t].0 {
                Some(m) => m.is_matching(c),
                None => true,
            };
            if matches_here {
                let targets = &transitions[t].1;
                let mut u: usize = 0;
                while u < targets.len()
                    invariant
                        0 <= u <= targets@.len(),
                        0 <= t < transitions@.len(),
                        transitions@ == st.transitions@,
                        targets@ == st.transitions@[t as int].1@,
                        st.transitions@[t as int].0 is None || (st.transitions@[
                            t as int].0 matches Some(m) && matcher_matches(m, c)),
                        sorted_unique(result@),
                        forall|x: usize|
                            result@.contains(x) ==> (char_step(st, c, x as int) || eps_step(
                                st,
                                x as int,
                            )),
                        forall|tt: int, uu: int|
                            {
                                (0 <= tt < t && 0 <= uu < st.transitions@[tt].1@.len() && (st
                                    .transitions@[tt].0 is None || (st.transitions@[
                                    tt].0 matches Some(m) && matcher_matches(m, c))))
                                    ==> result@.contains(#[trigger] st.transitions@[tt].1@[uu])
                            },
                        forall|uu: int|
                            0 <= uu < u ==> result@.contains(
                                #[trigger] st.transitions@[t as int].1@[uu],
                            ),
                    decreases targets@.len() - u,
                {
                    let x = targets[u];
                    insert_sorted(&mut result, x);
                    proof {
                        if st.transitions@[t as int].0 is None {
                            assert(eps_step(st, x as int));
                        } else {
                            assert(char_step(st, c, x as int));
                        }
                    }
                    u = u + 1;
                }
            }
            t = t + 1;
        }
        proof {
            assert forall|x: usize| char_step(st, c, x as int) implies result@.contains(x) by {
                let (tt, u) = choose|tt: int, u: int|
                    {
                        &&& 0 <= tt < st.transitions@.len()
                        &&& 0 <= u < st.transitions@[tt].1@.len()
                        &&& st.transitions@[tt].0 matches Some(m) && matcher_matches(m, c)
                        &&& #[trigger] st.transitions@[tt].1@[u] == x
                    };
            }
            assert forall|x: usize| eps_step(st, x as int) implies result@.contains(x) by {
                let (tt, u) = choose|tt: int, u: int|
                    {
                        &&& 0 <= tt < st.transitions@.len()
                        &&& 0 <= u < st.transitions@[tt].1@.len()
                        &&& st.transitions@[tt].0 is None
                        &&& #[trigger] st.transitions@[tt].1@[u] == x
                    };
            }
        }
        result
    }

    /// The set of states reached from `state` by one epsilon transition.
    pub fn epsilon_transitions(&self, state: usize) -> (r: Vec<usize>)
        requires
            (state as int) < self.states@.len(),
        ensures
            sorted_unique(r@),
            forall|x: usize| r@.contains(x) <==> eps_step(self.states@[state as int], x as int),
    {
        let ghost st = self.states@[state as int];
        let mut result: Vec<usize> = Vec::new();
        let transitions = &self.states[state].transitions;
        let mut t: usize = 0;
        while t < transitions.len()
            invariant
                0 <= t <= transitions@.len(),
                transitions@ == st.transitions@,
                sorted_unique(result@),
                forall|x: usize| result@.contains(x) ==> eps_step(st, x as int),
                forall|tt: int, u: int|
                    {
                        (0 <= tt < t && 0 <= u < st.transitions@[tt].1@.len() && st.transitions@[
                            tt].0 is None) ==> result@.contains(
                            #[trigger] st.transitions@[tt].1@[u],
                        )
                    },
            decreases transitions@.len() - t,
        {
            let is_eps = transitions[t].0.is_none();
            if is_eps {
                let targets = &transitions[t].1;
                let mut u: usize = 0;
                while u < targets.len()
                    invariant
                        0 <= u <= targets@.len(),
                        0 <= t < transitions@.len(),
                        transitions@ == st.transitions@,
                        targets@ == st.transitions@[t as int].1@,
                        st.transitions@[t as int].0 is None,
                        sorted_unique(result@),
                        forall|x: usize| result@.contains(x) ==> eps_step(st, x as int),
                        forall|tt: int, uu: int|
                            {
                                (0 <= tt < t && 0 <= uu < st.transitions@[tt].1@.len() && st
                                    .transitions@[tt].0 is None) ==> result@.contains(
                                    #[trigger] st.transitions@[tt].1@[uu],
                                )
                            },
                        forall|uu: int|
                            0 <= uu < u ==> result@.contains(
                                #[trigger] st.transitions@[t as int].1@[uu],
                            ),
                    decreases targets@.len() - u,
                {
                    let x = targets[u];
                    insert_sorted(&mut result, x);
                    proof {
                        assert(eps_step(st, x as int));
                    }
                    u = u + 1;
                }
            }
            t = t + 1;
        }
        proof {
            assert forall|x: usize| eps_step(st, x as int) implies result@.contains(x) by {
                let (tt, u) = choose|tt: int, u: int|
                    {
                        &&& 0 <= tt < st.transitions@.len()
                        &&& 0 <= u < st.transitions@[tt].1@.len()
                        &&& st.transitions@[tt].0 is None
                        &&& #[trigger] st.transitions@[tt].1@[u] == x
                    };
            }
        }
        result
    }

    /// The token accepted at a state, if any.
    pub fn token(&self, state: usize) -> (r: Option<&Token>)
        requires
            (state as int) < self.states@.len(),
        ensures
            match r {
                Some(t) => self.states@[state as int].token == Some(*t),
                None => self.states@[state as int].token is None,
            },
    {
        self.states[state].token.as_ref()
    }
}

/// Append an epsilon transition from one existing state to another.
fn add_epsilon<Token>(states: &mut Vec<NEFSAState<Token>>, from: usize, to: usize)
    requires
        (from as int) < old(states)@.len(),
        (to as int) < old(states)@.len(),
    ensures
        final(states)@.len() == old(states)@.len(),
        forall|k: int|
            0 <= k < old(states)@.len() && k != from ==> final(states)@[k] == old(states)@[k],
        final(states)@[from as int].token == old(states)@[from as int].token,
        final(states)@[from as int].transitions@.len() == old(states)@[
            from as int].transitions@.len() + 1,
        forall|t: int|
            0 <= t < old(states)@[from as int].transitions@.len() ==> final(states)@[
                from as int].transitions@[t] == old(states)@[from as int].transitions@[t],
        final(states)@[from as int].transitions@.last().0 is None,
        final(states)@[from as int].transitions@.last().1@.len() == 1,
        final(states)@[from as int].transitions@.last().1@[0] == to,
        forall|b: int|
            states_closed(old(states)@, b) && to < b ==> states_closed(final(states)@, b),
{
    let ghost ss0 = states@;
    let mut targets: Vec<usize> = Vec::new();
    targets.push(to);
    let st = &mut states[from];
    st.transitions.push((None, targets));
    proof {
        assert forall|b: int| states_closed(ss0, b) && to < b implies states_closed(
            final(states)@,
            b,
        ) by {
            assert forall|k: int| 0 <= k < states@.len() implies state_closed(
                #[trigger] states@[k],
                b,
            ) by {
                assert(state_closed(ss0[k], b));
                if k == from {
                    let sf = states@[k];
                    assert forall|t: int, u: int|
                        0 <= t < sf.transitions@.len() && 0 <= u < sf.transitions@[t].1@.len()
                            implies #[trigger] sf.transitions@[t].1@[u] < b by {
                        if t < ss0[k].transitions@.len() {
                            assert(sf.transitions@[t] == ss0[k].transitions@[t]);
                        } else {
                            assert(sf.transitions@[t] == sf.transitions@.last());
                        }
                    }
                }
            }
        }
    }
}

/// How many times a repetition body is laid down: up to the bound when one
/// is given; once, ready to loop, when the repetition is unbounded (a
/// mandatory count when there is one).
pub open spec fn mir_copies(min: u16, max: Option<u16>) -> int {
    match max {
        Some(mx) => mx as int,
        None => if min == 0 {
            1
        } else {
            min as int
        },
    }
}

/// How many states the construction lays down for a regex node.
pub open spec fn mir_state_count(m: crate::mir::MirView) -> int
    decreases m,
{
    match m {
        crate::mir::MirView::Category(_) => 2,
        crate::mir::MirView::Sequence(cs) => cs.len() as int + 1,
        crate::mir::MirView::CharSet(_) => 2,
        crate::mir::MirView::NegatedSet(_) => 2,
        crate::mir::MirView::Concatenation(rs) => if rs.len() == 0 {
            1
        } else {
            mirs_state_count(rs)
        },
        crate::mir::MirView::Alternation(rs) => 2 + mirs_state_count(rs),
        crate::mir::MirView::Repetition { regex, min, max } => {
            let copies = mir_copies(min, max);
            if copies == 0 {
                1
            } else {
                copies * mir_state_count(*regex) + 1
            }
        },
    }
}

/// The states laid down for a list of regexes.
pub open spec fn mirs_state_count(s: Seq<crate::mir::MirView>) -> int
    decreases s,
{
    if s.len() == 0 {
        0
    } else {
        mir_state_count(s[0]) + mirs_state_count(s.drop_first())
    }
}

/// One list element peels off the front of the remaining count.
proof fn lemma_mirs_count_skip(s: Seq<crate::mir::MirView>, i: int)
    requires
        0 <= i < s.len(),
    ensures
        mirs_state_count(s.skip(i)) == mir_state_count(s[i]) + mirs_state_count(s.skip(i + 1)),
{
    assert(s.skip(i)[0] == s[i]);
    assert(s.skip(i).drop_first() =~= s.skip(i + 1));
}

/// The single matchers the members of a resolved set stand for.
pub open spec fn members_matchers(ms: Seq<crate::mir::SetMember>) -> Seq<SingleMatcher>
    decreases ms.len(),
{
    if ms.len() == 0 {
        Seq::empty()
    } else {
        members_matchers(ms.drop_last()).push(ms.last().spec_matcher())
    }
}

/// Indexing the matchers of a member list indexes the list.
pub proof fn lemma_members_matchers(ms: Seq<crate::mir::SetMember>)
    ensures
        members_matchers(ms).len() == ms.len(),
        forall|k: int|
            0 <= k < ms.len() ==> members_matchers(ms)[k] == (#[trigger] ms[k]).spec_matcher(),
    decreases ms.len(),
{
    if ms.len() > 0 {
        lemma_members_matchers(ms.drop_last());
        assert(members_matchers(ms) == members_matchers(ms.drop_last()).push(
            ms.last().spec_matcher(),
        ));
        assert forall|k: int| 0 <= k < ms.len() implies members_matchers(ms)[k] == (
        #[trigger] ms[k]).spec_matcher() by {
            if k < ms.len() - 1 {
                assert(ms.drop_last()[k] == ms[k]);
                assert(members_matchers(ms)[k] == members_matchers(ms.drop_last())[k]);
            } else {
                assert(ms.last() == ms[k]);
            }
        }
    }
}

/// The arrangement the construction gives the fragment of one regex node:
/// leaves are pinned exactly, an alternation's entry fans out one epsilon
/// per alternative, and an empty concatenation is a single silent state.
pub open spec fn fragment_shape<Token>(
    ss: Seq<NEFSAState<Token>>,
    en: int,
    ex: int,
    m: crate::mir::MirView,
) -> bool {
    match m {
        crate::mir::MirView::Category(c) => {
            &&& ex == en + 1
            &&& ss[en].transitions@.len() == 1
            &&& ss[en].transitions@[0].0 == Some(
                Matcher::SingleMatcher(SingleMatcher::Category(c)),
            )
            &&& ss[en].transitions@[0].1@.len() == 1
            &&& ss[en].transitions@[0].1@[0] == ex
        },
        crate::mir::MirView::Sequence(cs) => {
            &&& ex == en + cs.len()
            &&& forall|i: int|
                0 <= i < cs.len() ==> {
                    let st = #[trigger] ss[en + i];
                    &&& st.transitions@.len() == 1
                    &&& st.transitions@[0].0 == Some(
                        Matcher::SingleMatcher(SingleMatcher::Character(cs[i])),
                    )
                    &&& st.transitions@[0].1@.len() == 1
                    &&& st.transitions@[0].1@[0] == en + i + 1
                }
        },
        crate::mir::MirView::CharSet(ms) => {
            &&& ex == en + 1
            &&& ss[en].transitions@.len() == ms.len()
            &&& forall|k: int|
                0 <= k < ms.len() ==> {
                    &&& (#[trigger] ss[en].transitions@[k]).0 == Some(
                        Matcher::SingleMatcher(ms[k].spec_matcher()),
                    )
                    &&& ss[en].transitions@[k].1@.len() == 1
                    &&& ss[en].transitions@[k].1@[0] == ex
                }
        },
        crate::mir::MirView::NegatedSet(ms) => {
            &&& ex == en + 1
            &&& ss[en].transitions@.len() == 1
            &&& (ss[en].transitions@[0].0 matches Some(mm) && (mm matches Matcher::NegatedSet(v)
                && v@ == members_matchers(ms)))
            &&& ss[en].transitions@[0].1@.len() == 1
            &&& ss[en].transitions@[0].1@[0] == ex
        },
        crate::mir::MirView::Alternation(rs) => {
            &&& ss[en].transitions@.len() == rs.len()
            &&& forall|k: int|
                0 <= k < rs.len() ==> ((#[trigger] ss[en].transitions@[k]).0 is None && ss[
                    en].transitions@[k].1@.len() == 1)
        },
        crate::mir::MirView::Concatenation(rs) => rs.len() == 0 ==> (ex == en && ss[
            en].transitions@.len() == 0),
        crate::mir::MirView::Repetition { .. } => true,
    }
}

/// Every state of a fragment built into `states` is a fresh state without
/// a token, the fragment leaves earlier states untouched, it lays down
/// exactly the states its node calls for, its exit has no outgoing
/// transitions yet, and its entry is arranged as the node demands.
pub open spec fn builds_fragment<Token>(
    ss0: Seq<NEFSAState<Token>>,
    ss1: Seq<NEFSAState<Token>>,
    en: int,
    ex: int,
    m: crate::mir::MirView,
) -> bool {
    &&& ss0.len() < ss1.len()
    &&& en == ss0.len()
    &&& ex == ss1.len() - 1
    &&& en <= ex
    &&& ss1.len() == ss0.len() + mir_state_count(m)
    &&& ss1.subrange(0, ss0.len() as int) == ss0
    &&& states_closed(ss1, ss1.len() as int)
    &&& forall|k: int| ss0.len() <= k < ss1.len() ==> (#[trigger] ss1[k]).token is None
    &&& ss1[ex].transitions@.len() == 0
    &&& fragment_shape(ss1, en, ex, m)
}

/// Thompson-style construction: append a fragment recognizing `m` to the
/// state arena. The fragment's entry is its first new state and its exit
/// is the arena's last state; the exit has no outgoing transitions of its
/// own yet.
#[verifier::rlimit(100)]
#[verifier::spinoff_prover]
fn build_mir<Token>(states: &mut Vec<NEFSAState<Token>>, m: &MIR) -> (ends: (usize, usize))
    requires
        states_closed(old(states)@, old(states)@.len() as int),
    ensures
        builds_fragment(old(states)@, final(states)@, ends.0 as int, ends.1 as int, (*m)@),
    decreases *m,
{
    let ghost ss0 = states@;
    let en = states.len();
    match m {
        MIR::Category(c) => {
            states.push(NEFSAState { transitions: Vec::new(), token: None });
            states.push(NEFSAState { transitions: Vec::new(), token: None });
            let ex = states.len() - 1;
            let mut targets: Vec<usize> = Vec::new();
            targets.push(ex);
            let ghost before = states@;
            let entry = &mut states[en];
            entry.transitions.push(
                (Some(Matcher::SingleMatcher(SingleMatcher::Category(*c))), targets),
            );
            proof {
                assert(states@.subrange(0, ss0.len() as int) =~= ss0);
                assert(states@[ex as int] == before[ex as int]);
            }
            (en, ex)
        },
        MIR::Sequence(source) => {
            let n = source.unicode_len();
            let mut i: usize = 0;
            while i < n
                invariant
                    0 <= i <= n,
                    states@.len() == ss0.len() + i,
                    states@.subrange(0, ss0.len() as int) =~= ss0,
                    forall|k: int|
                        ss0.len() <= k < states@.len() ==> (#[trigger] states@[k]).token is None
                            && states@[k].transitions@.len() == 0,
                    states_closed(ss0, ss0.len() as int),
                    en == ss0.len(),
                    n == source@.len(),
                decreases n - i,
            {
                states.push(NEFSAState { transitions: Vec::new(), token: None });
                proof {
                    assert(states@.subrange(0, ss0.len() as int) =~= ss0);
                }
                i = i + 1;
            }
            states.push(NEFSAState { transitions: Vec::new(), token: None });
            proof {
                assert(states@.subrange(0, ss0.len() as int) =~= ss0);
                assert forall|k: int| 0 <= k < states@.len() implies state_closed(
                    #[trigger] states@[k],
                    states@.len() as int,
                ) by {
                    if k < ss0.len() {
                        assert(states@[k] == ss0[k]);
                        assert(state_closed(ss0[k], ss0.len() as int));
                    } else {
                        assert(states@[k].transitions@.len() == 0 || k == states@.len() - 1);
                    }
                }
            }
            let total = states.len();
            let mut j: usize = 0;
            while j < n
                invariant
                    0 <= j <= n,
                    total == states@.len(),
                    states@.len() == ss0.len() + n + 1,
                    states@.subrange(0, ss0.len() as int) =~= ss0,
                    forall|k: int|
                        ss0.len() <= k < states@.len() ==> (#[trigger] states@[k]).token is None,
                    forall|k: int|
                        ss0.len() + j <= k < states@.len() ==> (#[trigger] states@[
                            k]).transitions@.len() == 0,
                    forall|k: int|
                        0 <= k < j ==> {
                            let st = #[trigger] states@[en + k];
                            &&& st.transitions@.len() == 1
                            &&& st.transitions@[0].0 == Some(
                                Matcher::SingleMatcher(SingleMatcher::Character(source@[k])),
                            )
                            &&& st.transitions@[0].1@.len() == 1
                            &&& st.transitions@[0].1@[0] == en + k + 1
                        },
                    states_closed(states@, states@.len() as int),
                    states_closed(ss0, ss0.len() as int),
                    en == ss0.len(),
                    n == source@.len(),
                decreases n - j,
            {
                let c = source.get_char(j);
                let mut targets: Vec<usize> = Vec::new();
                proof {
                    assert(en + j < states@.len());
                }
                targets.push(en + j + 1);
                let ghost before = states@;
                let st = &mut states[en + j];
                st.transitions.push(
                    (Some(Matcher::SingleMatcher(SingleMatcher::Character(c))), targets),
                );
                proof {
                    assert(states@.subrange(0, ss0.len() as int) =~= ss0);
                    assert forall|k: int| 0 <= k < states@.len() implies state_closed(
                        #[trigger] states@[k],
                        states@.len() as int,
                    ) by {
                        if k != en + j {
                            assert(states@[k] == before[k]);
                        }
                    }
                }
                j = j + 1;
            }
            (en, states.len() - 1)
        },
        MIR::CharSet(ms) => {
            states.push(NEFSAState { transitions: Vec::new(), token: None });
            states.push(NEFSAState { transitions: Vec::new(), token: None });
            let ex = states.len() - 1;
            let mut transitions: Vec<(Option<Matcher>, Vec<usize>)> = Vec::new();
            let mut k: usize = 0;
            while k < ms.len()
                invariant
                    0 <= k <= ms@.len(),
                    (ex as int) < states@.len(),
                    transitions@.len() == k,
                    forall|q: int|
                        0 <= q < k ==> {
                            &&& (#[trigger] transitions@[q]).0 == Some(
                                Matcher::SingleMatcher(ms@[q].spec_matcher()),
                            )
                            &&& transitions@[q].1@.len() == 1
                            &&& transitions@[q].1@[0] == ex
                        },
                decreases ms@.len() - k,
            {
                let mut targets: Vec<usize> = Vec::new();
                targets.push(ex);
                transitions.push((Some(Matcher::SingleMatcher(ms[k].to_matcher())), targets));
                k = k + 1;
            }
            let ghost before = states@;
            let entry = &mut states[en];
            entry.transitions = transitions;
            proof {
                assert(states@.subrange(0, ss0.len() as int) =~= ss0);
                assert(states@[ex as int] == before[ex as int]);
                assert forall|q: int| 0 <= q < states@.len() implies state_closed(
                    #[trigger] states@[q],
                    states@.len() as int,
                ) by {
                    if q != en {
                        assert(states@[q] == before[q]);
                    }
                }
            }
            (en, ex)
        },
        MIR::NegatedSet(ms) => {
            states.push(NEFSAState { transitions: Vec::new(), token: None });
            states.push(NEFSAState { transitions: Vec::new(), token: None });
            let ex = states.len() - 1;
            let mut excluded: Vec<SingleMatcher> = Vec::new();
            let mut k: usize = 0;
            while k < ms.len()
                invariant
                    0 <= k <= ms@.len(),
                    excluded@.len() == k,
                    forall|q: int|
                        0 <= q < k ==> (#[trigger] excluded@[q]) == ms@[q].spec_matcher(),
                decreases ms@.len() - k,
            {
                excluded.push(ms[k].to_matcher());
                k = k + 1;
            }
            proof {
                lemma_members_matchers(ms@);
                assert(excluded@ =~= members_matchers(ms@));
            }
            let mut targets: Vec<usize> = Vec::new();
            targets.push(ex);
            let ghost before = states@;
            let entry = &mut states[en];
            entry.transitions.push((Some(Matcher::NegatedSet(excluded)), targets));
            proof {
                assert(states@.subrange(0, ss0.len() as int) =~= ss0);
                assert(states@[ex as int] == before[ex as int]);
                assert forall|q: int| 0 <= q < states@.len() implies state_closed(
                    #[trigger] states@[q],
                    states@.len() as int,
                ) by {
                    if q != en {
                        assert(states@[q] == before[q]);
                    }
                }
            }
            (en, ex)
        },
        MIR::Concatenation(rs) => {
            proof {
                assert(decreases_to!(*m => rs@));
            }
            if rs.len() == 0 {
                states.push(NEFSAState { transitions: Vec::new(), token: None });
                proof {
                    assert(states@.subrange(0, ss0.len() as int) =~= ss0);
                    assert(crate::mir::mirs_view(rs@) =~= Seq::<crate::mir::MirView>::empty());
                    assert(mir_state_count((*m)@) == 1);
                }
                return (en, en);
            }
            let ghost vs = crate::mir::mirs_view(rs@);
            proof {
                crate::mir::lemma_mirs_view(rs@);
                assert(vs.skip(0) =~= vs);
            }
            let mut prev_exit: usize = 0;
            let mut i: usize = 0;
            while i < rs.len()
                invariant
                    0 <= i <= rs@.len(),
                    rs@.len() > 0,
                    en == ss0.len(),
                    decreases_to!(*m => rs@),
                    vs == crate::mir::mirs_view(rs@),
                    vs.len() == rs@.len(),
                    forall|k: int| 0 <= k < rs@.len() ==> vs[k] == rs@[k]@,
                    i == 0 ==> states@ == ss0,
                    i > 0 ==> {
                        &&& ss0.len() < states@.len()
                        &&& ss0.len() <= (prev_exit as int) == states@.len() - 1
                        &&& states@.subrange(0, ss0.len() as int) =~= ss0
                        &&& states@.len() == ss0.len() + mirs_state_count(vs) - mirs_state_count(
                            vs.skip(i as int),
                        )
                        &&& states@[prev_exit as int].transitions@.len() == 0
                        &&& forall|k: int|
                            ss0.len() <= k < states@.len() ==> (#[trigger] states@[
                                k]).token is None
                    },
                    states_closed(states@, states@.len() as int),
                decreases rs@.len() - i,
            {
                proof {
                    assert(decreases_to!(rs@ => rs@[i as int]));
                    lemma_mirs_count_skip(vs, i as int);
                }
                let ghost before = states@;
                let (e, x) = build_mir(states, &rs[i]);
                let ghost afterchild = states@;
                if i > 0 {
                    add_epsilon(states, prev_exit, e);
                    proof {
                        assert(states_closed(afterchild, afterchild.len() as int));
                        assert(states_closed(states@, states@.len() as int));
                        assert forall|k: int| 0 <= k < ss0.len() implies states@[k] == ss0[k] by {
                            assert(states@[k] == afterchild[k]);
                            assert(afterchild.subrange(0, before.len() as int) == before);
                            assert(afterchild[k] == before[k]);
                            assert(before.subrange(0, ss0.len() as int)[k] == before[k]);
                        }
                        assert(states@.subrange(0, ss0.len() as int) =~= ss0);
                        assert forall|k: int|
                            ss0.len() <= k < states@.len() implies (#[trigger] states@[
                            k]).token is None by {
                            if k != prev_exit {
                                assert(states@[k] == afterchild[k]);
                                if k < before.len() {
                                    assert(afterchild[k] == before[k]);
                                }
                            } else {
                                assert(afterchild.subrange(0, before.len() as int) == before);
                                assert(afterchild[k] == before[k]);
                                assert(before[k].token is None);
                                assert(states@[k].token == afterchild[k].token);
                            }
                        }
                        // the new child's exit is not the state just linked
                        assert(states@[x as int] == afterchild[x as int]);
                    }
                } else {
                    proof {
                        assert(states@.subrange(0, ss0.len() as int) =~= ss0);
                    }
                }
                proof {
                    assert(states@[x as int].transitions@.len() == 0);
                }
                prev_exit = x;
                i = i + 1;
            }
            proof {
                assert(vs.skip(vs.len() as int) =~= Seq::<crate::mir::MirView>::empty());
            }
            (en, prev_exit)
        },
        MIR::Alternation(rs) => {
            proof {
                assert(decreases_to!(*m => rs@));
            }
            states.push(NEFSAState { transitions: Vec::new(), token: None });
            let ghost vs = crate::mir::mirs_view(rs@);
            proof {
                crate::mir::lemma_mirs_view(rs@);
                assert(vs.skip(0) =~= vs);
            }
            let mut entries: Vec<usize> = Vec::new();
            let mut exits: Vec<usize> = Vec::new();
            let mut i: usize = 0;
            proof {
                assert(states@.subrange(0, ss0.len() as int) =~= ss0);
            }
            while i < rs.len()
                invariant
                    0 <= i <= rs@.len(),
                    en == ss0.len(),
                    decreases_to!(*m => rs@),
                    vs == crate::mir::mirs_view(rs@),
                    vs.len() == rs@.len(),
                    forall|k: int| 0 <= k < rs@.len() ==> vs[k] == rs@[k]@,
                    states@.len() > ss0.len(),
                    states@.len() == ss0.len() + 1 + mirs_state_count(vs) - mirs_state_count(
                        vs.skip(i as int),
                    ),
                    states@.subrange(0, ss0.len() as int) =~= ss0,
                    states@[en as int].transitions@.len() == 0,
                    states_closed(states@, states@.len() as int),
                    forall|k: int|
                        ss0.len() <= k < states@.len() ==> (#[trigger] states@[k]).token is None,
                    entries@.len() == i,
                    exits@.len() == i,
                    forall|k: int|
                        0 <= k < i ==> ss0.len() < (#[trigger] entries@[k] as int)
                            < states@.len(),
                    forall|k: int|
                        0 <= k < i ==> ss0.len() < (#[trigger] exits@[k] as int) < states@.len(),
                decreases rs@.len() - i,
            {
                proof {
                    assert(decreases_to!(rs@ => rs@[i as int]));
                    lemma_mirs_count_skip(vs, i as int);
                }
                let ghost before = states@;
                let (e, x) = build_mir(states, &rs[i]);
                entries.push(e);
                exits.push(x);
                proof {
                    assert(states@.subrange(0, before.len() as int) == before);
                    assert forall|k: int| 0 <= k < ss0.len() implies states@[k] == ss0[k] by {
                        assert(states@[k] == before[k]);
                        assert(before.subrange(0, ss0.len() as int)[k] == before[k]);
                    }
                    assert(states@.subrange(0, ss0.len() as int) =~= ss0);
                    assert(states@[en as int] == before[en as int]);
                    assert forall|k: int|
                        ss0.len() <= k < states@.len() implies (#[trigger] states@[
                        k]).token is None by {
                        if k < before.len() {
                            assert(states@[k] == before[k]);
                        }
                    }
                }
                i = i + 1;
            }
            states.push(NEFSAState { transitions: Vec::new(), token: None });
            let exit = states.len() - 1;
            proof {
                assert(vs.skip(vs.len() as int) =~= Seq::<crate::mir::MirView>::empty());
                assert(states@.subrange(0, ss0.len() as int) =~= ss0);
            }
            let mut k: usize = 0;
            while k < entries.len()
                invariant
                    0 <= k <= entries@.len(),
                    entries@.len() == exits@.len(),
                    entries@.len() == rs@.len(),
                    en == ss0.len(),
                    (en as int) < states@.len(),
                    ss0.len() < (exit as int) == states@.len() - 1,
                    states@.len() == ss0.len() + 2 + mirs_state_count(
                        crate::mir::mirs_view(rs@),
                    ),
                    states@.subrange(0, ss0.len() as int) =~= ss0,
                    states_closed(states@, states@.len() as int),
                    states@[exit as int].transitions@.len() == 0,
                    states@[en as int].transitions@.len() == k,
                    forall|q: int|
                        0 <= q < k ==> ((#[trigger] states@[en as int].transitions@[q]).0 is None
                            && states@[en as int].transitions@[q].1@.len() == 1),
                    forall|q: int|
                        ss0.len() <= q < states@.len() ==> (#[trigger] states@[q]).token is None,
                    forall|q: int|
                        0 <= q < entries@.len() ==> ss0.len() < (#[trigger] entries@[q] as int)
                            < exit,
                    forall|q: int|
                        0 <= q < exits@.len() ==> ss0.len() < (#[trigger] exits@[q] as int)
                            < exit,
                decreases entries@.len() - k,
            {
                let ghost s1 = states@;
                add_epsilon(states, en, entries[k]);
                proof {
                    assert forall|q: int| 0 <= q < ss0.len() implies states@[q] == ss0[q] by {
                        assert(states@[q] == s1[q]);
                        assert(s1.subrange(0, ss0.len() as int)[q] == s1[q]);
                    }
                    assert(states@.subrange(0, ss0.len() as int) =~= ss0);
                    assert(states@[exit as int] == s1[exit as int]);
                    assert forall|q: int|
                        ss0.len() <= q < states@.len() implies (#[trigger] states@[
                        q]).token is None by {
                        if q != en {
                            assert(states@[q] == s1[q]);
                        }
                    }
                }
                let ghost s2 = states@;
                add_epsilon(states, exits[k], exit);
                proof {
                    assert forall|q: int| 0 <= q < ss0.len() implies states@[q] == ss0[q] by {
                        assert(states@[q] == s2[q]);
                        assert(s2.subrange(0, ss0.len() as int)[q] == s2[q]);
                    }
                    assert(states@.subrange(0, ss0.len() as int) =~= ss0);
                    assert(states@[exit as int] == s2[exit as int]);
                    assert(states@[en as int] == s2[en as int]);
                    assert forall|q: int|
                        ss0.len() <= q < states@.len() implies (#[trigger] states@[
                        q]).token is None by {
                        if q != exits@[k as int] {
                            assert(states@[q] == s2[q]);
                        }
                    }
                }
                k = k + 1;
            }
            (en, exit)
        },
        MIR::Repetition { regex, min, max } => {
            let copies: u16 = match max {
                Some(mx) => *mx,
                None => {
                    if *min == 0 {
                        1
                    } else {
                        *min
                    }
                },
            };
            let ghost bodycount = mir_state_count((**regex)@);
            proof {
                assert(copies as int == mir_copies(*min, *max));
            }
            if copies == 0 {
                states.push(NEFSAState { transitions: Vec::new(), token: None });
                proof {
                    assert(states@.subrange(0, ss0.len() as int) =~= ss0);
                }
                return (en, en);
            }
            let mut copy_entries: Vec<usize> = Vec::new();
            let mut copy_exits: Vec<usize> = Vec::new();
            let mut c: u16 = 0;
            let mut prev_exit: usize = 0;
            while c < copies
                invariant
                    0 <= c <= copies,
                    copies > 0,
                    en == ss0.len(),
                    decreases_to!(*m => **regex),
                    bodycount == mir_state_count((**regex)@),
                    c == 0 ==> states@ == ss0,
                    c > 0 ==> {
                        &&& ss0.len() < states@.len()
                        &&& ss0.len() <= (prev_exit as int) == states@.len() - 1
                        &&& states@.subrange(0, ss0.len() as int) =~= ss0
                        &&& states@.len() == ss0.len() + c * bodycount
                        &&& forall|k: int|
                            ss0.len() <= k < states@.len() ==> (#[trigger] states@[
                                k]).token is None
                    },
                    states_closed(states@, states@.len() as int),
                    copy_entries@.len() == c,
                    copy_exits@.len() == c,
                    forall|k: int|
                        0 <= k < c ==> ss0.len() <= (#[trigger] copy_entries@[k] as int)
                            < states@.len(),
                    forall|k: int|
                        0 <= k < c ==> ss0.len() <= (#[trigger] copy_exits@[k] as int)
                            < states@.len(),
                decreases copies - c,
            {
                let ghost before = states@;
                let (e, x) = build_mir(states, regex);
                let ghost afterchild = states@;
                proof {
                    assert((c + 1) as int * bodycount == c as int * bodycount + bodycount) by (nonlinear_arith);
                }
                if c > 0 {
                    add_epsilon(states, prev_exit, e);
                    proof {
                        assert forall|k: int| 0 <= k < ss0.len() implies states@[k] == ss0[k] by {
                            assert(states@[k] == afterchild[k]);
                            assert(afterchild.subrange(0, before.len() as int) == before);
                            assert(afterchild[k] == before[k]);
                            assert(before.subrange(0, ss0.len() as int)[k] == before[k]);
                        }
                        assert(states@.subrange(0, ss0.len() as int) =~= ss0);
                        assert forall|k: int|
                            ss0.len() <= k < states@.len() implies (#[trigger] states@[
                            k]).token is None by {
                            if k != prev_exit {
                                assert(states@[k] == afterchild[k]);
                                if k < before.len() {
                                    assert(afterchild[k] == before[k]);
                                }
                            } else {
                                assert(afterchild.subrange(0, before.len() as int) == before);
                                assert(afterchild[k] == before[k]);
                                assert(before[k].token is None);
                                assert(states@[k].token == afterchild[k].token);
                            }
                        }
                    }
                } else {
                    proof {
                        assert(states@.subrange(0, ss0.len() as int) =~= ss0);
                    }
                }
                copy_entries.push(e);
                copy_exits.push(x);
                prev_exit = x;
                c = c + 1;
            }
            states.push(NEFSAState { transitions: Vec::new(), token: None });
            let exit = states.len() - 1;
            proof {
                assert(states@.subrange(0, ss0.len() as int) =~= ss0);
            }
            // allow stopping after any count of repetitions between min and max
            let mut stop: usize = *min as usize;
            let limit: usize = copies as usize;
            while stop <= limit
                invariant
                    en == ss0.len(),
                    (en as int) < states@.len(),
                    ss0.len() < (exit as int) == states@.len() - 1,
                    states@.len() == ss0.len() + copies * bodycount + 1,
                    copies > 0,
                    states@.subrange(0, ss0.len() as int) =~= ss0,
                    states_closed(states@, states@.len() as int),
                    states@[exit as int].transitions@.len() == 0,
                    forall|q: int|
                        ss0.len() <= q < states@.len() ==> (#[trigger] states@[q]).token is None,
                    copy_exits@.len() == copies,
                    copy_entries@.len() == copies,
                    limit == copies,
                    forall|k: int|
                        0 <= k < copies ==> ss0.len() <= (#[trigger] copy_exits@[k] as int)
                            < exit,
                    forall|k: int|
                        0 <= k < copies ==> ss0.len() <= (#[trigger] copy_entries@[k] as int)
                            < exit,
                decreases limit + 1 - stop,
            {
                let ghost s1 = states@;
                let from = if stop == 0 {
                    en
                } else {
                    copy_exits[stop - 1]
                };
                add_epsilon(states, from, exit);
                proof {
                    assert forall|q: int| 0 <= q < ss0.len() implies states@[q] == ss0[q] by {
                        assert(states@[q] == s1[q]);
                        assert(s1.subrange(0, ss0.len() as int)[q] == s1[q]);
                    }
                    assert(states@.subrange(0, ss0.len() as int) =~= ss0);
                    assert(states@[exit as int] == s1[exit as int]);
                    assert forall|q: int|
                        ss0.len() <= q < states@.len() implies (#[trigger] states@[
                        q]).token is None by {
                        if q != from {
                            assert(states@[q] == s1[q]);
                        }
                    }
                }
                stop = stop + 1;
            }
            if max.is_none() {
                // loop back from the last copy's exit to its entry
                let ghost s1 = states@;
                add_epsilon(states, copy_exits[copies as usize - 1], copy_entries[copies as usize
                    - 1]);
                proof {
                    let ghost from = copy_exits@[copies as int - 1];
                    assert forall|q: int| 0 <= q < ss0.len() implies states@[q] == ss0[q] by {
                        assert(states@[q] == s1[q]);
                        assert(s1.subrange(0, ss0.len() as int)[q] == s1[q]);
                    }
                    assert(states@.subrange(0, ss0.len() as int) =~= ss0);
                    assert(states@[exit as int] == s1[exit as int]);
                    assert forall|q: int|
                        ss0.len() <= q < states@.len() implies (#[trigger] states@[
                        q]).token is None by {
                        if q != from {
                            assert(states@[q] == s1[q]);
                        }
                    }
                }
                if *min == 0 {
                    let ghost s2 = states@;
                    add_epsilon(states, en, exit);
                    proof {
                        assert forall|q: int| 0 <= q < ss0.len() implies states@[q] == ss0[q] by {
                            assert(states@[q] == s2[q]);
                            assert(s2.subrange(0, ss0.len() as int)[q] == s2[q]);
                        }
                        assert(states@.subrange(0, ss0.len() as int) =~= ss0);
                        assert(states@[exit as int] == s2[exit as int]);
                        assert forall|q: int|
                            ss0.len() <= q < states@.len() implies (#[trigger] states@[
                            q]).token is None by {
                            if q != en {
                                assert(states@[q] == s2[q]);
                            }
                        }
                    }
                }
            }
            (en, exit)
        },
    }
}

impl<Token> NEFSA<Token> {
    /// Compile a resolved regex into an automaton: the states the regex's
    /// nodes call for, whose final state, and only it, accepts `token`.
    pub fn from_mir(mir: &MIR, token: Token) -> (r: NEFSA<Token>)
        ensures
            r.wf(),
            r.states@.len() >= 1,
            r.states@.len() == mir_state_count(mir@),
            r.states@.last().token == Some(token),
            r.states@.last().transitions@.len() == 0,
            forall|k: int| 0 <= k < r.states@.len() - 1 ==> (#[trigger] r.states@[k]).token is None,
            fragment_shape(r.states@, 0, (r.states@.len() - 1) as int, mir@),
    {
        let mut states: Vec<NEFSAState<Token>> = Vec::new();
        let ghost ends_view = mir@;
        let ends = build_mir(&mut states, mir);
        let ghost built = states@;
        let last = match states.pop() {
            Some(st) => st,
            None => NEFSAState { transitions: Vec::new(), token: None },
        };
        states.push(NEFSAState { transitions: last.transitions, token: Some(token) });
        proof {
            assert(states@.len() == built.len());
            assert forall|k: int| 0 <= k < states@.len() - 1 implies states@[k] == built[k] by {}
            assert(states@.last().transitions@ == built.last().transitions@);
            assert forall|k: int| 0 <= k < states@.len() implies state_closed(
                #[trigger] states@[k],
                states@.len() as int,
            ) by {
                if k < states@.len() - 1 {
                    assert(states@[k] == built[k]);
                    assert(state_closed(built[k], built.len() as int));
                } else {
                    assert(states@[k].transitions@.len() == 0);
                }
            }
            assert(fragment_shape(states@, 0, (states@.len() - 1) as int, mir@)) by {
                let ex = built.len() - 1;
                match mir@ {
                    crate::mir::MirView::Category(_) => {
                        assert(states@[0] == built[0]);
                    },
                    crate::mir::MirView::Sequence(cs) => {
                        assert forall|i: int| 0 <= i < cs.len() implies #[trigger] states@[i]
                            == built[i] by {}
                    },
                    crate::mir::MirView::CharSet(_) => {
                        assert(states@[0] == built[0]);
                    },
                    crate::mir::MirView::NegatedSet(_) => {
                        assert(states@[0] == built[0]);
                    },
                    crate::mir::MirView::Alternation(_) => {
                        if built.len() > 1 {
                            assert(states@[0] == built[0]);
                        } else {
                            assert(states@.last().transitions@ == built.last().transitions@);
                        }
                    },
                    crate::mir::MirView::Concatenation(_) => {
                        assert(states@.last().transitions@ == built.last().transitions@);
                    },
                    crate::mir::MirView::Repetition { .. } => {},
                }
            }
        }
        NEFSA { states }
    }
}

/// Where the states of the `k`-th source land in a union automaton: one
/// slot for the new start state, then each source's states in turn.
pub open spec fn offset_of<Token>(ss: Seq<NEFSA<Token>>, k: int) -> int
    decreases k,
{
    if k <= 0 {
        1
    } else {
        offset_of(ss, k - 1) + ss[k - 1].states@.len()
    }
}

/// Offsets start at 1 and grow with every nonempty source.
pub proof fn lemma_offset_mono<Token>(ss: Seq<NEFSA<Token>>, a: int, b: int)
    requires
        0 <= a <= b,
    ensures
        1 <= offset_of(ss, a) <= offset_of(ss, b),
    decreases b,
{
    if a < b {
        lemma_offset_mono(ss, a, b - 1);
    } else if b > 0 {
        lemma_offset_mono(ss, 0, b - 1);
    }
}

/// A state's copy whose transition targets are moved up by `off`.
pub open spec fn state_shifted<Token>(a: NEFSAState<Token>, b: NEFSAState<Token>, off: int) -> bool {
    &&& b.token == a.token
    &&& b.transitions@.len() == a.transitions@.len()
    &&& forall|t: int|
        0 <= t < a.transitions@.len() ==> {
            &&& (#[trigger] b.transitions@[t]).0 == a.transitions@[t].0
            &&& b.transitions@[t].1@.len() == a.transitions@[t].1@.len()
            &&& forall|u: int|
                0 <= u < a.transitions@[t].1@.len() ==> (#[trigger] b.transitions@[t].1@[u]) == a
                    .transitions@[t].1@[u] + off
        }
}

/// Copy a state, moving every transition target up by `offset`.
fn shift_state<Token>(st: NEFSAState<Token>, offset: usize, Ghost(bound): Ghost<int>) -> (r:
    NEFSAState<Token>)
    requires
        state_closed(st, bound),
        offset + bound <= usize::MAX,
    ensures
        state_shifted(st, r, offset as int),
{
    let ghost ts0 = st.transitions@;
    let mut transitions: Vec<(Option<Matcher>, Vec<usize>)> = Vec::new();
    let mut ts = st.transitions;
    while ts.len() > 0
        invariant
            state_closed(st, bound),
            st.transitions@ == ts0,
            offset + bound <= usize::MAX,
            transitions@.len() + ts@.len() == ts0.len(),
            ts@ == ts0.skip(transitions@.len() as int),
            forall|t: int|
                0 <= t < transitions@.len() ==> {
                    &&& (#[trigger] transitions@[t]).0 == ts0[t].0
                    &&& transitions@[t].1@.len() == ts0[t].1@.len()
                    &&& forall|u: int|
                        0 <= u < ts0[t].1@.len() ==> (#[trigger] transitions@[t].1@[u]) == ts0[
                            t].1@[u] + offset
                },
        decreases ts@.len(),
    {
        let ghost t = transitions@.len() as int;
        let (m, set) = ts.remove(0);
        proof {
            assert(ts0.skip(t)[0] == ts0[t]);
            assert(ts0.skip(t).drop_first() =~= ts0.skip(t + 1));
        }
        let mut ns: Vec<usize> = Vec::new();
        let mut u: usize = 0;
        while u < set.len()
            invariant
                0 <= u <= set@.len(),
                set@ == ts0[t].1@,
                0 <= t < ts0.len(),
                state_closed(st, bound),
                st.transitions@ == ts0,
                offset + bound <= usize::MAX,
                ns@.len() == u,
                forall|q: int| 0 <= q < u ==> (#[trigger] ns@[q]) == ts0[t].1@[q] + offset,
            decreases set@.len() - u,
        {
            proof {
                assert(ts0[t].1@[u as int] < bound);
            }
            ns.push(set[u] + offset);
            u = u + 1;
        }
        transitions.push((m, ns));
        proof {
            assert(transitions@.last().0 == ts0[t].0);
        }
    }
    NEFSAState { transitions, token: st.token }
}

impl<Token> NEFSA<Token> {
    /// Produce a union of multiple automatons by creating a new starting
    /// state with epsilon transitions to all previous starting states.
    ///
    /// Applies offsets to all transitions: each source's states are copied
    /// in order, renumbered past the states laid down before them.
    #[verifier::rlimit(100)]
    #[verifier::spinoff_prover]
    pub fn union(sources: Vec<NEFSA<Token>>) -> (r: NEFSA<Token>)
        requires
            forall|k: int| 0 <= k < sources@.len() ==> (#[trigger] sources@[k]).wf(),
            forall|k: int| 0 <= k < sources@.len() ==> (#[trigger] sources@[k]).states@.len() >= 1,
            offset_of(sources@, sources@.len() as int) <= usize::MAX,
        ensures
            r.wf(),
            r.states@.len() == offset_of(sources@, sources@.len() as int),
            r.states@[0].token is None,
            r.states@[0].transitions@.len() == 1,
            r.states@[0].transitions@[0].0 is None,
            r.states@[0].transitions@[0].1@.len() == sources@.len(),
            forall|k: int|
                0 <= k < sources@.len() ==> (#[trigger] r.states@[0].transitions@[0].1@[k])
                    == offset_of(sources@, k),
            forall|k: int, j: int|
                0 <= k < sources@.len() && 0 <= j < sources@[k].states@.len() ==> state_shifted(
                    (#[trigger] sources@[k].states@[j]),
                    r.states@[offset_of(sources@, k) + j],
                    offset_of(sources@, k),
                ),
    {
        let ghost orig = sources@;
        let mut srcs = sources;
        let mut states: Vec<NEFSAState<Token>> = Vec::new();
        states.push(NEFSAState { transitions: Vec::new(), token: None });
        let mut first_targets: Vec<usize> = Vec::new();
        proof {
            assert(orig.skip(0) =~= orig);
        }
        while srcs.len() > 0
            invariant
                forall|k: int| 0 <= k < orig.len() ==> (#[trigger] orig[k]).wf(),
                forall|k: int| 0 <= k < orig.len() ==> (#[trigger] orig[k]).states@.len() >= 1,
                offset_of(orig, orig.len() as int) <= usize::MAX,
                first_targets@.len() + srcs@.len() == orig.len(),
                srcs@ == orig.skip(first_targets@.len() as int),
                states@.len() == offset_of(orig, first_targets@.len() as int),
                forall|k: int|
                    0 <= k < first_targets@.len() ==> (#[trigger] first_targets@[k]) == offset_of(
                        orig,
                        k,
                    ),
                states@[0].token is None,
                states@[0].transitions@.len() == 0,
                states_closed(states@, states@.len() as int),
                forall|k: int, j: int|
                    0 <= k < first_targets@.len() && 0 <= j < orig[k].states@.len()
                        ==> state_shifted(
                        (#[trigger] orig[k].states@[j]),
                        states@[offset_of(orig, k) + j],
                        offset_of(orig, k),
                    ),
            decreases srcs@.len(),
        {
            let ghost g = first_targets@.len() as int;
            let ghost pre = states@;
            let offset = states.len();
            proof {
                assert(orig.skip(g)[0] == orig[g]);
                assert(orig.skip(g).drop_first() =~= orig.skip(g + 1));
                lemma_offset_mono(orig, g + 1, orig.len() as int);
                assert(offset_of(orig, g + 1) == offset_of(orig, g) + orig[g].states@.len());
            }
            first_targets.push(offset);
            let mut src = srcs.remove(0);
            let ghost bound = orig[g].states@.len() as int;
            let ghost sstates = src.states@;
            let mut j: usize = 0;
            while src.states.len() > 0
                invariant
                    sstates == orig[g].states@,
                    0 <= g < orig.len(),
                    orig[g].wf(),
                    bound == orig[g].states@.len(),
                    j + src.states@.len() == bound,
                    src.states@ == sstates.skip(j as int),
                    (offset as int) == offset_of(orig, g),
                    offset + bound <= usize::MAX,
                    states@.len() == offset + j,
                    states@.subrange(0, offset as int) == pre,
                    pre.len() == offset,
                    states_closed(pre, offset as int),
                    forall|q: int|
                        0 <= q < j ==> state_shifted(
                            (#[trigger] sstates[q]),
                            states@[offset + q],
                            offset as int,
                        ),
                    forall|q: int|
                        offset <= q < states@.len() ==> state_closed(
                            #[trigger] states@[q],
                            offset + bound,
                        ),
                decreases src.states@.len(),
            {
                let st = src.states.remove(0);
                proof {
                    assert(sstates.skip(j as int)[0] == sstates[j as int]);
                    assert(sstates.skip(j as int).drop_first() =~= sstates.skip(j + 1));
                    assert(state_closed(sstates[j as int], bound)) by {
                        assert(states_closed(orig[g].states@, bound));
                    }
                }
                let shifted = shift_state(st, offset, Ghost(bound));
                proof {
                    assert(state_closed(shifted, offset + bound)) by {
                        let a = sstates[j as int];
                        assert forall|t: int, u: int|
                            0 <= t < shifted.transitions@.len() && 0 <= u < shifted.transitions@[
                                t].1@.len() implies #[trigger] shifted.transitions@[t].1@[u]
                            < offset + bound by {
                            assert(shifted.transitions@[t].1@[u] == a.transitions@[t].1@[u]
                                + offset);
                            assert(a.transitions@[t].1@[u] < bound);
                        }
                    }
                }
                states.push(shifted);
                proof {
                    assert(states@.subrange(0, offset as int) =~= pre);
                }
                j = j + 1;
            }
            proof {
                assert(states@.len() == offset_of(orig, g + 1));
                assert(states@[0] == pre[0]) by {
                    lemma_offset_mono(orig, 0, g);
                    assert(states@.subrange(0, offset as int)[0] == states@[0]);
                }
                assert(states@[0].token is None);
                assert(states@[0].transitions@.len() == 0);
                assert forall|k: int, jj: int|
                    0 <= k < first_targets@.len() && 0 <= jj < orig[k].states@.len()
                        implies state_shifted(
                    (#[trigger] orig[k].states@[jj]),
                    states@[offset_of(orig, k) + jj],
                    offset_of(orig, k),
                ) by {
                    if k < g {
                        lemma_offset_mono(orig, k, g);
                        assert(offset_of(orig, k + 1) == offset_of(orig, k)
                            + orig[k].states@.len());
                        lemma_offset_mono(orig, k + 1, g);
                        assert(offset_of(orig, k) + jj < offset_of(orig, g));
                        assert(states@[offset_of(orig, k) + jj] == pre[offset_of(orig, k) + jj]);
                    } else {
                        assert(k == g);
                        assert(state_shifted(
                            sstates[jj],
                            states@[offset + jj],
                            offset as int,
                        ));
                    }
                }
                assert forall|q: int|
                    0 <= q < states@.len() implies state_closed(
                    #[trigger] states@[q],
                    states@.len() as int,
                ) by {
                    if q < offset {
                        assert(states@[q] == pre[q]);
                        assert(state_closed(pre[q], offset as int));
                        assert forall|t: int, u: int|
                            0 <= t < states@[q].transitions@.len() && 0 <= u < states@[
                                q].transitions@[t].1@.len() implies #[trigger] states@[
                            q].transitions@[t].1@[u] < states@.len() by {
                            assert(states@[q].transitions@[t].1@[u] < offset);
                        }
                    } else {
                        assert forall|t: int, u: int|
                            0 <= t < states@[q].transitions@.len() && 0 <= u < states@[
                                q].transitions@[t].1@.len() implies #[trigger] states@[
                            q].transitions@[t].1@[u] < states@.len() by {
                            assert(states@[q].transitions@[t].1@[u] < offset + bound);
                        }
                    }
                }
            }
        }
        let ghost done = states@;
        let ghost nsrc = orig.len() as int;
        proof {
            lemma_offset_mono(orig, 0, nsrc);
            assert(states@.len() >= 1);
        }
        let st = &mut states[0];
        st.transitions.push((None, first_targets));
        proof {
            assert(first_targets@.len() == orig.len());
            assert(states@.len() == done.len());
            assert(states@.len() == offset_of(orig, nsrc));
            assert forall|q: int| 1 <= q < states@.len() implies states@[q] == done[q] by {}
            assert forall|k: int, j: int|
                0 <= k < orig.len() && 0 <= j < orig[k].states@.len() implies state_shifted(
                (#[trigger] orig[k].states@[j]),
                states@[offset_of(orig, k) + j],
                offset_of(orig, k),
            ) by {
                lemma_offset_mono(orig, 0, k);
                lemma_offset_mono(orig, k + 1, nsrc);
                assert(offset_of(orig, k + 1) == offset_of(orig, k) + orig[k].states@.len());
                assert(offset_of(orig, k) + j >= 1);
                assert(offset_of(orig, k) + j < states@.len());
                assert(states@[offset_of(orig, k) + j] == done[offset_of(orig, k) + j]);
                assert(state_shifted(
                    orig[k].states@[j],
                    done[offset_of(orig, k) + j],
                    offset_of(orig, k),
                ));
            }
            assert forall|q: int| 0 <= q < states@.len() implies state_closed(
                #[trigger] states@[q],
                states@.len() as int,
            ) by {
                if q == 0 {
                    assert forall|t: int, u: int|
                        0 <= t < states@[0].transitions@.len() && 0 <= u < states@[
                            0].transitions@[t].1@.len() implies #[trigger] states@[
                        0].transitions@[t].1@[u] < states@.len() by {
                        assert(t == 0);
                        assert(states@[0].transitions@[0].1@[u] == offset_of(orig, u));
                        lemma_offset_mono(orig, u + 1, nsrc);
                        assert(offset_of(orig, u + 1) == offset_of(orig, u)
                            + orig[u].states@.len());
                    }
                } else {
                    assert(states@[q] == done[q]);
                    assert(state_closed(done[q], done.len() as int));
                }
            }
        }
        NEFSA { states }
    }
}

/// What compiling a parsed pattern against a registry yields: the shaped
/// automaton of the resolved tree, or the first unknown name.
pub open spec fn pipeline_result_ok<'x, Token>(
    r: Result<NEFSA<Token>, CompileError<'x>>,
    v: crate::parser::HirView,
    reg: crate::convert::CategoryRegistry,
) -> bool {
    match crate::convert::resolve_view(v, reg) {
        Ok(mv) => r matches Ok(a) && a.states@.len() == mir_state_count(mv) && fragment_shape(
            a.states@,
            0,
            (a.states@.len() - 1) as int,
            mv,
        ),
        Err(nm) => r matches Err(
            CompileError::Resolution(crate::convert::ResolutionError::UnknownCategory(u)),
        ) && u@ == nm,
    }
}

/// Some builtin-only registry resolves the parsed pattern to what the
/// result shows: a shaped automaton, or the first unknown name.
pub open spec fn pipeline_ok_for<'x, Token>(
    r: Result<NEFSA<Token>, CompileError<'x>>,
    v: crate::parser::HirView,
) -> bool {
    exists|reg: crate::convert::CategoryRegistry|
        #[trigger] crate::convert::builtin_std_registry(reg) && pipeline_result_ok(r, v, reg)
}

/// Any failure of compiling a regex pattern into an automaton.
#[derive(Debug, PartialEq, Eq)]
pub enum CompileError<'a> {
    /// Lexing or parsing the pattern failed.
    Syntax(crate::parser::Error),
    /// A name in the pattern could not be resolved.
    Resolution(crate::convert::ResolutionError<'a>),
}

impl<Token> NEFSA<Token> {
    /// Parse a regex specification and create a nondeterministic finite
    /// state automaton with epsilon transitions from it: the pattern is
    /// lexed and parsed, its named references are resolved against the
    /// built-in categories, and the resolved tree is compiled.
    pub fn from_regex<'s>(result: Token, source: &'s str) -> (r: Result<
        NEFSA<Token>,
        CompileError<'s>,
    >)
        ensures
            r matches Ok(a) ==> {
                &&& a.wf()
                &&& a.states@.len() >= 1
                &&& a.states@.last().token == Some(result)
                &&& forall|k: int|
                    0 <= k < a.states@.len() - 1 ==> (#[trigger] a.states@[k]).token is None
                &&& exists|v: crate::mir::MirView|
                    a.states@.len() == mir_state_count(v) && fragment_shape(
                        a.states@,
                        0,
                        (a.states@.len() - 1) as int,
                        v,
                    )
            },
            r matches Err(e) ==> (e matches CompileError::Resolution(re)
                ==> re is UnknownCategory),
            ({
                let pres = crate::parser::sp_parse(
                    crate::lexer::lex_all(source@, 0),
                    0,
                    false,
                ).0;
                &&& (pres matches Err(pe) ==> r == Err::<NEFSA<Token>, CompileError<'s>>(
                    CompileError::Syntax(pe),
                ))
                &&& (pres is Ok ==> (r is Ok || (r matches Err(ce2) && !(ce2 is Syntax))))
                &&& (pres matches Ok(v) ==> pipeline_ok_for(r, v))
            }),
    {
        let ghost s = source@;
        let mut lexer = crate::lexer::Lexer::new(source);
        let mut tokens: Vec<crate::lexer::RegexResult<'s>> = Vec::new();
        proof {
            assert(crate::parser::terms_view(tokens@) =~= Seq::<
                Result<crate::parser::TermView, crate::lexer::LexicalError>,
            >::empty());
            assert(Seq::<Result<crate::parser::TermView, crate::lexer::LexicalError>>::empty()
                + crate::lexer::lex_all(s, 0) =~= crate::lexer::lex_all(s, 0));
        }
        loop
            invariant
                lexer.wf(),
                lexer.text() == s,
                crate::parser::terms_view(tokens@) + crate::lexer::lex_all(s, lexer.read())
                    == crate::lexer::lex_all(s, 0),
            ensures
                crate::parser::terms_view(tokens@) == crate::lexer::lex_all(s, 0),
            decreases lexer.text().len() - lexer.read(),
        {
            let ghost i0 = lexer.read();
            let ghost tv0 = crate::parser::terms_view(tokens@);
            proof {
                lexer.lemma_bounds();
            }
            match lexer.next_token() {
                Some(t) => {
                    let ghost ts0 = tokens@;
                    tokens.push(t.token);
                    proof {
                        let e = lexer.read();
                        crate::lexer::lemma_token_view(s, i0, tokens@.last(), e);
                        assert(tokens@.drop_last() =~= ts0);
                        assert(crate::parser::terms_view(tokens@) == tv0.push(
                            match tokens@.last() {
                                Ok(tt) => Ok::<
                                    crate::parser::TermView,
                                    crate::lexer::LexicalError,
                                >(tt@),
                                Err(er) => Err::<
                                    crate::parser::TermView,
                                    crate::lexer::LexicalError,
                                >(er),
                            },
                        ));
                        assert(crate::lexer::lex_all(s, i0) == Seq::<
                            Result<crate::parser::TermView, crate::lexer::LexicalError>,
                        >::empty().push(crate::lexer::token_view_at(s, i0))
                            + crate::lexer::lex_all(s, e));
                        assert(tv0 + (Seq::<
                            Result<crate::parser::TermView, crate::lexer::LexicalError>,
                        >::empty().push(crate::lexer::token_view_at(s, i0))
                            + crate::lexer::lex_all(s, e)) =~= crate::parser::terms_view(
                            tokens@,
                        ) + crate::lexer::lex_all(s, e));
                    }
                },
                None => {
                    proof {
                        assert(crate::lexer::lex_all(s, lexer.read()) =~= Seq::<
                            Result<crate::parser::TermView, crate::lexer::LexicalError>,
                        >::empty());
                        assert(crate::parser::terms_view(tokens@) + Seq::<
                            Result<crate::parser::TermView, crate::lexer::LexicalError>,
                        >::empty() =~= crate::parser::terms_view(tokens@));
                        assert(crate::parser::terms_view(tokens@) == crate::lexer::lex_all(s, 0));
                    }
                    break ;
                },
            }
        }
        proof {
            assert(crate::parser::terms_view(tokens@) == crate::lexer::lex_all(s, 0));
        }
        let hir = match crate::parser::parse_regex(&tokens) {
            Ok(h) => h,
            Err(e) => {
                return Err(CompileError::Syntax(e));
            },
        };
        let builtin = crate::builtin::builtin_categories();
        let ghost builtin_view = builtin@;
        let empty: Vec<(&'s str, Vec<crate::hir::SetMember<'s>>)> = Vec::new();
        let registry = match crate::convert::convert_categories(empty, builtin) {
            Ok(reg) => reg,
            Err(e) => {
                // with no user categories there is nothing that could block
                proof {
                    match &e {
                        crate::convert::ResolutionError::CyclicOrMissingDependency(stuck) => {
                            assert(crate::convert::has_key(
                                Seq::<(&str, Vec<crate::hir::SetMember>)>::empty(),
                                stuck@[0]@,
                            ));
                            let k = choose|k: int|
                                0 <= k < Seq::<(&str, Vec<crate::hir::SetMember>)>::empty().len()
                                    && (#[trigger] Seq::<(
                                    &str,
                                    Vec<crate::hir::SetMember>,
                                )>::empty()[k]).0@ == stuck@[0]@;
                            assert(false);
                        },
                        _ => {
                            assert(false);
                        },
                    }
                }
                return Err(CompileError::Resolution(e));
            },
        };
        proof {
            assert(crate::convert::builtin_std_registry(registry)) by {
                assert forall|n: Seq<char>| #[trigger] registry.builtin_of(n)
                    == crate::builtin::spec_builtin_of(n) by {
                    crate::builtin::lemma_builtin_table(builtin_view, n);
                }
                assert forall|n: Seq<char>| (#[trigger] registry.resolved_of(n)) is None by {
                    assert(crate::convert::find_assoc(
                        Seq::<(&'s str, Vec<crate::hir::SetMember<'s>>)>::empty(),
                        n,
                    ) is None);
                }
            }
        }
        let mir = match crate::convert::hir_to_mir(&hir, &registry) {
            Ok(m) => m,
            Err(e) => {
                return Err(CompileError::Resolution(e));
            },
        };
        let automaton = NEFSA::from_mir(&mir, result);
        proof {
            assert(automaton.states@.len() == mir_state_count(mir@) && fragment_shape(
                automaton.states@,
                0,
                (automaton.states@.len() - 1) as int,
                mir@,
            ));
        }
        Ok(automaton)
    }
}

} // verus!


