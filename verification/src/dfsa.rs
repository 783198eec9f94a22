//! The deterministic finite state automaton produced by subset
//! construction over the epsilon-NFA, and the scanning loop that drives
//! it over an input.

use crate::matchers::{matcher_matches, Matcher};
use crate::nefsa::{eps_step, insert_sorted, sorted_unique, state_closed, NEFSAState, NEFSA};
use crate::set_ordering::{spec_matcher_ordering, SetOrdering};
use std::cmp::Ordering;
use vstd::prelude::*;

verus! {

/// One deterministic state: an ordered transition list and the token
/// accepted here, if any.
pub struct DFSAState<Token> {
    pub transitions: Vec<(Matcher, usize)>,
    pub token: Option<Token>,
}

/// A deterministic finite state automaton. State 0 is the start state.
pub struct DFSA<Token> {
    pub states: Vec<DFSAState<Token>>,
}

/// Every transition of the state targets a state below `bound`.
pub open spec fn dfsa_state_closed<Token>(s: DFSAState<Token>, bound: int) -> bool {
    forall|t: int| 0 <= t < s.transitions@.len() ==> (#[trigger] s.transitions@[t]).1 < bound
}

/// The matchers of the state's transitions are pairwise incomparable
/// under the set-ordering algebra: none is equal to, or contained in,
/// another. The ordering is the overlap oracle this matcher language has;
/// it cannot split a containment into disjoint parts (there is no matcher
/// for a set difference), so construction refuses comparable pairs rather
/// than keeping two transitions where one covers the other.
pub open spec fn dfsa_state_deterministic<Token>(s: DFSAState<Token>) -> bool {
    forall|t1: int, t2: int|
        0 <= t1 < t2 < s.transitions@.len() ==> spec_matcher_ordering(
            (#[trigger] s.transitions@[t1]).0,
            (#[trigger] s.transitions@[t2]).0,
        ) is None
}

/// The target of the first transition whose matcher accepts `c`, if any:
/// how a deterministic state steps on a character.
pub open spec fn spec_step(ts: Seq<(Matcher, usize)>, c: char) -> Option<usize>
    decreases ts.len(),
{
    if ts.len() == 0 {
        None
    } else if matcher_matches(ts[0].0, c) {
        Some(ts[0].1)
    } else {
        spec_step(ts.drop_first(), c)
    }
}

/// State `j` of the new automaton is old state `map[j]` with every
/// transition kept: the matcher alike, the target renamed by `map`.
pub open spec fn renamed_state<Token>(
    olds: Seq<DFSAState<Token>>,
    news: Seq<DFSAState<Token>>,
    map: Seq<usize>,
    j: int,
) -> bool {
    &&& (map[j] as int) < olds.len()
    &&& news[j].token == olds[map[j] as int].token
    &&& news[j].transitions@.len() == olds[map[j] as int].transitions@.len()
    &&& forall|t: int|
        0 <= t < news[j].transitions@.len() ==> {
            &&& crate::matchers::matcher_like(
                (#[trigger] news[j].transitions@[t]).0,
                olds[map[j] as int].transitions@[t].0,
            )
            &&& (news[j].transitions@[t].1 as int) < map.len()
            &&& map[news[j].transitions@[t].1 as int] == olds[map[j] as int].transitions@[t].1
        }
}

/// Consecutive path entries are joined by transitions of the automaton.
pub open spec fn dfsa_path<Token>(ss: Seq<DFSAState<Token>>, path: Seq<usize>) -> bool {
    &&& forall|p: int| 0 <= p < path.len() ==> ((#[trigger] path[p]) as int) < ss.len()
    &&& forall|p: int|
        0 <= p < path.len() - 1 ==> exists|t: int|
            0 <= t < ss[#[trigger] path[p] as int].transitions@.len() && (#[trigger] ss[
                path[p] as int].transitions@[t]).1 == path[p + 1]
}

/// Some chain of transitions leads from the start state to state `j`.
pub open spec fn dfsa_reachable<Token>(ss: Seq<DFSAState<Token>>, j: int) -> bool {
    exists|path: Seq<usize>|
        #[trigger] dfsa_path(ss, path) && path.len() >= 1 && path[0] == 0 && (
        path.last() as int) == j
}

/// The new automaton is a renaming of distinct old states, the start
/// state still at index 0.
pub open spec fn state_renaming<Token>(
    olds: Seq<DFSAState<Token>>,
    news: Seq<DFSAState<Token>>,
    map: Seq<usize>,
) -> bool {
    &&& map.len() == news.len()
    &&& map.len() >= 1
    &&& map[0] == 0
    &&& forall|p: int, q: int| 0 <= p < q < map.len() ==> map[p] != map[q]
    &&& forall|j: int| 0 <= j < news.len() ==> #[trigger] renamed_state(olds, news, map, j)
}

impl<Token> DFSAState<Token> {
    /// Follow the first transition whose matcher accepts `c`, if any.
    fn transition(&self, c: char) -> (r: Option<usize>)
        ensures
            r == spec_step(self.transitions@, c),
    {
        let ghost ts = self.transitions@;
        let mut t: usize = 0;
        proof {
            assert(ts.skip(0) =~= ts);
        }
        while t < self.transitions.len()
            invariant
                0 <= t <= self.transitions@.len(),
                ts == self.transitions@,
                spec_step(ts, c) == spec_step(ts.skip(t as int), c),
            decreases self.transitions@.len() - t,
        {
            proof {
                assert(ts.skip(t as int)[0] == ts[t as int]);
                assert(ts.skip(t as int).drop_first() =~= ts.skip(t + 1));
            }
            if self.transitions[t].0.is_matching(c) {
                return Some(self.transitions[t].1);
            }
            t = t + 1;
        }
        proof {
            assert(ts.skip(ts.len() as int) =~= Seq::<(Matcher, usize)>::empty());
        }
        None
    }
}

impl<Token: Copy> DFSA<Token> {
    /// Every transition targets an existing state.
    pub open spec fn wf(&self) -> bool {
        forall|k: int|
            0 <= k < self.states@.len() ==> dfsa_state_closed(
                #[trigger] self.states@[k],
                self.states@.len() as int,
            )
    }

    /// Every state's transition matchers are pairwise distinct under the
    /// matcher algebra.
    pub open spec fn deterministic(&self) -> bool {
        forall|k: int|
            0 <= k < self.states@.len() ==> dfsa_state_deterministic(#[trigger] self.states@[k])
    }

    /// Follow the transition of `state` matching `c`, if any: the first
    /// transition whose matcher accepts the character wins, and in a
    /// deterministic automaton no other transition could.
    pub fn transition(&self, state: usize, c: char) -> (r: Option<usize>)
        requires
            (state as int) < self.states@.len(),
        ensures
            r == spec_step(self.states@[state as int].transitions@, c),
    {
        self.states[state].transition(c)
    }

    /// The token accepted at a state, if any.
    pub fn token(&self, state: usize) -> (r: Option<Token>)
        requires
            (state as int) < self.states@.len(),
        ensures
            r == self.states@[state as int].token,
    {
        self.states[state].token
    }
}

/// A strictly increasing list of indices below `n` has at most `n` entries.
proof fn lemma_sorted_card(s: Seq<usize>, n: int)
    requires
        sorted_unique(s),
        forall|x: usize| s.contains(x) ==> (x as int) < n,
        n >= 0,
    ensures
        s.len() <= n,
{
    assert forall|i: int| 0 <= i < s.len() implies (s[i] as int) >= i by {
        lemma_sorted_lower(s, i);
    }
    if s.len() > n {
        assert(s.contains(s[n]));
        assert((s[n] as int) >= n);
        assert(false);
    }
}

/// In a strictly increasing list, the entry at `i` is at least `i`.
proof fn lemma_sorted_lower(s: Seq<usize>, i: int)
    requires
        sorted_unique(s),
        0 <= i < s.len(),
    ensures
        s[i] >= i,
    decreases i,
{
    if i > 0 {
        lemma_sorted_lower(s, i - 1);
    }
}

/// Whether a sorted index set holds `x`.
fn contains_sorted(v: &Vec<usize>, x: usize) -> (r: bool)
    ensures
        r == v@.contains(x),
{
    let mut i: usize = 0;
    while i < v.len()
        invariant
            0 <= i <= v@.len(),
            forall|k: int| 0 <= k < i ==> v@[k] != x,
        decreases v@.len() - i,
    {
        if v[i] == x {
            return true;
        }
        i = i + 1;
    }
    proof {
        if v@.contains(x) {
            let k = choose|k: int| 0 <= k < v@.len() && v@[k] == x;
            assert(false);
        }
    }
    false
}

/// Whether two sorted index sets are the same.
fn sets_equal(a: &Vec<usize>, b: &Vec<usize>) -> (r: bool)
    ensures
        r == (a@ == b@),
{
    if a.len() != b.len() {
        return false;
    }
    let mut i: usize = 0;
    while i < a.len()
        invariant
            0 <= i <= a@.len(),
            a@.len() == b@.len(),
            forall|k: int| 0 <= k < i ==> a@[k] == b@[k],
        decreases a@.len() - i,
    {
        if a[i] != b[i] {
            return false;
        }
        i = i + 1;
    }
    proof {
        assert(a@ =~= b@);
    }
    true
}

/// `s` contains the whole start set and is closed under epsilon steps.
pub open spec fn eps_closed_superset<Token>(
    ss: Seq<NEFSAState<Token>>,
    start: Seq<usize>,
    s: Set<int>,
) -> bool {
    &&& forall|k: int| 0 <= k < start.len() ==> s.contains((#[trigger] start[k]) as int)
    &&& forall|x: int, y: int|
        s.contains(x) && 0 <= x < ss.len() && #[trigger] eps_step(ss[x], y) ==> s.contains(y)
}

/// Every index of the list belongs to the set.
pub open spec fn indices_in_set(r: Seq<usize>, s: Set<int>) -> bool {
    forall|x: usize| #[trigger] r.contains(x) ==> s.contains(x as int)
}

/// The epsilon closure of a set of NFA states: the least set that holds
/// the start states and every state reachable from them by epsilon
/// transitions alone.
pub fn epsilon_closure<Token>(nfa: &NEFSA<Token>, start: &Vec<usize>) -> (r: Vec<usize>)
    requires
        nfa.wf(),
        sorted_unique(start@),
        forall|k: int| 0 <= k < start@.len() ==> (#[trigger] start@[k] as int) < nfa.states@.len(),
    ensures
        sorted_unique(r@),
        forall|x: usize| start@.contains(x) ==> r@.contains(x),
        forall|x: usize| r@.contains(x) ==> (x as int) < nfa.states@.len(),
        forall|x: usize, y: usize|
            r@.contains(x) && eps_step(nfa.states@[x as int], y as int) ==> r@.contains(y),
        forall|s: Set<int>|
            #[trigger] eps_closed_superset(nfa.states@, start@, s) ==> indices_in_set(r@, s),
{
    let ghost n = nfa.states@.len() as int;
    let mut result: Vec<usize> = Vec::new();
    let mut queue: Vec<usize> = Vec::new();
    let mut i: usize = 0;
    while i < start.len()
        invariant
            0 <= i <= start@.len(),
            sorted_unique(start@),
            forall|k: int| 0 <= k < start@.len() ==> (#[trigger] start@[k] as int) < n,
            n == nfa.states@.len() as int,
            sorted_unique(result@),
            forall|x: usize| result@.contains(x) ==> (x as int) < n,
            forall|k: int| 0 <= k < i ==> result@.contains(#[trigger] start@[k]),
            forall|x: usize| result@.contains(x) ==> start@.contains(x),
            forall|s: Set<int>|
                #[trigger] eps_closed_superset(nfa.states@, start@, s) ==> indices_in_set(
                    result@,
                    s,
                ),
            queue@ == result@,
        decreases start@.len() - i,
    {
        let x = start[i];
        let ghost r0 = result@;
        insert_sorted(&mut result, x);
        proof {
            assert forall|s: Set<int>| #[trigger]
                eps_closed_superset(nfa.states@, start@, s) implies indices_in_set(
                result@,
                s,
            ) by {
                assert(indices_in_set(r0, s));
                assert(start@.contains(x)) by {
                    assert(start@[i as int] == x);
                }
                assert forall|z: usize| #[trigger] result@.contains(z) implies s.contains(
                    z as int,
                ) by {
                    if z != x {
                        assert(r0.contains(z));
                    } else {
                        let k = choose|k: int|
                            0 <= k < start@.len() && (#[trigger] start@[k]) == x;
                        assert(s.contains(start@[k] as int));
                    }
                }
            }
        }
        let mut q2: Vec<usize> = Vec::new();
        let mut j: usize = 0;
        while j < result.len()
            invariant
                0 <= j <= result@.len(),
                q2@ == result@.take(j as int),
            decreases result@.len() - j,
        {
            q2.push(result[j]);
            proof {
                assert(q2@ =~= result@.take(j + 1));
            }
            j = j + 1;
        }
        proof {
            assert(result@.take(result@.len() as int) =~= result@);
        }
        queue = q2;
        i = i + 1;
    }
    while queue.len() > 0
        invariant
            nfa.wf(),
            n == nfa.states@.len() as int,
            sorted_unique(result@),
            forall|x: usize| result@.contains(x) ==> (x as int) < n,
            forall|x: usize| start@.contains(x) ==> result@.contains(x),
            forall|k: int| 0 <= k < queue@.len() ==> result@.contains(#[trigger] queue@[k]),
            forall|x: usize|
                result@.contains(x) ==> (queue@.contains(x) || (forall|y: usize|
                    eps_step(nfa.states@[x as int], y as int) ==> result@.contains(y))),
            forall|s: Set<int>|
                #[trigger] eps_closed_superset(nfa.states@, start@, s) ==> indices_in_set(
                    result@,
                    s,
                ),
        decreases n - result@.len(), queue@.len(),
    {
        proof {
            lemma_sorted_card(result@, n);
        }
        let ghost result0 = result@;
        let ghost queue0 = queue@;
        let x = match queue.pop() {
            Some(x) => x,
            None => 0,
        };
        proof {
            assert(queue0.contains(x)) by {
                assert(queue0[queue0.len() - 1] == x);
            }
            assert(result@.contains(x));
        }
        let succs = nfa.epsilon_transitions(x);
        proof {
            assert forall|y: usize|
                result@.contains(y) && y != x implies (queue@.contains(y) || (forall|z: usize|
                eps_step(nfa.states@[y as int], z as int) ==> result@.contains(z))) by {
                if queue0.contains(y) {
                    let k = choose|k: int| 0 <= k < queue0.len() && queue0[k] == y;
                    if k < queue0.len() - 1 {
                        assert(queue@[k] == y);
                        assert(queue@.contains(y));
                    } else {
                        assert(y == x);
                    }
                }
            }
        }
        let mut grew = false;
        let mut j: usize = 0;
        while j < succs.len()
            invariant
                0 <= j <= succs@.len(),
                nfa.wf(),
                n == nfa.states@.len() as int,
                (x as int) < n,
                forall|y: usize|
                    succs@.contains(y) <==> eps_step(nfa.states@[x as int], y as int),
                result@.contains(x),
                sorted_unique(result@),
                forall|y: usize| result@.contains(y) ==> (y as int) < n,
                forall|y: usize| start@.contains(y) ==> result@.contains(y),
                forall|k: int| 0 <= k < queue@.len() ==> result@.contains(#[trigger] queue@[k]),
                forall|y: usize|
                    result0.contains(y) ==> result@.contains(y),
                forall|y: usize|
                    result@.contains(y) ==> (result0.contains(y) || queue@.contains(y)),
                forall|k: int| 0 <= k < j ==> result@.contains(#[trigger] succs@[k]),
                forall|y: usize|
                    result@.contains(y) ==> (y == x || queue@.contains(y) || (forall|z: usize|
                        eps_step(nfa.states@[y as int], z as int) ==> result@.contains(z))),
                forall|s: Set<int>|
                    #[trigger] eps_closed_superset(nfa.states@, start@, s) ==> indices_in_set(
                        result@,
                        s,
                    ),
                grew ==> result@.len() > result0.len(),
                !grew ==> result@ == result0 && queue@ == queue0.drop_last(),
            decreases succs@.len() - j,
        {
            let y = succs[j];
            proof {
                assert(succs@.contains(y));
                assert(eps_step(nfa.states@[x as int], y as int));
                assert((y as int) < n) by {
                    assert(state_closed(nfa.states@[x as int], n));
                    let (t, u) = choose|t: int, u: int|
                        {
                            &&& 0 <= t < nfa.states@[x as int].transitions@.len()
                            &&& 0 <= u < nfa.states@[x as int].transitions@[t].1@.len()
                            &&& nfa.states@[x as int].transitions@[t].0 is None
                            &&& #[trigger] nfa.states@[x as int].transitions@[t].1@[u] == y as int
                        };
                }
            }
            if !contains_sorted(&result, y) {
                let ghost rpre = result@;
                let ghost qpre = queue@;
                insert_sorted(&mut result, y);
                queue.push(y);
                grew = true;
                proof {
                    assert forall|s: Set<int>| #[trigger]
                        eps_closed_superset(nfa.states@, start@, s) implies indices_in_set(
                        result@,
                        s,
                    ) by {
                        assert(indices_in_set(rpre, s));
                        assert forall|z: usize| #[trigger] result@.contains(z) implies s
                            .contains(z as int) by {
                            if z != y {
                                assert(rpre.contains(z));
                            } else {
                                assert(rpre.contains(x));
                                assert(s.contains(x as int));
                                assert(eps_step(nfa.states@[x as int], y as int));
                                assert(s.contains(y as int));
                            }
                        }
                    }
                    assert(queue@[queue@.len() - 1] == y);
                    assert(queue@.contains(y));
                    assert forall|w: usize| qpre.contains(w) implies queue@.contains(w) by {
                        let k = choose|k: int| 0 <= k < qpre.len() && qpre[k] == w;
                        assert(queue@[k] == w);
                    }
                    assert forall|k: int| 0 <= k < queue@.len() implies result@.contains(
                        #[trigger] queue@[k],
                    ) by {
                        if k < qpre.len() {
                            assert(qpre[k] == queue@[k]);
                            assert(rpre.contains(queue@[k]));
                        }
                    }
                }
            }
            j = j + 1;
        }
        proof {
            lemma_sorted_card(result@, n);
            if !grew {
                assert(queue@.len() < queue0.len());
            }
            assert forall|y: usize|
                result@.contains(y) implies (queue@.contains(y) || (forall|z: usize|
                eps_step(nfa.states@[y as int], z as int) ==> result@.contains(z))) by {
                if y == x {
                    assert forall|z: usize|
                        eps_step(nfa.states@[y as int], z as int) implies result@.contains(
                        z,
                    ) by {
                        assert(succs@.contains(z));
                        let k = choose|k: int| 0 <= k < succs@.len() && succs@[k] == z;
                        assert(result@.contains(succs@[k]));
                    }
                }
            }
        }
    }
    result
}

/// How a candidate matcher relates to the already collected ones:
/// `Some(true)` when one is algebra-equal (merge it), `Some(false)` when
/// one is comparable but not equal (construction must refuse), `None`
/// when it is incomparable to all of them (a fresh group).
fn candidate_status(mats: &Vec<Matcher>, candidate: &Matcher) -> (r: Option<bool>)
    ensures
        r is None ==> forall|k: int|
            0 <= k < mats@.len() ==> spec_matcher_ordering(
                (#[trigger] mats@[k]),
                *candidate,
            ) is None,
{
    let mut a: usize = 0;
    while a < mats.len()
        invariant
            0 <= a <= mats@.len(),
            forall|k: int|
                0 <= k < a ==> spec_matcher_ordering((#[trigger] mats@[k]), *candidate) is None,
        decreases mats@.len() - a,
    {
        match mats[a].set_ordering(candidate) {
            Some(Ordering::Equal) => {
                return Some(true);
            },
            Some(_) => {
                return Some(false);
            },
            None => {},
        }
        a = a + 1;
    }
    None
}

/// The index of a stored member set equal to `closure`, or the list's
/// length when none is.
fn find_set(sets: &Vec<Vec<usize>>, closure: &Vec<usize>) -> (r: usize)
    ensures
        r <= sets@.len(),
        (r as int) < sets@.len() ==> sets@[r as int]@ == closure@,
{
    let mut k: usize = 0;
    while k < sets.len()
        invariant
            0 <= k <= sets@.len(),
        decreases sets@.len() - k,
    {
        if sets_equal(&sets[k], closure) {
            return k;
        }
        k = k + 1;
    }
    k
}

/// A like-for-like copy of a matcher.
fn clone_matcher(m: &Matcher) -> (r: Matcher)
    ensures
        crate::matchers::matcher_like(r, *m),
{
    match m {
        Matcher::SingleMatcher(s) => Matcher::SingleMatcher(*s),
        Matcher::NegatedSet(v) => {
            let mut out: Vec<crate::matchers::SingleMatcher> = Vec::new();
            let mut i: usize = 0;
            while i < v.len()
                invariant
                    0 <= i <= v@.len(),
                    out@ == v@.take(i as int),
                decreases v@.len() - i,
            {
                out.push(v[i]);
                proof {
                    assert(out@ =~= v@.take(i + 1));
                }
                i = i + 1;
            }
            proof {
                assert(v@.take(v@.len() as int) =~= v@);
            }
            Matcher::NegatedSet(out)
        },
    }
}

impl<Token: Copy> DFSA<Token> {
    /// Subset construction over an epsilon-NFA. Every constructed state is
    /// a set of NFA states closed under epsilon transitions; transitions
    /// are grouped by matchers the algebra calls equal, so the matchers of
    /// each state end up pairwise incomparable. The accept token of a set
    /// is the token of its lowest accepting member: the earliest-declared
    /// rule wins.
    ///
    /// Construction yields `None` in two cases it cannot handle: an
    /// automaton that would outgrow the fixed state budget, and a state
    /// whose outgoing matchers contain one another — the matcher language
    /// has no set difference, so such an overlap cannot be split into
    /// disjoint matchers.
    #[verifier::rlimit(100)]
    #[verifier::spinoff_prover]
    pub fn determinize(nfa: &NEFSA<Token>) -> (r: Option<DFSA<Token>>)
        requires
            nfa.wf(),
            nfa.states@.len() >= 1,
        ensures
            r matches Some(d) ==> d.wf() && d.deterministic() && d.states@.len() >= 1,
    {
        let budget: usize = 1000000;
        let mut start_set: Vec<usize> = Vec::new();
        start_set.push(0);
        let start_closure = epsilon_closure(nfa, &start_set);
        let mut sets: Vec<Vec<usize>> = Vec::new();
        sets.push(start_closure);
        proof {
            assert forall|k: int, q: int|
                0 <= k < sets@.len() && 0 <= q < sets@[k]@.len() implies ((
            #[trigger] sets@[k]@[q]) as int) < nfa.states@.len() by {
                assert(sets@[k]@.contains(sets@[k]@[q]));
            }
        }
        let mut dstates: Vec<DFSAState<Token>> = Vec::new();
        let mut i: usize = 0;
        while i < sets.len()
            invariant
                nfa.wf(),
                nfa.states@.len() >= 1,
                dstates@.len() == i,
                0 <= i <= sets@.len(),
                sets@.len() >= 1,
                forall|k: int|
                    0 <= k < sets@.len() ==> sorted_unique((#[trigger] sets@[k])@),
                forall|k: int, q: int|
                    0 <= k < sets@.len() && 0 <= q < sets@[k]@.len() ==> ((
                    #[trigger] sets@[k]@[q]) as int) < nfa.states@.len(),
                forall|k: int|
                    0 <= k < i ==> dfsa_state_closed(#[trigger] dstates@[k], sets@.len() as int),
                forall|k: int| 0 <= k < i ==> dfsa_state_deterministic(#[trigger] dstates@[k]),
            decreases budget - i,
        {
            if i >= budget {
                return None;
            }
            let ghost sets0 = sets@;
            // the accept token: the lowest accepting member wins
            let mut accept: Option<Token> = None;
            let mut q: usize = 0;
            while q < sets[i].len()
                invariant
                    0 <= i < sets@.len(),
                    0 <= q <= sets@[i as int]@.len(),
                    nfa.wf(),
                    forall|k: int, p: int|
                        0 <= k < sets@.len() && 0 <= p < sets@[k]@.len() ==> ((
                        #[trigger] sets@[k]@[p]) as int) < nfa.states@.len(),
                decreases sets@[i as int]@.len() - q,
            {
                let member = sets[i][q];
                if accept.is_none() {
                    accept = match nfa.token(member) {
                        Some(t) => Some(*t),
                        None => None,
                    };
                }
                q = q + 1;
            }
            // collect the distinct matchers leaving this member set
            let mut mats: Vec<Matcher> = Vec::new();
            let mut q2: usize = 0;
            while q2 < sets[i].len()
                invariant
                    0 <= i < sets@.len(),
                    0 <= q2 <= sets@[i as int]@.len(),
                    nfa.wf(),
                    forall|k: int, p: int|
                        0 <= k < sets@.len() && 0 <= p < sets@[k]@.len() ==> ((
                        #[trigger] sets@[k]@[p]) as int) < nfa.states@.len(),
                    forall|a: int, b: int|
                        0 <= a < b < mats@.len() ==> spec_matcher_ordering(
                            (#[trigger] mats@[a]),
                            (#[trigger] mats@[b]),
                        ) is None,
                decreases sets@[i as int]@.len() - q2,
            {
                let member = sets[i][q2];
                let mut t: usize = 0;
                while t < nfa.states[member].transitions.len()
                    invariant
                        0 <= i < sets@.len(),
                        (member as int) < nfa.states@.len(),
                        0 <= t <= nfa.states@[member as int].transitions@.len(),
                        nfa.wf(),
                        forall|a: int, b: int|
                            0 <= a < b < mats@.len() ==> spec_matcher_ordering(
                                (#[trigger] mats@[a]),
                                (#[trigger] mats@[b]),
                            ) is None,
                    decreases nfa.states@[member as int].transitions@.len() - t,
                {
                    match &nfa.states[member].transitions[t].0 {
                        Some(m) => {
                            let candidate = clone_matcher(m);
                            match candidate_status(&mats, &candidate) {
                                Some(true) => {},
                                Some(false) => {
                                    // a containment the algebra cannot split
                                    return None;
                                },
                                None => {
                                    mats.push(candidate);
                                },
                            }
                        },
                        None => {},
                    }
                    t = t + 1;
                }
                q2 = q2 + 1;
            }
            // for each matcher, the closed target set and its index
            let mut dtargets: Vec<usize> = Vec::new();
            let mut md: usize = 0;
            while md < mats.len()
                invariant
                    0 <= i < sets@.len(),
                    0 <= md <= mats@.len(),
                    nfa.wf(),
                    nfa.states@.len() >= 1,
                    sets@.len() >= 1,
                    forall|k: int|
                        0 <= k < sets@.len() ==> sorted_unique((#[trigger] sets@[k])@),
                    forall|k: int, p: int|
                        0 <= k < sets@.len() && 0 <= p < sets@[k]@.len() ==> ((
                        #[trigger] sets@[k]@[p]) as int) < nfa.states@.len(),
                    forall|a: int, b: int|
                        0 <= a < b < mats@.len() ==> spec_matcher_ordering(
                            (#[trigger] mats@[a]),
                            (#[trigger] mats@[b]),
                        ) is None,
                    dtargets@.len() == md,
                    forall|k: int|
                        0 <= k < md ==> ((#[trigger] dtargets@[k]) as int) < sets@.len(),
                    sets0.len() <= sets@.len(),
                decreases mats@.len() - md,
            {
                // the union of all states reached from the members on this matcher
                let mut reached: Vec<usize> = Vec::new();
                let mut q3: usize = 0;
                while q3 < sets[i].len()
                    invariant
                        0 <= i < sets@.len(),
                        0 <= md < mats@.len(),
                        0 <= q3 <= sets@[i as int]@.len(),
                        nfa.wf(),
                        forall|k: int, p: int|
                            0 <= k < sets@.len() && 0 <= p < sets@[k]@.len() ==> ((
                            #[trigger] sets@[k]@[p]) as int) < nfa.states@.len(),
                        sorted_unique(reached@),
                        forall|y: usize|
                            reached@.contains(y) ==> (y as int) < nfa.states@.len(),
                    decreases sets@[i as int]@.len() - q3,
                {
                    let member = sets[i][q3];
                    let mut t2: usize = 0;
                    while t2 < nfa.states[member].transitions.len()
                        invariant
                            (member as int) < nfa.states@.len(),
                            0 <= md < mats@.len(),
                            0 <= t2 <= nfa.states@[member as int].transitions@.len(),
                            nfa.wf(),
                            sorted_unique(reached@),
                            forall|y: usize|
                                reached@.contains(y) ==> (y as int) < nfa.states@.len(),
                        decreases nfa.states@[member as int].transitions@.len() - t2,
                    {
                        let take_it = match &nfa.states[member].transitions[t2].0 {
                            Some(m) => m.is_equal(&mats[md]),
                            None => false,
                        };
                        if take_it {
                            let targets = &nfa.states[member].transitions[t2].1;
                            let mut u: usize = 0;
                            while u < targets.len()
                                invariant
                                    (member as int) < nfa.states@.len(),
                                    0 <= t2 < nfa.states@[member as int].transitions@.len(),
                                    targets@ == nfa.states@[member as int].transitions@[
                                        t2 as int].1@,
                                    0 <= u <= targets@.len(),
                                    nfa.wf(),
                                    sorted_unique(reached@),
                                    forall|y: usize|
                                        reached@.contains(y) ==> (y as int)
                                            < nfa.states@.len(),
                                decreases targets@.len() - u,
                            {
                                proof {
                                    assert(state_closed(
                                        nfa.states@[member as int],
                                        nfa.states@.len() as int,
                                    ));
                                }
                                insert_sorted(&mut reached, targets[u]);
                                u = u + 1;
                            }
                        }
                        t2 = t2 + 1;
                    }
                    q3 = q3 + 1;
                }
                proof {
                    assert forall|k: int|
                        0 <= k < reached@.len() implies ((#[trigger] reached@[k]) as int)
                        < nfa.states@.len() by {
                        assert(reached@.contains(reached@[k]));
                    }
                }
                let closure = epsilon_closure(nfa, &reached);
                // find or add the target member set
                let mut found = find_set(&sets, &closure);
                if found >= sets.len() {
                    found = sets.len();
                    sets.push(closure);
                    proof {
                        assert forall|k: int, p: int|
                            0 <= k < sets@.len() && 0 <= p < sets@[k]@.len() implies ((
                        #[trigger] sets@[k]@[p]) as int) < nfa.states@.len() by {
                            if k == sets@.len() - 1 {
                                assert(sets@[k]@.contains(sets@[k]@[p]));
                            }
                        }
                    }
                }
                dtargets.push(found);
                md = md + 1;
            }
            // assemble the deterministic state
            let ghost mats0 = mats@;
            let mut transitions: Vec<(Matcher, usize)> = Vec::new();
            let mut w: usize = 0;
            let mut rest = mats;
            let dl = dtargets.len();
            while rest.len() > 0
                invariant
                    dl == dtargets@.len(),
                    w <= dl,
                    w + rest@.len() == mats0.len(),
                    rest@ == mats0.skip(w as int),
                    dtargets@.len() == mats0.len(),
                    forall|k: int|
                        0 <= k < dtargets@.len() ==> ((#[trigger] dtargets@[k]) as int)
                            < sets@.len(),
                    transitions@.len() == w,
                    forall|k: int|
                        0 <= k < w ==> (#[trigger] transitions@[k]).0 == mats0[k]
                            && transitions@[k].1 == dtargets@[k],
                    forall|a: int, b: int|
                        0 <= a < b < mats0.len() ==> spec_matcher_ordering(
                            (#[trigger] mats0[a]),
                            (#[trigger] mats0[b]),
                        ) is None,
                decreases rest@.len(),
            {
                let ghost wbefore = w as int;
                let m = rest.remove(0);
                proof {
                    assert(mats0.skip(wbefore)[0] == mats0[wbefore]);
                    assert(mats0.skip(wbefore).drop_first() =~= mats0.skip(wbefore + 1));
                }
                transitions.push((m, dtargets[w]));
                w = w + 1;
            }
            dstates.push(DFSAState { transitions, token: accept });
            proof {
                assert forall|k: int| 0 <= k < dstates@.len() implies dfsa_state_closed(
                    #[trigger] dstates@[k],
                    sets@.len() as int,
                ) by {
                    if k < dstates@.len() - 1 {
                        assert(dfsa_state_closed(dstates@[k], sets0.len() as int));
                        assert forall|t: int|
                            0 <= t < dstates@[k].transitions@.len() implies (
                            #[trigger] dstates@[k].transitions@[t]).1 < sets@.len() by {
                            assert(dstates@[k].transitions@[t].1 < sets0.len());
                        }
                    }
                }
                assert forall|k: int| 0 <= k < dstates@.len() implies dfsa_state_deterministic(
                    #[trigger] dstates@[k],
                ) by {}
            }
            i = i + 1;
        }
        proof {
            assert(dstates@.len() == sets@.len());
        }
        Some(DFSA { states: dstates })
    }

    /// Drop every state unreachable from the start state, renumbering the
    /// rest in discovery order: the result is a renaming of a subset of
    /// the old states — the start still first, each kept state carrying
    /// its old token and its old transitions with the targets renamed by
    /// the same map — so the recognized language is unchanged.
    pub fn remove_unreachable_states(&mut self)
        requires
            old(self).wf(),
            old(self).states@.len() >= 1,
        ensures
            final(self).wf(),
            1 <= final(self).states@.len() <= old(self).states@.len(),
            final(self).states@[0].token == old(self).states@[0].token,
            exists|map: Seq<usize>|
                state_renaming(old(self).states@, final(self).states@, map) && (forall|j: int|
                    0 <= j < map.len() ==> dfsa_reachable(
                        old(self).states@,
                        (#[trigger] map[j]) as int,
                    )),
    {
        let n = self.states.len();
        let mut newid: Vec<Option<usize>> = Vec::new();
        let mut i: usize = 0;
        while i < n
            invariant
                0 <= i <= n,
                newid@.len() == i,
                forall|k: int| 0 <= k < i ==> (#[trigger] newid@[k]) is None,
            decreases n - i,
        {
            newid.push(None);
            i = i + 1;
        }
        let mut order: Vec<usize> = Vec::new();
        order.push(0);
        let slot = &mut newid[0];
        *slot = Some(0);
        proof {
            assert(order@[0] == 0);
            let p0 = Seq::<usize>::empty().push(0);
            assert(p0[0] == 0 && p0.last() == 0 && p0.len() == 1);
            assert(dfsa_path(self.states@, p0));
            assert(dfsa_reachable(self.states@, 0));
        }
        let mut qi: usize = 0;
        while qi < order.len()
            invariant
                self.wf(),
                n == self.states@.len(),
                n >= 1,
                order@[0] == 0,
                newid@.len() == n,
                0 <= qi <= order@.len(),
                1 <= order@.len() <= n,
                forall|k: int|
                    0 <= k < order@.len() ==> ((#[trigger] order@[k]) as int) < n,
                forall|k: int|
                    0 <= k < order@.len() ==> newid@[order@[k] as int] == Some(k as usize),
                forall|y: int|
                    0 <= y < n && (#[trigger] newid@[y]) is Some ==> exists|k: int|
                        0 <= k < order@.len() && (#[trigger] order@[k]) == y,
                forall|a: int, b: int|
                    0 <= a < b < order@.len() ==> order@[a] != order@[b],
                forall|k: int|
                    0 <= k < order@.len() ==> dfsa_reachable(
                        self.states@,
                        (#[trigger] order@[k]) as int,
                    ),
                forall|k: int, t: int|
                    0 <= k < qi && 0 <= t < self.states@[order@[k] as int].transitions@.len()
                        ==> (#[trigger] newid@[self.states@[order@[k] as int].transitions@[
                        t].1 as int]) is Some,
            decreases n - order@.len(), order@.len() - qi,
        {
            let x = order[qi];
            let ghost order0 = order@;
            let mut t: usize = 0;
            while t < self.states[x].transitions.len()
                invariant
                    self.wf(),
                    n == self.states@.len(),
                    (x as int) < n,
                    order@[0] == 0,
                    newid@.len() == n,
                    0 <= t <= self.states@[x as int].transitions@.len(),
                    1 <= order@.len() <= n,
                    forall|k: int|
                        0 <= k < order@.len() ==> ((#[trigger] order@[k]) as int) < n,
                    forall|k: int|
                        0 <= k < order@.len() ==> newid@[order@[k] as int] == Some(k as usize),
                    forall|y: int|
                        0 <= y < n && (#[trigger] newid@[y]) is Some ==> exists|k: int|
                            0 <= k < order@.len() && (#[trigger] order@[k]) == y,
                    forall|a: int, b: int|
                        0 <= a < b < order@.len() ==> order@[a] != order@[b],
                    forall|k: int|
                        0 <= k < order0.len() ==> order@[k] == order0[k],
                    forall|k: int|
                        0 <= k < order@.len() ==> dfsa_reachable(
                            self.states@,
                            (#[trigger] order@[k]) as int,
                        ),
                    order0.len() <= order@.len(),
                    qi < order0.len(),
                    order0[qi as int] == x,
                    forall|k: int, tt: int|
                        0 <= k < qi && 0 <= tt < self.states@[order@[k] as int].transitions@.len()
                            ==> (#[trigger] newid@[self.states@[order@[k] as int].transitions@[
                            tt].1 as int]) is Some,
                    forall|tt: int|
                        0 <= tt < t ==> (#[trigger] newid@[self.states@[
                            x as int].transitions@[tt].1 as int]) is Some,
                decreases self.states@[x as int].transitions@.len() - t,
            {
                let y = self.states[x].transitions[t].1;
                proof {
                    assert(dfsa_state_closed(self.states@[x as int], n as int));
                }
                let seen = match &newid[y] {
                    Some(_) => true,
                    None => false,
                };
                if !seen {
                    let new_index = order.len();
                    proof {
                        if order@.len() >= n {
                            lemma_distinct_card(order@, n as int);
                            lemma_all_assigned(order@, newid@, n as int, y as int);
                            assert(false);
                        }
                    }
                    let ghost newid0 = newid@;
                    let ghost order1 = order@;
                    proof {
                        // extend the discoverer's path by this transition
                        assert(dfsa_reachable(self.states@, x as int)) by {
                            assert(order1[qi as int] == x);
                        }
                        let path = choose|path: Seq<usize>|
                            #[trigger] dfsa_path(self.states@, path) && path.len() >= 1 && path[0]
                                == 0 && (path.last() as int) == x as int;
                        let path2 = path.push(y);
                        assert(dfsa_path(self.states@, path2)) by {
                            assert forall|p: int| 0 <= p < path2.len() implies ((
                            #[trigger] path2[p]) as int) < n by {
                                if p < path.len() {
                                    assert(path2[p] == path[p]);
                                }
                            }
                            assert forall|p: int| 0 <= p < path2.len() - 1 implies exists|t2: int|
                                0 <= t2 < self.states@[#[trigger] path2[p] as int].transitions@.len()
                                    && (#[trigger] self.states@[path2[p] as int].transitions@[
                                t2]).1 == path2[p + 1] by {
                                if p < path.len() - 1 {
                                    assert(path2[p] == path[p] && path2[p + 1] == path[p + 1]);
                                } else {
                                    assert(path2[p] == path.last() && path2[p + 1] == y);
                                    assert(self.states@[x as int].transitions@[t as int].1 == y);
                                }
                            }
                        }
                        assert(path2[0] == path[0]);
                        assert(dfsa_reachable(self.states@, y as int));
                    }
                    let slot = &mut newid[y];
                    *slot = Some(new_index);
                    order.push(y);
                    proof {
                        assert(order@[order@.len() - 1] == y);
                        assert forall|z: int|
                            0 <= z < n && (#[trigger] newid@[z]) is Some implies exists|k: int|
                            0 <= k < order@.len() && (#[trigger] order@[k]) == z by {
                            if z == y {
                                assert(order@[order@.len() - 1] == z);
                            } else {
                                assert(newid0[z] == newid@[z]);
                                let k = choose|k: int|
                                    0 <= k < order1.len() && (#[trigger] order1[k]) == z;
                                assert(order@[k] == z);
                            }
                        }
                    }
                }
                t = t + 1;
            }
            qi = qi + 1;
        }
        // rebuild the reachable states in discovery order
        let mut new_states: Vec<DFSAState<Token>> = Vec::new();
        let mut w: usize = 0;
        while w < order.len()
            invariant
                self.wf(),
                n == self.states@.len(),
                newid@.len() == n,
                0 <= w <= order@.len(),
                1 <= order@.len() <= n,
                new_states@.len() == w,
                forall|k: int|
                    0 <= k < order@.len() ==> ((#[trigger] order@[k]) as int) < n,
                forall|k: int, t: int|
                    0 <= k < order@.len() && 0 <= t < self.states@[order@[
                        k] as int].transitions@.len() ==> (#[trigger] newid@[self.states@[order@[
                        k] as int].transitions@[t].1 as int]) is Some,
                forall|y: int|
                    0 <= y < n ==> ((#[trigger] newid@[y]) matches Some(j) ==> (j as int)
                        < order@.len()),
                forall|k: int|
                    0 <= k < order@.len() ==> newid@[order@[k] as int] == Some(k as usize),
                forall|y: int|
                    0 <= y < n && (#[trigger] newid@[y]) is Some ==> exists|k: int|
                        0 <= k < order@.len() && (#[trigger] order@[k]) == y,
                forall|a: int, b: int|
                    0 <= a < b < order@.len() ==> order@[a] != order@[b],
                forall|k: int|
                    0 <= k < order@.len() ==> dfsa_reachable(
                        self.states@,
                        (#[trigger] order@[k]) as int,
                    ),
                order@[0] == 0,
                forall|k: int|
                    0 <= k < w ==> dfsa_state_closed(
                        #[trigger] new_states@[k],
                        order@.len() as int,
                    ),
                forall|j: int|
                    0 <= j < w ==> #[trigger] renamed_state(
                        self.states@,
                        new_states@,
                        order@,
                        j,
                    ),
                w > 0 ==> new_states@[0].token == self.states@[0].token,
            decreases order@.len() - w,
        {
            let x = order[w];
            let mut transitions: Vec<(Matcher, usize)> = Vec::new();
            let mut t: usize = 0;
            while t < self.states[x].transitions.len()
                invariant
                    self.wf(),
                    n == self.states@.len(),
                    newid@.len() == n,
                    (x as int) < n,
                    0 <= w < order@.len(),
                    order@[w as int] == x,
                    0 <= t <= self.states@[x as int].transitions@.len(),
                    1 <= order@.len() <= n,
                    forall|tt: int|
                        0 <= tt < self.states@[x as int].transitions@.len() ==> (
                        #[trigger] newid@[self.states@[x as int].transitions@[
                            tt].1 as int]) is Some,
                    forall|y: int|
                        0 <= y < n ==> ((#[trigger] newid@[y]) matches Some(j) ==> (j as int)
                            < order@.len()),
                    forall|k: int|
                        0 <= k < order@.len() ==> newid@[order@[k] as int] == Some(k as usize),
                    forall|y: int|
                        0 <= y < n && (#[trigger] newid@[y]) is Some ==> exists|k: int|
                            0 <= k < order@.len() && (#[trigger] order@[k]) == y,
                    forall|k: int|
                        0 <= k < order@.len() ==> ((#[trigger] order@[k]) as int) < n,
                    transitions@.len() == t,
                    forall|q: int|
                        0 <= q < t ==> {
                            &&& crate::matchers::matcher_like(
                                (#[trigger] transitions@[q]).0,
                                self.states@[x as int].transitions@[q].0,
                            )
                            &&& (transitions@[q].1 as int) < order@.len()
                            &&& order@[transitions@[q].1 as int] == self.states@[
                                x as int].transitions@[q].1
                        },
                decreases self.states@[x as int].transitions@.len() - t,
            {
                proof {
                    assert(dfsa_state_closed(self.states@[x as int], n as int));
                }
                let y = self.states[x].transitions[t].1;
                let m = clone_matcher(&self.states[x].transitions[t].0);
                match &newid[y] {
                    Some(j) => {
                        proof {
                            assert(newid@[y as int] == Some(*j));
                            let k = choose|k: int|
                                0 <= k < order@.len() && (#[trigger] order@[k]) == y;
                            assert(newid@[order@[k] as int] == Some(k as usize));
                            assert(k == *j as int);
                            assert(order@[*j as int] == y);
                        }
                        transitions.push((m, *j));
                    },
                    None => {
                        proof {
                            assert(false);
                        }
                    },
                }
                t = t + 1;
            }
            let token = self.states[x].token;
            let ghost ns0 = new_states@;
            new_states.push(DFSAState { transitions, token });
            proof {
                assert forall|j: int| 0 <= j < new_states@.len() implies #[trigger] renamed_state(
                    self.states@,
                    new_states@,
                    order@,
                    j,
                ) by {
                    if j < ns0.len() {
                        assert(new_states@[j] == ns0[j]);
                        assert(renamed_state(self.states@, ns0, order@, j));
                    } else {
                        assert(new_states@[j].token == self.states@[x as int].token);
                    }
                }
            }
            w = w + 1;
        }
        self.states = new_states;
        proof {
            assert(state_renaming(old(self).states@, final(self).states@, order@));
            assert(forall|j: int|
                0 <= j < order@.len() ==> dfsa_reachable(
                    old(self).states@,
                    (#[trigger] order@[j]) as int,
                ));
        }
    }
}

/// A list of pairwise distinct indices below `n` has at most `n` entries.
proof fn lemma_distinct_card(s: Seq<usize>, n: int)
    requires
        forall|a: int, b: int| 0 <= a < b < s.len() ==> s[a] != s[b],
        forall|k: int| 0 <= k < s.len() ==> (#[trigger] s[k] as int) < n,
        n >= 0,
    ensures
        s.len() <= n,
    decreases n,
{
    if s.len() > n {
        if n == 0 {
            assert((s[0] as int) < 0);
        } else {
            // remove one value and recurse
            let last = s[s.len() - 1];
            let shorter = s.drop_last();
            if shorter.contains(last) {
                let k = choose|k: int| 0 <= k < shorter.len() && shorter[k] == last;
                assert(s[k] == s[s.len() - 1]);
                assert(false);
            }
            // map out the hole left by `last`
            let mapped = Seq::new(
                shorter.len(),
                |k: int|
                    if (shorter[k] as int) > (last as int) {
                        (shorter[k] - 1) as usize
                    } else {
                        shorter[k]
                    },
            );
            assert forall|a: int, b: int| 0 <= a < b < mapped.len() implies mapped[a]
                != mapped[b] by {
                assert(shorter[a] == s[a] && shorter[b] == s[b]);
            }
            assert forall|k: int| 0 <= k < mapped.len() implies (#[trigger] mapped[k] as int) < n
                - 1 by {
                assert(shorter[k] == s[k]);
                assert((shorter[k] as int) < n);
                assert(shorter[k] != last);
            }
            lemma_distinct_card(mapped, n - 1);
        }
    }
}

/// When every index is assigned, the one we are about to assign is too.
proof fn lemma_all_assigned(order: Seq<usize>, newid: Seq<Option<usize>>, n: int, y: int)
    requires
        newid.len() == n,
        0 <= y < n,
        order.len() >= n,
        forall|a: int, b: int| 0 <= a < b < order.len() ==> order[a] != order[b],
        forall|k: int| 0 <= k < order.len() ==> (#[trigger] order[k] as int) < n,
        forall|k: int| 0 <= k < order.len() ==> newid[order[k] as int] == Some(k as usize),
    ensures
        newid[y] is Some,
{
    lemma_distinct_card(order, n);
    // order has exactly n distinct values below n, so it covers y
    lemma_pigeonhole(order, n, y);
    let k = choose|k: int| 0 <= k < order.len() && (#[trigger] order[k] as int) == y;
    assert(newid[order[k] as int] == Some(k as usize));
}

/// `n` distinct values below `n` cover every value below `n`.
proof fn lemma_pigeonhole(s: Seq<usize>, n: int, y: int)
    requires
        s.len() == n,
        0 <= y < n,
        forall|a: int, b: int| 0 <= a < b < s.len() ==> s[a] != s[b],
        forall|k: int| 0 <= k < s.len() ==> (#[trigger] s[k] as int) < n,
    ensures
        exists|k: int| 0 <= k < s.len() && (#[trigger] s[k] as int) == y,
{
    if !(exists|k: int| 0 <= k < s.len() && (#[trigger] s[k] as int) == y) {
        // then s has n distinct values among the n-1 others
        let mapped = Seq::new(
            s.len(),
            |k: int|
                if (s[k] as int) > y {
                    (s[k] - 1) as usize
                } else {
                    s[k]
                },
        );
        assert forall|a: int, b: int| 0 <= a < b < mapped.len() implies mapped[a]
            != mapped[b] by {
            assert((s[a] as int) != y && (s[b] as int) != y);
        }
        assert forall|k: int| 0 <= k < mapped.len() implies (#[trigger] mapped[k] as int) < n
            - 1 by {
            assert((s[k] as int) != y);
            assert((s[k] as int) < n);
        }
        lemma_distinct_card(mapped, n - 1);
        assert(false);
    }
}

/// The automaton's run over `input` from position `pos` in `state`,
/// carrying the most recent accepting position: the token reported when
/// the run can step no further, so the longest match wins.
pub open spec fn spec_scan<Token>(
    states: Seq<DFSAState<Token>>,
    input: Seq<char>,
    state: int,
    pos: int,
    last: Option<(Token, int)>,
) -> Option<(Token, int)>
    decreases input.len() - pos when 0 <= pos <= input.len() && 0 <= state < states.len()
        && (forall|k: int|
        0 <= k < states.len() ==> dfsa_state_closed(#[trigger] states[k], states.len() as int))
{
    if pos >= input.len() {
        last
    } else {
        match spec_step(states[state].transitions@, input[pos]) {
            None => last,
            Some(next) => {
                let stepped = if (next as int) < states.len() {
                    next as int
                } else {
                    0
                };
                let last2 = match states[stepped].token {
                    Some(t) => Some((t, pos + 1)),
                    None => last,
                };
                spec_scan(states, input, stepped, pos + 1, last2)
            },
        }
    }
}

/// Run the deterministic automaton over `input` from `start`, remembering
/// the most recent accepting state: the longest match wins. Zero-length
/// matches are not reported.
pub fn scan_next<Token: Copy>(dfa: &DFSA<Token>, input: &Vec<char>, start: usize) -> (r: Option<
    (Token, usize),
>)
    requires
        dfa.wf(),
        dfa.states@.len() >= 1,
        start <= input@.len(),
    ensures
        ({
            let sres = spec_scan(dfa.states@, input@, 0, start as int, None);
            match r {
                Some(hit) => sres == Some((hit.0, hit.1 as int)) && start < hit.1
                    <= input@.len(),
                None => sres is None,
            }
        }),
{
    let mut state: usize = 0;
    let mut pos: usize = start;
    let mut last: Option<(Token, usize)> = None;
    while pos < input.len()
        invariant
            dfa.wf(),
            dfa.states@.len() >= 1,
            (state as int) < dfa.states@.len(),
            start <= pos <= input@.len(),
            last matches Some(hit) ==> start < hit.1 <= input@.len(),
            spec_scan(dfa.states@, input@, 0, start as int, None) == spec_scan(
                dfa.states@,
                input@,
                state as int,
                pos as int,
                lift_last(last),
            ),
        decreases input@.len() - pos,
    {
        match dfa.transition(state, input[pos]) {
            Some(next) => {
                proof {
                    assert(dfsa_state_closed(
                        dfa.states@[state as int],
                        dfa.states@.len() as int,
                    ));
                    assert((next as int) < dfa.states@.len()) by {
                        lemma_spec_step_target(
                            dfa.states@[state as int].transitions@,
                            input@[pos as int],
                            dfa.states@.len() as int,
                        );
                    }
                }
                state = next;
                pos = pos + 1;
                match dfa.token(state) {
                    Some(t) => {
                        last = Some((t, pos));
                    },
                    None => {},
                }
            },
            None => {
                return last;
            },
        }
    }
    last
}

/// The spec view of a remembered accept.
pub open spec fn lift_last<Token>(last: Option<(Token, usize)>) -> Option<(Token, int)> {
    match last {
        Some(hit) => Some((hit.0, hit.1 as int)),
        None => None,
    }
}

/// A step of a closed state lands on an existing state.
proof fn lemma_spec_step_target(ts: Seq<(Matcher, usize)>, c: char, bound: int)
    requires
        forall|t: int| 0 <= t < ts.len() ==> (#[trigger] ts[t]).1 < bound,
    ensures
        spec_step(ts, c) matches Some(next) ==> (next as int) < bound,
    decreases ts.len(),
{
    if ts.len() > 0 && !matcher_matches(ts[0].0, c) {
        assert forall|t: int| 0 <= t < ts.drop_first().len() implies (#[trigger] ts.drop_first()[
        t]).1 < bound by {
            assert(ts.drop_first()[t] == ts[t + 1]);
        }
        lemma_spec_step_target(ts.drop_first(), c, bound);
    }
}

} // verus!
