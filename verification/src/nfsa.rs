//! A nondeterministic finite state automaton without epsilon transitions.

use crate::matchers::{matcher_matches, Matcher};
use vstd::prelude::*;

verus! {

/// The labeled transitions of one state: each matcher maps to the set of
/// states reached on a character it matches.
pub struct Transitions {
    transitions: Vec<(Matcher, Vec<usize>)>,
}

/// A nondeterministic finite state automaton without epsilon transitions.
pub struct NFSA<Token: Ord> {
    states: Vec<(Transitions, Option<Token>)>,
}

impl Transitions {
    /// The labeled transitions of this state.
    pub closed spec fn entries(&self) -> Seq<(Matcher, Seq<usize>)> {
        Seq::new(self.transitions@.len(), |i: int| (self.transitions@[i].0, self.transitions@[i].1@))
    }

    /// Assemble a state's transition table.
    pub fn new(transitions: Vec<(Matcher, Vec<usize>)>) -> (r: Transitions)
        ensures
            r.entries().len() == transitions@.len(),
            forall|i: int|
                0 <= i < transitions@.len() ==> #[trigger] r.entries()[i] == (
                    transitions@[i].0,
                    transitions@[i].1@,
                ),
    {
        Transitions { transitions }
    }
}

impl<Token: Ord> NFSA<Token> {
    /// The transition tables of the automaton's states, with their tokens.
    pub closed spec fn table(&self) -> Seq<(Seq<(Matcher, Seq<usize>)>, Option<Token>)> {
        Seq::new(
            self.states@.len(),
            |i: int| (self.states@[i].0.entries(), self.states@[i].1),
        )
    }

    /// Assemble an automaton from its states.
    pub fn new(states: Vec<(Transitions, Option<Token>)>) -> (r: Self)
        ensures
            r.table().len() == states@.len(),
            forall|i: int|
                0 <= i < states@.len() ==> #[trigger] r.table()[i] == (
                    states@[i].0.entries(),
                    states@[i].1,
                ),
    {
        NFSA { states }
    }

    /// Look up the successor set of the first transition of `state` whose
    /// matcher accepts `c`, if any.
    pub fn transitions(&self, state: usize, c: char) -> (r: Option<&Vec<usize>>)
        requires
            (state as int) < self.table().len(),
        ensures
            ({
                let entries = self.table()[state as int].0;
                match r {
                    Some(set) => exists|k: int|
                        {
                            &&& 0 <= k < entries.len()
                            &&& matcher_matches(#[trigger] entries[k].0, c)
                            &&& set@ == entries[k].1
                            &&& forall|m: int| 0 <= m < k ==> !matcher_matches(entries[m].0, c)
                        },
                    None => forall|k: int|
                        0 <= k < entries.len() ==> !matcher_matches(#[trigger] entries[k].0, c),
                }
            }),
    {
        let ghost entries = self.table()[state as int].0;
        let transitions = &self.states[state].0.transitions;
        proof {
            assert(entries.len() == transitions@.len());
        }
        let mut i: usize = 0;
        while i < transitions.len()
            invariant
                0 <= i <= transitions@.len(),
                (state as int) < self.table().len(),
                transitions == &self.states@[state as int].0.transitions,
                entries == self.table()[state as int].0,
                entries.len() == transitions@.len(),
                forall|k: int| 0 <= k < entries.len() ==> #[trigger] entries[k] == (
                    transitions@[k].0,
                    transitions@[k].1@,
                ),
                forall|m: int| 0 <= m < i ==> !matcher_matches(entries[m].0, c),
            decreases transitions@.len() - i,
        {
            if transitions[i].0.is_matching(c) {
                proof {
                    assert(matcher_matches(entries[i as int].0, c));
                }
                return Some(&transitions[i].1);
            }
            i = i + 1;
        }
        None
    }
}

} // verus!
