//! Construction, union, determinization and scanning of the automata.

use turn::dfsa::{scan_next, DFSA};
use turn::matchers::{CharacterCategory, Matcher, SingleMatcher};
use turn::mir::MIR;
use turn::nefsa::{ConstructionError, NEFSA};

#[test]
fn from_mir_any_char() {
    let mir = MIR::Category(CharacterCategory::Any);
    let fsa: NEFSA<()> = NEFSA::from_mir(&mir, ());
    assert_eq!(fsa.states.len(), 2);
    assert_eq!(fsa.states[0].token, None);
    assert_eq!(fsa.states[0].transitions.len(), 1);
    assert_eq!(
        fsa.states[0].transitions[0].0,
        Some(Matcher::SingleMatcher(SingleMatcher::Category(
            CharacterCategory::Any
        )))
    );
    assert_eq!(fsa.states[0].transitions[0].1, vec![1]);
    assert_eq!(fsa.states[1].token, Some(()));
    assert!(fsa.states[1].transitions.is_empty());
}

#[test]
fn from_mir_sequence() {
    let mir = MIR::Sequence("abc");
    let fsa: NEFSA<()> = NEFSA::from_mir(&mir, ());
    assert_eq!(fsa.states.len(), 4);
    for (i, c) in ['a', 'b', 'c'].iter().enumerate() {
        assert_eq!(fsa.states[i].token, None);
        assert_eq!(fsa.states[i].transitions.len(), 1);
        assert_eq!(
            fsa.states[i].transitions[0].0,
            Some(Matcher::SingleMatcher(SingleMatcher::Character(*c)))
        );
        assert_eq!(fsa.states[i].transitions[0].1, vec![i + 1]);
    }
    assert_eq!(fsa.states[3].token, Some(()));
    assert!(fsa.states[3].transitions.is_empty());
}

#[test]
fn from_token_chain() {
    let fsa = NEFSA::from_token(7usize, "ab").expect("literal must build");
    assert_eq!(fsa.states.len(), 3);
    assert_eq!(
        fsa.states[0].transitions[0].0,
        Some(Matcher::SingleMatcher(SingleMatcher::Character('a')))
    );
    assert_eq!(fsa.states[0].transitions[0].1, vec![1]);
    assert_eq!(
        fsa.states[1].transitions[0].0,
        Some(Matcher::SingleMatcher(SingleMatcher::Character('b')))
    );
    assert_eq!(fsa.states[1].transitions[0].1, vec![2]);
    assert_eq!(fsa.states[2].token, Some(7));
}

#[test]
fn from_token_empty() {
    let fsa = NEFSA::from_token(7usize, "");
    assert_eq!(fsa.err(), Some(ConstructionError::EmptyLiteralSource));
}

#[test]
fn union_offsets() {
    let a = NEFSA::from_token(0usize, "x").unwrap();
    let b = NEFSA::from_token(1usize, "yz").unwrap();
    let u = NEFSA::union(vec![a, b]);
    // one new start state, then 2 + 3 renumbered states
    assert_eq!(u.states.len(), 6);
    assert_eq!(u.states[0].token, None);
    assert_eq!(u.states[0].transitions.len(), 1);
    assert_eq!(u.states[0].transitions[0].0, None);
    assert_eq!(u.states[0].transitions[0].1, vec![1, 3]);
    // the first source begins at offset 1
    assert_eq!(u.states[1].transitions[0].1, vec![2]);
    assert_eq!(u.states[2].token, Some(0));
    // the second source begins at offset 3
    assert_eq!(u.states[3].transitions[0].1, vec![4]);
    assert_eq!(u.states[4].transitions[0].1, vec![5]);
    assert_eq!(u.states[5].token, Some(1));
}

fn never_two_matches<Token: Copy>(dfa: &DFSA<Token>, input: &str) {
    for state in &dfa.states {
        for c in input.chars() {
            let matching = state
                .transitions
                .iter()
                .filter(|(m, _)| m.is_matching(c))
                .count();
            assert!(matching <= 1, "two transitions match {:?}", c);
        }
    }
}

/// A construction and determinism scenario: a literal rule beside a skip
/// pattern scans its own text back out, one token per word.
#[test]
fn scan_literal_with_skip() {
    let one = NEFSA::from_token(0usize, "one").unwrap();
    let token_dfa = DFSA::determinize(&NEFSA::union(vec![one])).unwrap();
    let skip_nfa: NEFSA<()> = NEFSA::from_regex((), "<whitespace>*").unwrap();
    let skip_dfa = DFSA::determinize(&skip_nfa).unwrap();

    let input: Vec<char> = "one one".chars().collect();
    never_two_matches(&token_dfa, "one one");
    never_two_matches(&skip_dfa, "one one");

    let mut tokens: Vec<(usize, usize, usize)> = Vec::new();
    let mut skips = 0;
    let mut pos = 0;
    while pos < input.len() {
        if let Some((tok, end)) = scan_next(&token_dfa, &input, pos) {
            tokens.push((tok, pos, end));
            pos = end;
        } else if let Some((_, end)) = scan_next(&skip_dfa, &input, pos) {
            skips += 1;
            pos = end;
        } else {
            panic!("no rule matched at {}", pos);
        }
    }
    assert_eq!(tokens, vec![(0, 0, 3), (0, 4, 7)]);
    assert_eq!(skips, 1);
}

/// The end-to-end scenario: a regex rule and a literal rule side by side.
/// The longest match wins, and an unmatched remainder is reported as such.
#[test]
fn scan_maximal_munch() {
    let one: NEFSA<usize> = NEFSA::from_regex(0, "a+").unwrap();
    let two = NEFSA::from_token(1usize, "ab").unwrap();
    let dfa = DFSA::determinize(&NEFSA::union(vec![one, two])).unwrap();
    never_two_matches(&dfa, "aab");

    let input: Vec<char> = "aab".chars().collect();
    // maximal munch prefers the longest match: "aa" as the regex rule
    assert_eq!(scan_next(&dfa, &input, 0), Some((0, 2)));
    // the leftover "b" matches no rule
    assert_eq!(scan_next(&dfa, &input, 2), None);

    // when the literal rule matches longer, it wins
    let input: Vec<char> = "ab".chars().collect();
    assert_eq!(scan_next(&dfa, &input, 0), Some((1, 2)));
}

/// At equal match length, the earliest-declared rule wins the tie.
#[test]
fn scan_tie_break() {
    let first = NEFSA::from_token(0usize, "x").unwrap();
    let second = NEFSA::from_token(1usize, "x").unwrap();
    let dfa = DFSA::determinize(&NEFSA::union(vec![first, second])).unwrap();
    let input: Vec<char> = "x".chars().collect();
    assert_eq!(scan_next(&dfa, &input, 0), Some((0, 1)));

    let first = NEFSA::from_token(0usize, "x").unwrap();
    let second = NEFSA::from_token(1usize, "x").unwrap();
    let dfa = DFSA::determinize(&NEFSA::union(vec![second, first])).unwrap();
    assert_eq!(scan_next(&dfa, &input, 0), Some((1, 1)));
}

#[test]
fn scan_repetition_range() {
    let rule: NEFSA<usize> = NEFSA::from_regex(0, "a{2-3}").unwrap();
    let dfa = DFSA::determinize(&rule).unwrap();
    assert_eq!(scan_next(&dfa, &"a".chars().collect::<Vec<char>>(), 0), None);
    assert_eq!(scan_next(&dfa, &"aa".chars().collect::<Vec<char>>(), 0), Some((0, 2)));
    assert_eq!(scan_next(&dfa, &"aaa".chars().collect::<Vec<char>>(), 0), Some((0, 3)));
    assert_eq!(scan_next(&dfa, &"aaaa".chars().collect::<Vec<char>>(), 0), Some((0, 3)));
}

#[test]
fn scan_alternation_and_groups() {
    let rule: NEFSA<usize> = NEFSA::from_regex(0, "(ab)|(cd)e?").unwrap();
    let dfa = DFSA::determinize(&rule).unwrap();
    assert_eq!(scan_next(&dfa, &"ab".chars().collect::<Vec<char>>(), 0), Some((0, 2)));
    assert_eq!(scan_next(&dfa, &"cd".chars().collect::<Vec<char>>(), 0), Some((0, 2)));
    assert_eq!(scan_next(&dfa, &"cde".chars().collect::<Vec<char>>(), 0), Some((0, 3)));
    assert_eq!(scan_next(&dfa, &"ce".chars().collect::<Vec<char>>(), 0), None);
}

#[test]
fn scan_negated_set() {
    let rule: NEFSA<usize> = NEFSA::from_regex(0, "[!x]+").unwrap();
    let dfa = DFSA::determinize(&rule).unwrap();
    assert_eq!(scan_next(&dfa, &"abx".chars().collect::<Vec<char>>(), 0), Some((0, 2)));
    assert_eq!(scan_next(&dfa, &"x".chars().collect::<Vec<char>>(), 0), None);
}

#[test]
fn prune_unreachable() {
    let rule: NEFSA<usize> = NEFSA::from_regex(0, "ab").unwrap();
    let mut dfa = DFSA::determinize(&rule).unwrap();
    let before = dfa.states.len();
    dfa.remove_unreachable_states();
    assert!(dfa.states.len() <= before);
    // the automaton still recognizes the same strings
    assert_eq!(scan_next(&dfa, &"ab".chars().collect::<Vec<char>>(), 0), Some((0, 2)));
    assert_eq!(scan_next(&dfa, &"a".chars().collect::<Vec<char>>(), 0), None);
}

#[test]
fn prune_drops_disconnected_state() {
    // state 2 is unreachable from the start state
    let mut dfa: DFSA<usize> = DFSA {
        states: vec![
            turn::dfsa::DFSAState {
                transitions: vec![(
                    Matcher::SingleMatcher(SingleMatcher::Character('a')),
                    1,
                )],
                token: None,
            },
            turn::dfsa::DFSAState {
                transitions: vec![],
                token: Some(5),
            },
            turn::dfsa::DFSAState {
                transitions: vec![(
                    Matcher::SingleMatcher(SingleMatcher::Character('z')),
                    0,
                )],
                token: Some(9),
            },
        ],
    };
    dfa.remove_unreachable_states();
    assert_eq!(dfa.states.len(), 2);
    assert_eq!(scan_next(&dfa, &"a".chars().collect::<Vec<char>>(), 0), Some((5, 1)));
}

#[test]
fn nfsa_first_match() {
    let t0 = turn::nfsa::Transitions::new(vec![
        (
            Matcher::SingleMatcher(SingleMatcher::Character('a')),
            vec![1, 2],
        ),
        (
            Matcher::SingleMatcher(SingleMatcher::Category(CharacterCategory::Any)),
            vec![2],
        ),
    ]);
    let t1 = turn::nfsa::Transitions::new(vec![]);
    let t2 = turn::nfsa::Transitions::new(vec![]);
    let nfsa = turn::nfsa::NFSA::new(vec![(t0, None), (t1, Some(1u32)), (t2, Some(2u32))]);
    assert_eq!(nfsa.transitions(0, 'a'), Some(&vec![1, 2]));
    assert_eq!(nfsa.transitions(0, 'z'), Some(&vec![2]));
    assert_eq!(nfsa.transitions(1, 'a'), None);
}
