use automata_regex::nfa::NFA;
use automata_regex::state::EPSILON;

/// The single target of the single transition of `state`, which must be
/// labelled `symbol`.
fn assert_concatenation(nfa: &NFA, state: usize, symbol: char) -> usize {
    let transitions = &nfa.states[state].transitions;
    assert_eq!(transitions.len(), 1);
    let frag = transitions.iter().find(|(c, _)| *c == symbol);
    assert_eq!(frag.is_some(), true);
    let states = &frag.unwrap().1;
    assert_eq!(states.len(), 1);
    states[0]
}

fn assert_union(nfa: &NFA, state: usize, char1: char, char2: char) -> (usize, usize) {
    let transitions = &nfa.states[state].transitions;
    assert_eq!(transitions.len(), 1);
    let frag = transitions.iter().find(|(c, _)| *c == EPSILON);
    assert_eq!(frag.is_some(), true);
    let states = &frag.unwrap().1;
    assert_eq!(states.len(), 2);
    let state1 = assert_concatenation(nfa, states[0], char1);
    let state2 = assert_concatenation(nfa, states[1], char2);
    (state1, state2)
}

#[test]
fn nfa_concat_pair() {
    //  <start> -> a -> ε -> b -> <end>
    let re = NFA::concat_pair(NFA::char('a'), NFA::char('b'));
    let state = assert_concatenation(&re, re.in_state, 'a');
    let state = assert_concatenation(&re, state, 'ε');
    let state = assert_concatenation(&re, state, 'b');
    assert_eq!(re.states[state].transitions.len(), 0);
}

#[test]
fn nfa_concat() {
    //  <start> -> a -> ε -> b -> ε -> c -> <end>
    let re = NFA::concat(vec![NFA::char('a'), NFA::char('b'), NFA::char('c')]);
    let state = assert_concatenation(&re, re.in_state, 'a');
    let state = assert_concatenation(&re, state, 'ε');
    let state = assert_concatenation(&re, state, 'b');
    let state = assert_concatenation(&re, state, 'ε');
    let state = assert_concatenation(&re, state, 'c');
    assert_eq!(re.states[state].transitions.len(), 0);
}

#[test]
fn nfa_or_pair() {
    let re = NFA::or_pair(NFA::char('a'), NFA::char('b'));
    let (state1, state2) = assert_union(&re, re.in_state, 'a', 'b');
    let state1 = assert_concatenation(&re, state1, 'ε');
    let state2 = assert_concatenation(&re, state2, 'ε');
    // Both branches merge into the same end state.
    assert_eq!(state1, state2);
    assert_eq!(re.states[state1].transitions.len(), 0);
}

#[test]
fn nfa_or() {
    let re = NFA::or(vec![NFA::char('a'), NFA::char('b'), NFA::char('c')]);
    println!("test concat_pair re {:#?}", re);
}

#[test]
fn char_fragments_differ() {
    assert_ne!(NFA::char('a'), NFA::char('b'));
    assert_eq!(NFA::char('a'), NFA::char('a'));
}

#[test]
fn rep_adds_skip_and_loop() {
    let re = NFA::rep(NFA::char('a'));
    assert_eq!(re.states.len(), 2);
    let entry = &re.states[re.in_state].transitions;
    assert_eq!(entry.len(), 2);
    assert_eq!(entry[1], (EPSILON, vec![re.out_state]));
    let exit = &re.states[re.out_state].transitions;
    assert_eq!(exit, &vec![(EPSILON, vec![re.in_state])]);
}

#[test]
fn empty_fragment_has_no_edges() {
    let re = NFA::empty();
    assert_eq!(re.states.len(), 2);
    assert_eq!(re.states[re.in_state].accepting, false);
    assert_eq!(re.states[re.out_state].accepting, true);
    assert!(re.states.iter().all(|s| s.transitions.is_empty()));
}

#[test]
fn nfa_test_follows_runs() {
    let ab = NFA::concat(vec![NFA::char('a'), NFA::char('b')]);
    assert!(ab.test("ab"));
    assert!(!ab.test("a"));
    assert!(!ab.test("abb"));
    assert!(!ab.test(""));

    let a_or_bc = NFA::or(vec![NFA::char('a'), NFA::concat(vec![NFA::char('b'), NFA::char('c')])]);
    assert!(a_or_bc.test("a"));
    assert!(a_or_bc.test("bc"));
    assert!(!a_or_bc.test("b"));
    assert!(!a_or_bc.test("abc"));
}

#[test]
fn nfa_test_repetition() {
    let star = NFA::rep(NFA::char('a'));
    assert!(star.test(""));
    assert!(star.test("a"));
    assert!(star.test("aaaa"));
    assert!(!star.test("ab"));
    assert!(!NFA::empty().test("a"));
}
