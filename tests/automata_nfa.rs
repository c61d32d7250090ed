use automata_regex::nfa::NFA;
use automata_regex::state::EPSILON;

fn assert_concatenation(nfa: &NFA, state: usize, symbol: char) -> usize {
    let transitions = &nfa.states[state].transitions;
    assert_eq!(transitions.len(), 1);
    let frag = transitions.iter().find(|(c, _)| *c == symbol);
    assert_eq!(frag.is_some(), true);
    let states = &frag.unwrap().1;
    assert_eq!(states.len(), 1);
    states[0]
}

fn assert_union(nfa: &NFA, state: usize, char1: char, char2: char) -> (usize, usize) {
    let transitions = &nfa.states[state].transitions;
    assert_eq!(transitions.len(), 1);
    let frag = transitions.iter().find(|(c, _)| *c == EPSILON);
    assert_eq!(frag.is_some(), true);
    let states = &frag.unwrap().1;
    assert_eq!(states.len(), 2);
    let state1 = assert_concatenation(nfa, states[0], char1);
    let state2 = assert_concatenation(nfa, states[1], char2);
    (state1, state2)
}

#[test]
fn concat_pair() {
    //  <start> -> a -> ε -> b -> <end>
    let re = NFA::concat_pair(NFA::char('a'), NFA::char('b'));
    let state = assert_concatenation(&re, re.in_state, 'a');
    let state = assert_concatenation(&re, state, 'ε');
    let state = assert_concatenation(&re, state, 'b');
    assert_eq!(re.states[state].transitions.len(), 0);
}

#[test]
fn concat() {
    //  <start> -> a -> ε -> b -> ε -> c -> <end>
    let re = NFA::concat(vec![NFA::char('a'), NFA::char('b'), NFA::char('c')]);
    let state = assert_concatenation(&re, re.in_state, 'a');
    let state = assert_concatenation(&re, state, 'ε');
    let state = assert_concatenation(&re, state, 'b');
    let state = assert_concatenation(&re, state, 'ε');
    let state = assert_concatenation(&re, state, 'c');
    assert_eq!(re.states[state].transitions.len(), 0);
}

#[test]
fn or_pair() {
    let re = NFA::or_pair(NFA::char('a'), NFA::char('b'));
    let (state1, state2) = assert_union(&re, re.in_state, 'a', 'b');
    let state1 = assert_concatenation(&re, state1, 'ε');
    let state2 = assert_concatenation(&re, state2, 'ε');
    // Both branches merge into the same end state.
    assert_eq!(state1, state2);
    assert_eq!(re.states[state1].transitions.len(), 0);
}

#[test]
fn or() {
    let re = NFA::or(vec![NFA::char('a'), NFA::char('b'), NFA::char('c')]);
    println!("test concat_pair re {:#?}", re);
}
