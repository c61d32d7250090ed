use std::collections::{BTreeMap, HashSet};

use automata_regex::dfa::DFA;
use automata_regex::dfa_table::{DFARow, DFATable};
use automata_regex::nfa::NFA;

fn rows_map(t: &DFATable) -> BTreeMap<String, BTreeMap<String, String>> {
    t.table
        .iter()
        .map(|r| {
            (
                r.label.clone(),
                r.transitions.iter().map(|(c, l)| (c.to_string(), l.clone())).collect(),
            )
        })
        .collect()
}

fn accepting(t: &DFATable) -> HashSet<String> {
    t.table.iter().filter(|r| r.accepting).map(|r| r.label.clone()).collect()
}

/// A table from its start, accepting labels and rows.
fn table_of(
    start: &str,
    accepting_states: HashSet<String>,
    table: BTreeMap<String, BTreeMap<String, String>>,
) -> DFATable {
    let mut t = DFATable::new();
    t.starting_state = start.to_string();
    for (label, transitions) in table {
        t.table.push(DFARow {
            accepting: accepting_states.contains(&label),
            label,
            transitions: transitions
                .into_iter()
                .map(|(c, l)| (c.chars().next().unwrap(), l))
                .collect(),
        });
    }
    t
}

fn fixture() -> DFATable {
    table_of(
        "1",
        HashSet::from([("5".to_string())]),
        BTreeMap::from([
            (
                "1".to_string(),
                BTreeMap::from([
                    ("a".to_string(), "2".to_string()),
                    ("b".to_string(), "3".to_string()),
                ]),
            ),
            (
                "2".to_string(),
                BTreeMap::from([
                    ("a".to_string(), "2".to_string()),
                    ("b".to_string(), "4".to_string()),
                ]),
            ),
            (
                "3".to_string(),
                BTreeMap::from([
                    ("a".to_string(), "2".to_string()),
                    ("b".to_string(), "3".to_string()),
                ]),
            ),
            (
                "4".to_string(),
                BTreeMap::from([
                    ("a".to_string(), "2".to_string()),
                    ("b".to_string(), "5".to_string()),
                ]),
            ),
            (
                "5".to_string(),
                BTreeMap::from([
                    ("a".to_string(), "2".to_string()),
                    ("b".to_string(), "3".to_string()),
                ]),
            ),
        ]),
    )
}

#[test]
fn get_transition_table_single_nfa() {
    let nfa = NFA::char('a');
    let dfa_table = DFATable::from(&nfa);

    assert_eq!(dfa_table.starting_state, "1".to_string());
    assert_eq!(accepting(&dfa_table), HashSet::from(["2".to_string()]));
    assert_eq!(dfa_table.table.len(), 2);

    let table = rows_map(&dfa_table);
    assert_eq!(
        table.get(&"1".to_string()),
        Some(&BTreeMap::from([("a".to_string(), "2".to_string()),]))
    );
    assert_eq!(table.get(&"2".to_string()), Some(&BTreeMap::new()));
}

// Composite labels list their ids in increasing order: the set {6, 4} is
// "4,6".
#[test]
fn get_transition_table_single_or() {
    let nfa = NFA::or(vec![NFA::char('a'), NFA::char('b')]);
    let mut dfa_table = DFATable::from(&nfa);

    assert_eq!(dfa_table.starting_state, "1,2,5".to_string());

    assert_eq!(accepting(&dfa_table).len(), 2);
    assert_eq!(accepting(&dfa_table), HashSet::from(["3,4".to_string(), "4,6".to_string()]));

    assert_eq!(dfa_table.table.len(), 3);

    let table = rows_map(&dfa_table);
    assert_eq!(
        table.get(&"1,2,5".to_string()),
        Some(&BTreeMap::from([
            ("b".to_string(), "4,6".to_string()),
            ("a".to_string(), "3,4".to_string()),
        ]))
    );
    assert_eq!(table.get(&"3,4".to_string()), Some(&BTreeMap::new()));
    assert_eq!(table.get(&"4,6".to_string()), Some(&BTreeMap::new()));

    dfa_table.simplify_notations();

    assert_eq!(dfa_table.starting_state, "1".to_string());

    assert_eq!(accepting(&dfa_table).len(), 2);
    assert_eq!(accepting(&dfa_table), HashSet::from(["2".to_string(), "3".to_string()]));

    assert_eq!(dfa_table.table.len(), 3);

    let table = rows_map(&dfa_table);
    assert_eq!(
        table.get(&"1".to_string()),
        Some(&BTreeMap::from([
            ("b".to_string(), "3".to_string()),
            ("a".to_string(), "2".to_string()),
        ]))
    );
    assert_eq!(table.get(&"2".to_string()), Some(&BTreeMap::new()));
    assert_eq!(table.get(&"3".to_string()), Some(&BTreeMap::new()));
}

#[test]
fn dfa_table_get_transition_table_or() {
    let nfa = NFA::or(vec![NFA::char('a'), NFA::char('b')]);
    let mut dfa_table = DFATable::from(&nfa);
    println!("test get_transition_table table {:#?}", dfa_table);

    assert_eq!(dfa_table.starting_state, "1,2,5".to_string());
    assert_eq!(accepting(&dfa_table).len(), 2);
    assert_eq!(accepting(&dfa_table), HashSet::from(["3,4".to_string(), "4,6".to_string()]));
    assert_eq!(dfa_table.table.len(), 3);

    let table = rows_map(&dfa_table);
    assert_eq!(
        table.get(&"1,2,5".to_string()),
        Some(&BTreeMap::from([
            ("b".to_string(), "4,6".to_string()),
            ("a".to_string(), "3,4".to_string()),
        ]))
    );
    assert_eq!(table.get(&"3,4".to_string()), Some(&BTreeMap::new()));
    assert_eq!(table.get(&"4,6".to_string()), Some(&BTreeMap::new()));

    dfa_table.simplify_notations();
    println!("test get_transition_table remapped table {:#?}", dfa_table);

    assert_eq!(dfa_table.starting_state, "1".to_string());
    assert_eq!(accepting(&dfa_table).len(), 2);
    assert_eq!(accepting(&dfa_table), HashSet::from(["2".to_string(), "3".to_string()]));
    assert_eq!(dfa_table.table.len(), 3);

    let table = rows_map(&dfa_table);
    assert_eq!(
        table.get(&"1".to_string()),
        Some(&BTreeMap::from([
            ("b".to_string(), "3".to_string()),
            ("a".to_string(), "2".to_string()),
        ]))
    );
    assert_eq!(table.get(&"2".to_string()), Some(&BTreeMap::new()));
    assert_eq!(table.get(&"3".to_string()), Some(&BTreeMap::new()));
}

#[test]
fn get_transition_table_or_and_concat() {
    let nfa = NFA::or(vec![NFA::char('a'), NFA::concat(vec![NFA::char('b'), NFA::char('c')])]);
    let mut dfa_table = DFATable::from(&nfa);

    assert_eq!(dfa_table.starting_state, "1,2,5".to_string());

    assert_eq!(accepting(&dfa_table).len(), 2);
    assert_eq!(accepting(&dfa_table), HashSet::from(["3,4".to_string(), "4,8".to_string()]));

    assert_eq!(dfa_table.table.len(), 4);

    let table = rows_map(&dfa_table);
    assert_eq!(
        table.get(&"1,2,5".to_string()),
        Some(&BTreeMap::from([
            ("b".to_string(), "6,7".to_string()),
            ("a".to_string(), "3,4".to_string()),
        ]))
    );
    assert_eq!(table.get(&"3,4".to_string()), Some(&BTreeMap::new()));
    assert_eq!(
        table.get(&"6,7".to_string()),
        Some(&BTreeMap::from([("c".to_string(), "4,8".to_string())]))
    );
    assert_eq!(table.get(&"4,8".to_string()), Some(&BTreeMap::new()));

    dfa_table.simplify_notations();
    println!("test get_transition_table remapped table {:#?}", dfa_table);

    assert_eq!(dfa_table.starting_state, "1".to_string());

    assert_eq!(accepting(&dfa_table).len(), 2);
    assert_eq!(accepting(&dfa_table), HashSet::from(["2".to_string(), "4".to_string()]));

    assert_eq!(dfa_table.table.len(), 4);

    let table = rows_map(&dfa_table);
    assert_eq!(
        table.get(&"1".to_string()),
        Some(&BTreeMap::from([
            ("b".to_string(), "3".to_string()),
            ("a".to_string(), "2".to_string()),
        ]))
    );
    assert_eq!(table.get(&"2".to_string()), Some(&BTreeMap::new()));
    assert_eq!(
        table.get(&"3".to_string()),
        Some(&BTreeMap::from([("c".to_string(), "4".to_string()),]))
    );
    assert_eq!(table.get(&"4".to_string()), Some(&BTreeMap::new()));
}

#[test]
fn test_or() {
    let nfa = NFA::or(vec![NFA::char('a'), NFA::char('b')]);
    let re = DFA::from(&nfa);

    assert_eq!(re.test(&"a".to_string()), true);
}

#[test]
fn minimize_once_table() {
    let dfa_table = fixture();
    println!("test minimize_table table {:#?}", dfa_table);

    let dfa = DFA { table: dfa_table.clone() };

    let mut groups = vec![];

    println!("------ First step");
    let minimized = dfa.minimize_once(&mut groups);
    assert_eq!(minimized, true);
    assert_eq!(groups.len(), 2);
    assert_eq!(groups[0], ["1".to_string(), "2".to_string(), "3".to_string(), "4".to_string()]);
    assert_eq!(groups[1], ["5".to_string()]);

    println!("------ Second step");
    let minimized = dfa.minimize_once(&mut groups);
    assert_eq!(minimized, true);
    assert_eq!(groups.len(), 3);
    assert_eq!(groups[0], ["1".to_string(), "2".to_string(), "3".to_string()]);
    assert_eq!(groups[1], ["5".to_string()]);
    assert_eq!(groups[2], ["4".to_string()]);

    println!("------ Third step");
    let minimized = dfa.minimize_once(&mut groups);
    assert_eq!(minimized, true);
    assert_eq!(groups.len(), 4);
    assert_eq!(groups[0], ["1".to_string(), "3".to_string()]);
    assert_eq!(groups[1], ["5".to_string()]);
    assert_eq!(groups[2], ["4".to_string()]);
    assert_eq!(groups[3], ["2".to_string()]);

    println!("------ Forth step");
    let minimized = dfa.minimize_once(&mut groups);
    assert_eq!(minimized, false);
    assert_eq!(groups.len(), 4);
    assert_eq!(groups[0], ["1".to_string(), "3".to_string()]);
    assert_eq!(groups[1], ["5".to_string()]);
    assert_eq!(groups[2], ["4".to_string()]);
    assert_eq!(groups[3], ["2".to_string()]);
}

#[test]
fn minimize_table() {
    let dfa_table = fixture();
    println!("test minimize_table table {:#?}", dfa_table);

    let mut dfa = DFA { table: dfa_table.clone() };

    let minimized = dfa.minimize();
    assert_eq!(minimized, true);
    assert_eq!(
        rows_map(&dfa.table),
        BTreeMap::from([
            (
                "1,3".to_string(),
                BTreeMap::from([
                    ("a".to_string(), "2".to_string()),
                    ("b".to_string(), "1,3".to_string()),
                ]),
            ),
            (
                "2".to_string(),
                BTreeMap::from([
                    ("a".to_string(), "2".to_string()),
                    ("b".to_string(), "4".to_string()),
                ]),
            ),
            (
                "4".to_string(),
                BTreeMap::from([
                    ("a".to_string(), "2".to_string()),
                    ("b".to_string(), "5".to_string()),
                ]),
            ),
            (
                "5".to_string(),
                BTreeMap::from([
                    ("a".to_string(), "2".to_string()),
                    ("b".to_string(), "1,3".to_string()),
                ]),
            ),
        ])
    );

    dfa.simplify_notations();
    assert_eq!(
        rows_map(&dfa.table),
        BTreeMap::from([
            (
                "1".to_string(),
                BTreeMap::from([
                    ("a".to_string(), "2".to_string()),
                    ("b".to_string(), "1".to_string()),
                ]),
            ),
            (
                "2".to_string(),
                BTreeMap::from([
                    ("a".to_string(), "2".to_string()),
                    ("b".to_string(), "3".to_string()),
                ]),
            ),
            (
                "3".to_string(),
                BTreeMap::from([
                    ("a".to_string(), "2".to_string()),
                    ("b".to_string(), "4".to_string()),
                ]),
            ),
            (
                "4".to_string(),
                BTreeMap::from([
                    ("a".to_string(), "2".to_string()),
                    ("b".to_string(), "1".to_string()),
                ]),
            ),
        ])
    );
    assert_eq!(accepting(&dfa.table), HashSet::from(["4".to_string()]));
}

#[test]
fn minimize_twice_reports_no_change() {
    let mut dfa = DFA { table: fixture() };
    assert_eq!(dfa.minimize(), true);
    let before = rows_map(&dfa.table);
    assert_eq!(dfa.minimize(), false);
    assert_eq!(rows_map(&dfa.table), before);
}

#[test]
fn minimize_keeps_language_of_fixture() {
    let original = DFA { table: fixture() };
    let mut minimized = DFA { table: fixture() };
    minimized.minimize();
    assert!(minimized.table.table.len() <= original.table.table.len());
    for w in ["", "a", "b", "ab", "abb", "aabb", "babb", "abab", "bbbb", "aabba"] {
        assert_eq!(minimized.test(w), original.test(w), "{}", w);
    }
}

#[test]
fn simplify_twice_keeps_language() {
    let nfa = NFA::or(vec![NFA::char('a'), NFA::concat(vec![NFA::char('b'), NFA::char('c')])]);
    let original = DFA::from(&nfa);
    let mut once = DFA::from(&nfa);
    once.simplify_notations();
    let mut twice = DFA::from(&nfa);
    twice.simplify_notations();
    twice.simplify_notations();
    assert_eq!(once.table.table.len(), original.table.table.len());
    for w in ["", "a", "b", "bc", "c", "ab", "bcc"] {
        assert_eq!(once.test(w), original.test(w));
        assert_eq!(twice.test(w), original.test(w));
    }
    assert_eq!(rows_map(&once.table), rows_map(&twice.table));
}

#[test]
fn concat_accepts_exactly_ab() {
    let dfa = DFA::from(&NFA::concat(vec![NFA::char('a'), NFA::char('b')]));
    assert!(dfa.test("ab"));
    for w in ["", "a", "b", "ba", "abb", "aab", "abc"] {
        assert!(!dfa.test(w), "{}", w);
    }
}

#[test]
fn or_accepts_exactly_a_and_b() {
    let dfa = DFA::from(&NFA::or(vec![NFA::char('a'), NFA::char('b')]));
    assert!(dfa.test("a"));
    assert!(dfa.test("b"));
    for w in ["", "ab", "ba", "aa", "c"] {
        assert!(!dfa.test(w), "{}", w);
    }
}

#[test]
fn or_of_char_and_concat_accepts_exactly_a_and_bc() {
    let dfa = DFA::from(&NFA::or(vec![
        NFA::char('a'),
        NFA::concat(vec![NFA::char('b'), NFA::char('c')]),
    ]));
    assert!(dfa.test("a"));
    assert!(dfa.test("bc"));
    for w in ["", "b", "c", "ab", "abc", "bca", "cb"] {
        assert!(!dfa.test(w), "{}", w);
    }
}

#[test]
fn char_accepts_only_itself() {
    let dfa = DFA::from(&NFA::char('x'));
    assert!(dfa.test("x"));
    for w in ["", "y", "xx", "xy"] {
        assert!(!dfa.test(w), "{}", w);
    }
}

#[test]
fn getters_report_the_table() {
    let dfa = DFA::from(&NFA::or(vec![NFA::char('a'), NFA::char('b')]));
    assert_eq!(dfa.get_starting_state(), "1,2,5".to_string());
    assert_eq!(dfa.get_accepting_states(), vec!["3,4".to_string(), "4,6".to_string()]);
    assert_eq!(dfa.get_alphabet(), vec!['a', 'b']);
    assert_eq!(dfa.get_transition_table().len(), 3);
}

#[test]
fn apply_minimization_merges_groups() {
    let mut t = fixture();
    t.apply_minimization(&vec![
        vec!["1".to_string(), "3".to_string()],
        vec!["5".to_string()],
        vec!["4".to_string()],
        vec!["2".to_string()],
    ]);
    assert_eq!(t.starting_state, "1,3".to_string());
    assert_eq!(t.table.len(), 4);
    assert_eq!(accepting(&t), HashSet::from(["5".to_string()]));
}

#[test]
fn apply_minimization_sorts_group_members() {
    let mut t = fixture();
    t.apply_minimization(&vec![
        vec!["3".to_string(), "1".to_string()],
        vec!["5".to_string()],
        vec!["4".to_string()],
        vec!["2".to_string()],
    ]);
    assert_eq!(t.starting_state, "1,3".to_string());
    assert!(t.table.iter().any(|r| r.label == "1,3"));
    assert!(!t.table.iter().any(|r| r.label == "3,1"));
    assert_eq!(t.table.len(), 4);
}
