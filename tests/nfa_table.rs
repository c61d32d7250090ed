use std::collections::{HashMap, HashSet};

use automata_regex::nfa::NFA;
use automata_regex::nfa_table::NFATable;

/// The table as a map from id to columns, the epsilon column under "ε*".
fn table_map(t: &NFATable) -> HashMap<usize, HashMap<String, Vec<usize>>> {
    let mut m = HashMap::new();
    for (k, row) in t.table.iter().enumerate() {
        let mut cols = HashMap::new();
        cols.insert("ε*".to_string(), row.epsilon.clone());
        for (c, ids) in &row.symbols {
            cols.insert(c.to_string(), ids.clone());
        }
        m.insert(k + 1, cols);
    }
    m
}

fn accepting(t: &NFATable) -> HashSet<usize> {
    t.table.iter().enumerate().filter(|(_, r)| r.accepting).map(|(k, _)| k + 1).collect()
}

#[test]
fn nfa_table_get_transition_table_concat() {
    let re = NFA::concat(vec![NFA::char('a'), NFA::char('b')]);
    println!("test get_transition_table re {:#?}", re);

    let nfa_table = re.get_transition_table();
    println!("test get_transition_table table {:#?}", nfa_table);
    assert_eq!(nfa_table.starting_state, 1);

    assert_eq!(accepting(&nfa_table).len(), 1);
    assert_eq!(accepting(&nfa_table), HashSet::from([4]));

    let table = table_map(&nfa_table);
    assert_eq!(table.len(), 4);
    assert_eq!(
        table.get(&1),
        Some(&HashMap::from([("ε*".to_string(), vec![1]), ("a".to_string(), vec![2]),]))
    );
    assert_eq!(table.get(&2), Some(&HashMap::from([("ε*".to_string(), vec![2, 3])])));
    assert_eq!(
        table.get(&3),
        Some(&HashMap::from([("ε*".to_string(), vec![3]), ("b".to_string(), vec![4]),]))
    );
    assert_eq!(table.get(&4), Some(&HashMap::from([("ε*".to_string(), vec![4])])));
}

#[test]
fn nfa_table_get_transition_table_or() {
    let re = NFA::or(vec![NFA::char('a'), NFA::char('b')]);
    println!("test get_transition_table re {:#?}", re);

    let nfa_table = re.get_transition_table();
    println!("test get_transition_table table {:#?}", nfa_table);
    assert_eq!(nfa_table.starting_state, 1);

    assert_eq!(accepting(&nfa_table).len(), 1);
    assert_eq!(accepting(&nfa_table), HashSet::from([4]));

    let table = table_map(&nfa_table);
    assert_eq!(table.len(), 6);
    assert_eq!(table.get(&1), Some(&HashMap::from([("ε*".to_string(), vec![1, 2, 5]),])));
    assert_eq!(
        table.get(&2),
        Some(&HashMap::from([("a".to_string(), vec![3]), ("ε*".to_string(), vec![2])]))
    );
    assert_eq!(table.get(&3), Some(&HashMap::from([("ε*".to_string(), vec![3, 4]),])));
    assert_eq!(table.get(&4), Some(&HashMap::from([("ε*".to_string(), vec![4])])));
    assert_eq!(
        table.get(&5),
        Some(&HashMap::from([("b".to_string(), vec![6]), ("ε*".to_string(), vec![5])]))
    );
    assert_eq!(table.get(&6), Some(&HashMap::from([("ε*".to_string(), vec![6, 4])])));
}

#[test]
fn get_transition_table_rep() {
    let re = NFA::rep(NFA::char('a'));

    let nfa_table = re.get_transition_table();
    println!("test get_transition_table table {:#?}", nfa_table);
    assert_eq!(nfa_table.starting_state, 1);

    assert_eq!(accepting(&nfa_table).len(), 1);
    assert_eq!(accepting(&nfa_table), HashSet::from([2]));

    let table = table_map(&nfa_table);
    assert_eq!(table.len(), 2);
    assert_eq!(
        table.get(&1),
        Some(&HashMap::from([("a".to_string(), vec![2]), ("ε*".to_string(), vec![1, 2])]))
    );
    assert_eq!(table.get(&2), Some(&HashMap::from([("ε*".to_string(), vec![2, 1]),])));
}

#[test]
fn nfa_get_transition_table_concat() {
    let re = NFA::concat(vec![NFA::char('a'), NFA::char('b')]);
    println!("test get_transition_table re {:#?}", re);

    let nfa_table = re.get_transition_table();
    println!("test get_transition_table table {:#?}", nfa_table);
    let table = table_map(&nfa_table);
    assert_eq!(table.len(), 4);
    assert_eq!(
        table.get(&1),
        Some(&HashMap::from([("ε*".to_string(), vec![1]), ("a".to_string(), vec![2]),]))
    );
    assert_eq!(table.get(&2), Some(&HashMap::from([("ε*".to_string(), vec![2, 3])])));
    assert_eq!(
        table.get(&3),
        Some(&HashMap::from([("ε*".to_string(), vec![3]), ("b".to_string(), vec![4]),]))
    );
    assert_eq!(table.get(&4), Some(&HashMap::from([("ε*".to_string(), vec![4])])));
}

#[test]
fn nfa_get_transition_table_or() {
    let re = NFA::or(vec![NFA::char('a'), NFA::char('b')]);
    println!("test get_transition_table re {:#?}", re);

    let nfa_table = re.get_transition_table();
    println!("test get_transition_table table {:#?}", nfa_table);
    let table = table_map(&nfa_table);
    assert_eq!(table.len(), 6);
    assert_eq!(table.get(&1), Some(&HashMap::from([("ε*".to_string(), vec![1, 2, 5]),])));
    // Row 2 is the entry of the `a` branch: its own id, then its `a` edge.
    assert_eq!(
        table.get(&2),
        Some(&HashMap::from([("ε*".to_string(), vec![2]), ("a".to_string(), vec![3])]))
    );
}

#[test]
fn concat_table_has_four_states() {
    let t = NFA::concat(vec![NFA::char('a'), NFA::char('b')]).get_transition_table();
    assert_eq!(t.table.len(), 4);
    assert_eq!(t.table[0].epsilon, vec![1]);
    assert_eq!(t.table[0].symbols, vec![('a', vec![2])]);
    assert_eq!(t.visit_order[0], 0);
}
