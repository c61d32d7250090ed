use vstd::prelude::*;

use crate::dfa::DFA;
use crate::dfa_table::{
    canonical, dfa_row_of, has_label, is_alphabet, label_index, lemma_canonical, row_transitions,
    search, set_accepting, set_of, sorted_ids, step, subset_table, successor, transition_of,
    DfaRowModel,
};
use crate::label::{decimal, join_ids};
use crate::nfa::char_model;
use crate::nfa_table::{
    column, epsilon_column, map_ids, numbering, row_of, rows_model, symbol_columns, NFARowModel,
    NFATable,
};
use crate::state::{has_symbol, targets, EPSILON};

verus! {

/// Fragments of different symbols differ.
pub proof fn lemma_char_fragments_differ(c1: char, c2: char)
    requires
        c1 != c2,
    ensures
        char_model(c1) != char_model(c2),
{
    assert(char_model(c1).states[0].edges[0].0 == c1);
    assert(char_model(c2).states[0].edges[0].0 == c2);
}

/// The rows of the table of the fragment of `c`.
proof fn lemma_char_table(c: char, t: NFATable)
    requires
        c != EPSILON,
        t.extracted_from(char_model(c)),
    ensures
        rows_model(t.table@) == seq![
            crate::nfa_table::NFARowModel {
                accepting: false,
                epsilon: seq![1usize],
                symbols: seq![(c, seq![2usize])],
            },
            crate::nfa_table::NFARowModel {
                accepting: true,
                epsilon: seq![2usize],
                symbols: Seq::empty(),
            },
        ],
{
    let m = char_model(c);
    let order = t.visit_order@;
    let ids = t.state_ids@;
    assert(m.states[0].edges[0].1[0] == 1);
    assert(crate::nfa_table::expanded(m, ids, order[0] as int));
    assert(ids[1] != 0);
    assert(order[ids[1] - 1] == 1);
    assert(ids[0] == 1);
    crate::nfa_table::lemma_distinct_below(order, 2);
    assert(ids[1] == 2);
    assert(order[1] == 1);
    let rows = rows_model(t.table@);
    let e0 = m.states[0].edges;
    assert(!has_symbol(e0, EPSILON));
    assert(targets(e0, EPSILON).len() == 0);
    assert(rows[0] == row_of(m, 0, ids));
    assert(rows[1] == row_of(m, 1, ids));
    assert(epsilon_column(m.states[0], ids[0], ids) =~= seq![1usize]);
    assert(epsilon_column(m.states[1], ids[1], ids) =~= seq![2usize]);
    let f = |e: (char, Seq<usize>)| crate::nfa_table::symbol_column(e, ids);
    assert(e0.drop_last() =~= Seq::<(char, Seq<usize>)>::empty());
    assert(map_ids(seq![1usize], ids) =~= seq![2usize]);
    assert(symbol_columns(e0, ids) =~= seq![(c, seq![2usize])]);
    assert(symbol_columns(m.states[1].edges, ids) =~= Seq::<(char, Seq<usize>)>::empty());
    assert(rows =~= seq![
        crate::nfa_table::NFARowModel {
            accepting: false,
            epsilon: seq![1usize],
            symbols: seq![(c, seq![2usize])],
        },
        crate::nfa_table::NFARowModel { accepting: true, epsilon: seq![2usize], symbols: Seq::empty() },
    ]);
}

/// A fragment of one symbol matches exactly that symbol: the DFA built
/// from it accepts the one-character string of the symbol and nothing else.
pub proof fn lemma_char_matches_only_itself(c: char, dfa: DFA, t: NFATable, w: Seq<char>)
    requires
        c != EPSILON,
        dfa.table@.wf(),
        t.extracted_from(char_model(c)),
        dfa.table.built_from(&t),
    ensures
        dfa.table@.accepts(w) == (w == seq![c]),
{
    let d = dfa.table@;
    let rows = rows_model(t.table@);
    lemma_char_table(c, t);
    let (alpha, origins, ranks) = choose|alpha: Seq<char>, origins: Seq<usize>, ranks: Seq<int>|
        is_alphabet(rows, alpha) && subset_table(rows, alpha, d, origins, ranks);
    // The alphabet is `c` alone.
    assert(rows[0].symbols[0].0 == c);
    assert(crate::dfa_table::in_alphabet(rows, c));
    assert(alpha.contains(c));
    assert(alpha =~= seq![c]) by {
        assert forall|i: int| 0 <= i < alpha.len() implies alpha[i] == c by {
            assert(alpha.contains(alpha[i]));
            assert(crate::dfa_table::in_alphabet(rows, alpha[i]));
            let (k, j) = choose|k: int, j: int|
                0 <= k < rows.len() && 0 <= j < rows[k].symbols.len() && #[trigger] rows[k].symbols[j].0
                    == alpha[i];
            assert(k == 0);
        }
        if alpha.len() >= 2 {
            assert((alpha[0] as int) < (alpha[1] as int));
        }
    }
    // The two composite states.
    lemma_canonical(seq![1usize], seq![1usize]);
    lemma_canonical(seq![2usize], seq![2usize]);
    assert(set_of(rows, 0) == seq![1usize]);
    assert(set_of(rows, 1) == seq![2usize]);
    let one = decimal(1);
    let two = decimal(2);
    assert(one == seq!['1']);
    assert(two == seq!['2']);
    assert(join_ids(seq![1usize]) == one);
    assert(join_ids(seq![2usize]) == two);
    assert(column(rows[0].symbols, c) == Some(seq![2usize]));
    assert(column(rows[1].symbols, c) is None);
    assert(seq![1usize].drop_last() + seq![2usize] =~= seq![2usize]);
    assert(search(rows, c, seq![2usize], true, 2) == Some(1int));
    assert(successor(rows, seq![1usize], c) == Some(1int));
    assert(!set_accepting(rows, seq![1usize]));
    assert(set_accepting(rows, seq![2usize])) by {
        assert(seq![2usize][0] == 2);
    }
    let row_a = DfaRowModel { label: one, accepting: false, transitions: seq![(c, two)] };
    let row_b = DfaRowModel { label: two, accepting: true, transitions: Seq::empty() };
    assert(alpha.drop_last() =~= Seq::<char>::empty());
    assert(transition_of(rows, seq![1usize], c) == Some((c, two)));
    assert(alpha.last() == c);
    assert(row_transitions(rows, seq![1usize], alpha.drop_last()) =~= Seq::empty());
    assert(row_transitions(rows, seq![1usize], alpha) == row_transitions(
        rows,
        seq![1usize],
        alpha.drop_last(),
    ) + seq![(c, two)]);
    assert(row_transitions(rows, seq![1usize], alpha) =~= seq![(c, two)]);
    assert(dfa_row_of(rows, alpha, seq![1usize]) == row_a);
    assert(dfa_row_of(rows, alpha, seq![2usize]) == row_b);
    assert forall|i: int| 0 <= i < d.rows.len() implies #[trigger] d.rows[i] == row_a || d.rows[i] == row_b by {
        assert(d.rows[i] == dfa_row_of(rows, alpha, set_of(rows, origins[i] as int)));
    }
    assert(d.start == one);
    // Walk the table.
    let ia = label_index(d.rows, one);
    assert(d.rows[ia].label == one);
    assert(d.rows[ia] == row_a) by {
        if d.rows[ia] == row_b {
            assert(one[0] != two[0]);
        }
    }
    if w.len() == 0 {
        assert(!d.accepts(w));
        assert(w != seq![c]);
    } else if w[0] != c {
        assert(step(row_a.transitions, w[0]) is None);
        assert(w != seq![c]);
    } else {
        assert(step(row_a.transitions, c) == Some(two)) by {
            assert(row_a.transitions[0].0 == c);
        }
        assert(has_label(d.rows, two)) by {
            assert(row_a.transitions[0].1 == two);
            assert(has_label(d.rows, d.rows[ia].transitions[0].1));
        }
        let ib = label_index(d.rows, two);
        assert(d.rows[ib] == row_b) by {
            if d.rows[ib] == row_a {
                assert(one[0] != two[0]);
            }
        }
        let rest = w.drop_first();
        if rest.len() == 0 {
            assert(w =~= seq![c]);
            assert(d.run(two, rest) == Some(two));
        } else {
            assert(step(row_b.transitions, rest[0]) is None);
            assert(d.run(two, rest) is None);
            assert(w.len() != 1);
        }
    }
}

} // verus!

verus! {

/// The fragment of a symbol `c` other than epsilon accepts exactly the
/// one-character string of `c`, run by run.
pub proof fn lemma_char_fragment_accepts(c: char, w: Seq<char>)
    requires
        c != EPSILON,
    ensures
        crate::matcher::nfa_accepts(char_model(c), w) == (w == seq![c]),
{
    let m = char_model(c);
    let e0 = m.states[0].edges;
    crate::state::lemma_symbol_pos_unique(e0, c, 0);
    assert(targets(e0, c) == seq![1usize]);
    assert(!has_symbol(e0, EPSILON));
    assert forall|x: char| x != c implies !has_symbol(e0, x) by {}
    assert(!has_symbol(m.states[1].edges, c));
    if crate::matcher::nfa_accepts(m, w) {
        let q = choose|q: int|
            0 <= q < m.states.len() && #[trigger] crate::matcher::reaches(m, m.entry, w, q)
                && m.states[q].accepting;
        let (path, labels) = choose|path: Seq<int>, labels: Seq<Option<char>>|
            #[trigger] crate::matcher::is_run(m, m.entry, path, labels) && crate::matcher::read(labels)
                == w && path.last() == q;
        assert(q == 1);
        assert(labels.len() >= 1) by {
            if labels.len() == 0 {
                assert(path.last() == path[0]);
            }
        }
        assert(crate::matcher::step_ok(m, path[0], labels[0], path[1]));
        assert(labels[0] == Some(c) && path[1] == 1) by {
            match labels[0] {
                None => {
                    assert(targets(e0, EPSILON).len() == 0);
                },
                Some(x) => {
                    if x != c {
                        assert(!has_symbol(e0, x));
                    }
                    assert(targets(e0, x).contains(path[1] as usize));
                },
            }
        }
        assert(labels.len() == 1) by {
            if labels.len() >= 2 {
                assert(crate::matcher::step_ok(m, path[1], labels[1], path[2]));
                match labels[1] {
                    None => {},
                    Some(x) => {
                        assert(!has_symbol(m.states[1].edges, x));
                    },
                }
            }
        }
        assert(labels.drop_last() =~= Seq::<Option<char>>::empty());
        assert(labels.last() == Some(c));
        assert(crate::matcher::read(labels.drop_last()) =~= Seq::<char>::empty());
        assert(crate::matcher::read(labels) =~= seq![c]);
    }
    if w == seq![c] {
        let path = seq![0int, 1int];
        let labels = seq![Some(c)];
        assert(targets(e0, c)[0] == 1usize);
        assert(targets(e0, c).contains(1usize));
        assert(crate::matcher::step_ok(m, path[0], labels[0], path[1]));
        assert(crate::matcher::is_run(m, m.entry, path, labels));
        assert(labels.drop_last() =~= Seq::<Option<char>>::empty());
        assert(labels.last() == Some(c));
        assert(crate::matcher::read(labels.drop_last()) =~= Seq::<char>::empty());
        assert(crate::matcher::read(labels) =~= seq![c]);
        assert(path.last() == 1);
        assert(crate::matcher::reaches(m, m.entry, w, 1));
        assert(m.states[1].accepting);
    }
}

} // verus!
