use vstd::prelude::*;

use crate::dfa::DFA;
use crate::dfa_table::{
    dfa_row_of, has_label, is_alphabet, label_index, lemma_canonical, row_transitions, search,
    set_accepting, set_of, step, subset_table, successor, transition_of, DfaRowModel,
};
use crate::label::{decimal, join_ids};
use crate::nfa::{char_model, concat_all, concat_model, NfaModel};
use crate::nfa_table::{
    column, epsilon_column, has_edge, map_ids, row_of, rows_model, symbol_columns, NFARowModel,
    NFATable,
};
use crate::state::{add_edge, has_symbol, symbol_pos, targets, StateModel, EPSILON};

verus! {

/// The fragment of `ab`, state by state.
pub open spec fn ab_model() -> NfaModel {
    NfaModel {
        states: seq![
            StateModel { accepting: false, edges: seq![('a', seq![1usize])] },
            StateModel { accepting: false, edges: seq![(EPSILON, seq![2usize])] },
            StateModel { accepting: false, edges: seq![('b', seq![3usize])] },
            StateModel { accepting: true, edges: Seq::empty() },
        ],
        entry: 0,
        exit: 3,
    }
}

proof fn lemma_ab_model()
    ensures
        concat_all(seq![char_model('a'), char_model('b')]) == ab_model(),
{
    let ms = seq![char_model('a'), char_model('b')];
    assert(ms.drop_last() =~= seq![char_model('a')]);
    assert(concat_all(ms.drop_last()) == char_model('a'));
    let a = char_model('a');
    let b = char_model('b');
    let c = concat_model(a, b);
    let e1 = a.states[1].edges;
    assert(e1 =~= Seq::<(char, Seq<usize>)>::empty());
    assert(!has_symbol(e1, EPSILON));
    assert(add_edge(e1, EPSILON, 2) =~= seq![(EPSILON, seq![2usize])]);
    let sb = crate::nfa::shift_states(b.states, 2);
    assert(b.states[0].edges[0].1 =~= seq![1usize]);
    assert(sb[0].edges[0].1 =~= seq![3usize]);
    assert(sb[0].edges =~= seq![('b', seq![3usize])]);
    assert(sb[1].edges =~= Seq::<(char, Seq<usize>)>::empty());
    assert(c.states[0] == ab_model().states[0]);
    assert(c.states[1] == ab_model().states[1]);
    assert(c.states[2] == ab_model().states[2]);
    assert(c.states[3] == ab_model().states[3]);
    assert(c.states =~= ab_model().states);
}

/// The rows of the table of the fragment of `ab`.
proof fn lemma_ab_table(t: NFATable)
    requires
        t.extracted_from(ab_model()),
    ensures
        rows_model(t.table@) == seq![
            NFARowModel { accepting: false, epsilon: seq![1usize], symbols: seq![('a', seq![2usize])] },
            NFARowModel { accepting: false, epsilon: seq![2usize, 3usize], symbols: Seq::empty() },
            NFARowModel { accepting: false, epsilon: seq![3usize], symbols: seq![('b', seq![4usize])] },
            NFARowModel { accepting: true, epsilon: seq![4usize], symbols: Seq::empty() },
        ],
{
    let m = ab_model();
    let order = t.visit_order@;
    let ids = t.state_ids@;
    crate::nfa_table::lemma_distinct_below(order, 4);
    // Each state has exactly one target, so the walk is the chain 0, 1, 2, 3.
    assert(m.states[0].edges[0].1[0] == 1);
    assert(m.states[1].edges[0].1[0] == 2);
    assert(m.states[2].edges[0].1[0] == 3);
    assert forall|u: int, v: int| 0 <= u < 4 && has_edge(m, u, v) implies v == u + 1 && u < 3 by {
        let (i, j) = choose|i: int, j: int|
            0 <= i < m.states[u].edges.len() && 0 <= j < m.states[u].edges[i].1.len()
                && #[trigger] m.states[u].edges[i].1[j] == v;
    }
    assert(ids[0] == 1);
    assert(crate::nfa_table::expanded(m, ids, order[0] as int));
    assert(ids[1] != 0);
    assert(order.len() >= 2);
    assert(crate::nfa_table::reached_from_before(m, order, 1));
    assert(order[1] == 1);
    assert(crate::nfa_table::expanded(m, ids, order[1] as int));
    assert(ids[2] != 0);
    assert(order.len() >= 3) by {
        assert(order[ids[2] - 1] == 2);
    }
    assert(crate::nfa_table::reached_from_before(m, order, 2));
    assert(order[2] == 2);
    assert(crate::nfa_table::expanded(m, ids, order[2] as int));
    assert(ids[3] != 0);
    assert(order.len() >= 4) by {
        assert(order[ids[3] - 1] == 3);
    }
    assert(crate::nfa_table::reached_from_before(m, order, 3));
    assert(order[3] == 3);
    assert(ids[1] == 2 && ids[2] == 3 && ids[3] == 4);
    let rows = rows_model(t.table@);
    assert forall|k: int| 0 <= k < 4 implies #[trigger] rows[k] == row_of(m, k, ids) by {
        assert(rows[k] == row_of(m, order[k] as int, ids));
    }
    let e0 = m.states[0].edges;
    let e1 = m.states[1].edges;
    let e2 = m.states[2].edges;
    crate::state::lemma_symbol_pos_unique(e1, EPSILON, 0);
    assert(!has_symbol(e0, EPSILON));
    assert(!has_symbol(e2, EPSILON));
    assert(epsilon_column(m.states[0], ids[0], ids) =~= seq![1usize]);
    assert(map_ids(seq![2usize], ids) =~= seq![3usize]);
    assert(epsilon_column(m.states[1], ids[1], ids) =~= seq![2usize, 3usize]);
    assert(epsilon_column(m.states[2], ids[2], ids) =~= seq![3usize]);
    assert(epsilon_column(m.states[3], ids[3], ids) =~= seq![4usize]);
    assert(e0.drop_last() =~= Seq::<(char, Seq<usize>)>::empty());
    assert(e1.drop_last() =~= Seq::<(char, Seq<usize>)>::empty());
    assert(e2.drop_last() =~= Seq::<(char, Seq<usize>)>::empty());
    assert(map_ids(seq![1usize], ids) =~= seq![2usize]);
    assert(map_ids(seq![3usize], ids) =~= seq![4usize]);
    assert(e0.last() == ('a', seq![1usize]));
    assert(crate::nfa_table::symbol_column(e0.last(), ids) == Some(('a', seq![2usize])));
    assert(symbol_columns(e0.drop_last(), ids) =~= Seq::<(char, Seq<usize>)>::empty());
    assert(symbol_columns(e0, ids) =~= seq![('a', seq![2usize])]);
    assert(symbol_columns(e1, ids) =~= Seq::<(char, Seq<usize>)>::empty());
    assert(symbol_columns(e2, ids) =~= seq![('b', seq![4usize])]);
    assert(symbol_columns(m.states[3].edges, ids) =~= Seq::<(char, Seq<usize>)>::empty());
    assert(rows =~= seq![
        NFARowModel { accepting: false, epsilon: seq![1usize], symbols: seq![('a', seq![2usize])] },
        NFARowModel { accepting: false, epsilon: seq![2usize, 3usize], symbols: Seq::empty() },
        NFARowModel { accepting: false, epsilon: seq![3usize], symbols: seq![('b', seq![4usize])] },
        NFARowModel { accepting: true, epsilon: seq![4usize], symbols: Seq::empty() },
    ]);
}

} // verus!

verus! {

pub open spec fn ab_row_a() -> DfaRowModel {
    DfaRowModel { label: seq!['1'], accepting: false, transitions: seq![('a', seq!['2', ',', '3'])] }
}

pub open spec fn ab_row_b() -> DfaRowModel {
    DfaRowModel { label: seq!['2', ',', '3'], accepting: false, transitions: seq![('b', seq!['4'])] }
}

pub open spec fn ab_row_c() -> DfaRowModel {
    DfaRowModel { label: seq!['4'], accepting: true, transitions: Seq::empty() }
}

pub open spec fn ab_row_d() -> DfaRowModel {
    DfaRowModel { label: seq!['3'], accepting: false, transitions: seq![('b', seq!['4'])] }
}

/// The rows that the DFA of `ab` can have, and its start.
#[verifier::spinoff_prover]
#[verifier::rlimit(50)]
proof fn lemma_ab_dfa_rows(dfa: DFA, t: NFATable)
    requires
        t.extracted_from(concat_all(seq![char_model('a'), char_model('b')])),
        dfa.table.built_from(&t),
    ensures
        dfa.table@.start == seq!['1'],
        forall|i: int|
            0 <= i < dfa.table@.rows.len() ==> #[trigger] dfa.table@.rows[i] == ab_row_a()
                || dfa.table@.rows[i] == ab_row_b() || dfa.table@.rows[i] == ab_row_c()
                || dfa.table@.rows[i] == ab_row_d(),
{
    let d = dfa.table@;
    lemma_ab_model();
    lemma_ab_table(t);
    let rows = rows_model(t.table@);
    let (alpha, origins, ranks) = choose|alpha: Seq<char>, origins: Seq<usize>, ranks: Seq<int>|
        is_alphabet(rows, alpha) && subset_table(rows, alpha, d, origins, ranks);
    // The alphabet is `a`, `b`.
    assert(rows[0].symbols[0].0 == 'a');
    assert(rows[2].symbols[0].0 == 'b');
    assert(crate::dfa_table::in_alphabet(rows, 'a'));
    assert(crate::dfa_table::in_alphabet(rows, 'b'));
    assert(alpha.contains('a') && alpha.contains('b'));
    assert forall|i: int| 0 <= i < alpha.len() implies alpha[i] == 'a' || alpha[i] == 'b' by {
        assert(alpha.contains(alpha[i]));
        assert(crate::dfa_table::in_alphabet(rows, alpha[i]));
        let (k, j) = choose|k: int, j: int|
            0 <= k < rows.len() && 0 <= j < rows[k].symbols.len() && #[trigger] rows[k].symbols[j].0
                == alpha[i];
    }
    assert(alpha =~= seq!['a', 'b']) by {
        let ia = choose|i: int| 0 <= i < alpha.len() && alpha[i] == 'a';
        let ib = choose|i: int| 0 <= i < alpha.len() && alpha[i] == 'b';
        if alpha.len() >= 3 {
            assert((alpha[0] as int) < (alpha[1] as int));
            assert((alpha[1] as int) < (alpha[2] as int));
        }
        assert(alpha.len() == 2);
        if ia == 1 {
            assert(ib == 0);
            assert((alpha[0] as int) < (alpha[1] as int));
        }
    }
    // The composite states.
    lemma_canonical(seq![1usize], seq![1usize]);
    lemma_canonical(seq![2usize, 3usize], seq![2usize, 3usize]);
    lemma_canonical(seq![3usize], seq![3usize]);
    lemma_canonical(seq![4usize], seq![4usize]);
    let s1 = seq![1usize];
    let s23 = seq![2usize, 3usize];
    let s3 = seq![3usize];
    let s4 = seq![4usize];
    assert(set_of(rows, 0) == s1);
    assert(set_of(rows, 1) == s23);
    assert(set_of(rows, 2) == s3);
    assert(set_of(rows, 3) == s4);
    let l1 = decimal(1);
    let l23 = decimal(2) + seq![','] + decimal(3);
    let l3 = decimal(3);
    let l4 = decimal(4);
    assert(l1 == seq!['1']);
    assert(decimal(2) == seq!['2']);
    assert(l3 == seq!['3']);
    assert(l4 == seq!['4']);
    assert(s23.drop_last() =~= seq![2usize]);
    assert(join_ids(s1) == l1);
    assert(join_ids(seq![2usize]) == decimal(2));
    assert(s23.last() == 3);
    assert(join_ids(s23) == l23);
    assert(join_ids(s3) == l3);
    assert(join_ids(s4) == l4);
    assert(l23[0] == '2' && l23.len() == 3);
    // Columns of the rows.
    assert(column(rows[0].symbols, 'a') == Some(seq![2usize]));
    assert(rows[0].symbols.drop_first() =~= Seq::<(char, Seq<usize>)>::empty());
    assert(column(Seq::<(char, Seq<usize>)>::empty(), 'b') is None);
    assert(column(Seq::<(char, Seq<usize>)>::empty(), 'a') is None);
    assert(column(rows[0].symbols, 'b') is None);
    assert(column(rows[1].symbols, 'a') is None);
    assert(column(rows[1].symbols, 'b') is None);
    assert(rows[2].symbols.drop_first() =~= Seq::<(char, Seq<usize>)>::empty());
    assert(column(rows[2].symbols, 'a') is None);
    assert(column(rows[2].symbols, 'b') == Some(seq![4usize]));
    assert(column(rows[3].symbols, 'b') is None);
    // The successors.
    assert(s1.drop_last() + seq![2usize] =~= seq![2usize]);
    assert(seq![2usize].drop_last() =~= Seq::<usize>::empty());
    assert(search(rows, 'a', seq![2usize], true, 4) == Some(1int));
    assert(successor(rows, s1, 'a') == Some(1int));
    assert(s1.drop_last() =~= Seq::<usize>::empty());
    assert(search(rows, 'b', Seq::<usize>::empty(), false, 4) is None);
    assert(successor(rows, s1, 'b') is None);
    assert(s23.drop_last() =~= seq![2usize]);
    assert(search(rows, 'a', Seq::<usize>::empty(), false, 4) is None);
    assert(search(rows, 'a', seq![2usize], false, 5) is None);
    assert(successor(rows, s23, 'a') is None);
    assert(seq![2usize] + seq![4usize] =~= seq![2usize, 4usize]);
    assert(seq![2usize, 4usize].last() == 4);
    assert(search(rows, 'b', seq![2usize, 4usize], true, 5) == Some(3int));
    assert(successor(rows, s23, 'b') == Some(3int));
    assert(s3.drop_last() =~= Seq::<usize>::empty());
    assert(successor(rows, s3, 'a') is None);
    assert(Seq::<usize>::empty() + seq![4usize] =~= seq![4usize]);
    assert(search(rows, 'b', seq![4usize], true, 4) == Some(3int));
    assert(successor(rows, s3, 'b') == Some(3int));
    // Accepting sets.
    assert(!set_accepting(rows, s1));
    assert(!set_accepting(rows, s23));
    assert(!set_accepting(rows, s3));
    assert(set_accepting(rows, s4)) by {
        assert(s4[0] == 4);
    }
    // The rows the DFA can have.
    let ta = transition_of(rows, s1, 'a');
    assert(ta == Some(('a', l23)));
    assert(transition_of(rows, s1, 'b') is None);
    assert(transition_of(rows, s23, 'a') is None);
    assert(transition_of(rows, s23, 'b') == Some(('b', l4)));
    assert(transition_of(rows, s3, 'a') is None);
    assert(transition_of(rows, s3, 'b') == Some(('b', l4)));
    assert(alpha.drop_last() =~= seq!['a']);
    assert(alpha.drop_last().drop_last() =~= Seq::<char>::empty());
    assert(row_transitions(rows, s1, alpha) =~= seq![('a', l23)]) by {
        assert(row_transitions(rows, s1, alpha.drop_last().drop_last()) =~= Seq::empty());
        assert(row_transitions(rows, s1, alpha.drop_last()) =~= seq![('a', l23)]);
    }
    assert(row_transitions(rows, s23, alpha) =~= seq![('b', l4)]) by {
        assert(row_transitions(rows, s23, alpha.drop_last().drop_last()) =~= Seq::empty());
        assert(row_transitions(rows, s23, alpha.drop_last()) =~= Seq::empty());
    }
    assert(row_transitions(rows, s3, alpha) =~= seq![('b', l4)]) by {
        assert(row_transitions(rows, s3, alpha.drop_last().drop_last()) =~= Seq::empty());
        assert(row_transitions(rows, s3, alpha.drop_last()) =~= Seq::empty());
    }
    let ra = DfaRowModel { label: l1, accepting: false, transitions: seq![('a', l23)] };
    let rb = DfaRowModel { label: l23, accepting: false, transitions: seq![('b', l4)] };
    let rc = DfaRowModel { label: l4, accepting: true, transitions: Seq::empty() };
    let rd = DfaRowModel { label: l3, accepting: false, transitions: seq![('b', l4)] };
    assert(dfa_row_of(rows, alpha, s1) == ra);
    assert(dfa_row_of(rows, alpha, s23) == rb);
    assert(dfa_row_of(rows, alpha, s4) == rc);
    assert(dfa_row_of(rows, alpha, s3) == rd);
    assert forall|i: int| 0 <= i < d.rows.len() implies #[trigger] d.rows[i] == ra || d.rows[i] == rb
        || d.rows[i] == rc || d.rows[i] == rd by {
        assert(d.rows[i] == dfa_row_of(rows, alpha, set_of(rows, origins[i] as int)));
    }
    assert(d.start == l1);
    assert(l23 =~= seq!['2', ',', '3']);
    assert(ra == ab_row_a());
    assert(rb == ab_row_b());
    assert(rc == ab_row_c());
    assert(rd == ab_row_d());
}

/// The table of `ab` accepts exactly `ab`: the DFA built from the
/// concatenation of the fragments of `a` and `b` accepts the string `ab`
/// and nothing else.
pub proof fn lemma_ab_matches_only_ab(dfa: DFA, t: NFATable, w: Seq<char>)
    requires
        dfa.table@.wf(),
        t.extracted_from(concat_all(seq![char_model('a'), char_model('b')])),
        dfa.table.built_from(&t),
    ensures
        dfa.table@.accepts(w) == (w == seq!['a', 'b']),
{
    let d = dfa.table@;
    lemma_ab_dfa_rows(dfa, t);
    let ra = ab_row_a();
    let rb = ab_row_b();
    let rc = ab_row_c();
    let l1 = seq!['1'];
    let l23 = seq!['2', ',', '3'];
    let l4 = seq!['4'];
    assert(ra.label[0] == '1' && rb.label[0] == '2' && rc.label[0] == '4' && ab_row_d().label[0] == '3');
    // Walk the table.
    let ia = label_index(d.rows, l1);
    assert(has_label(d.rows, l1));
    assert(d.rows[ia].label == l1);
    assert(d.rows[ia] == ra);
    if w.len() == 0 {
        assert(w != seq!['a', 'b']);
    } else if w[0] != 'a' {
        assert(step(ra.transitions, w[0]) is None);
        assert(w != seq!['a', 'b']);
    } else {
        assert(step(ra.transitions, 'a') == Some(l23)) by {
            assert(ra.transitions[0].0 == 'a');
        }
        assert(has_label(d.rows, l23)) by {
            assert(has_label(d.rows, d.rows[ia].transitions[0].1));
        }
        let ib = label_index(d.rows, l23);
        assert(d.rows[ib].label == l23);
        assert(d.rows[ib] == rb);
        let w1 = w.drop_first();
        if w1.len() == 0 {
            assert(d.run(l23, w1) == Some(l23));
            assert(w != seq!['a', 'b']);
        } else if w1[0] != 'b' {
            assert(step(rb.transitions, w1[0]) is None);
            assert(w[1] == w1[0]);
            assert(w != seq!['a', 'b']);
        } else {
            assert(step(rb.transitions, 'b') == Some(l4)) by {
                assert(rb.transitions[0].0 == 'b');
            }
            assert(has_label(d.rows, l4)) by {
                assert(has_label(d.rows, d.rows[ib].transitions[0].1));
            }
            let ic = label_index(d.rows, l4);
            assert(d.rows[ic].label == l4);
            assert(d.rows[ic] == rc);
            let w2 = w1.drop_first();
            if w2.len() == 0 {
                assert(w =~= seq!['a', 'b']);
                assert(d.run(l4, w2) == Some(l4));
            } else {
                assert(step(rc.transitions, w2[0]) is None);
                assert(d.run(l4, w2) is None);
                assert(w.len() != 2);
            }
        }
    }
}

} // verus!
