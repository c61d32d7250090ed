use vstd::prelude::*;

use crate::dfa::DFA;
use crate::dfa_table::{
    dfa_row_of, has_label, is_alphabet, label_index, lemma_canonical, row_transitions, search,
    set_accepting, set_of, step, subset_table, successor, transition_of, DfaRowModel,
};
use crate::label::{decimal, join_ids};
use crate::nfa::{char_model, concat_all, or_all, or_model, NfaModel};
use crate::nfa_table::{
    column, dfs_edges, dfs_from, dfs_order, epsilon_column, map_ids, row_of, rows_model,
    symbol_columns, NFARowModel, NFATable,
};
use crate::state::{add_edge, has_symbol, StateModel, EPSILON};

verus! {

/// The fragment of `a|b`, state by state: the two branches, then the fork
/// and the join.
pub open spec fn a_or_b_model() -> NfaModel {
    NfaModel {
        states: seq![
            StateModel { accepting: false, edges: seq![('a', seq![1usize])] },
            StateModel { accepting: false, edges: seq![(EPSILON, seq![5usize])] },
            StateModel { accepting: false, edges: seq![('b', seq![3usize])] },
            StateModel { accepting: false, edges: seq![(EPSILON, seq![5usize])] },
            StateModel { accepting: false, edges: seq![(EPSILON, seq![0usize, 2usize])] },
            StateModel { accepting: true, edges: Seq::empty() },
        ],
        entry: 4,
        exit: 5,
    }
}

proof fn lemma_a_or_b_model()
    ensures
        or_all(seq![char_model('a'), char_model('b')]) == a_or_b_model(),
{
    let ms = seq![char_model('a'), char_model('b')];
    assert(ms.drop_last() =~= seq![char_model('a')]);
    let a = char_model('a');
    let b = char_model('b');
    let o = or_model(a, b);
    let e = Seq::<(char, Seq<usize>)>::empty();
    assert(a.states[1].edges =~= e);
    assert(!has_symbol(e, EPSILON));
    assert(add_edge(e, EPSILON, 5) =~= seq![(EPSILON, seq![5usize])]);
    let sb = crate::nfa::shift_states(b.states, 2);
    assert(b.states[0].edges[0].1 =~= seq![1usize]);
    assert(sb[0].edges[0].1 =~= seq![3usize]);
    assert(sb[0].edges =~= seq![('b', seq![3usize])]);
    assert(sb[1].edges =~= e);
    assert(o.states[0] == a_or_b_model().states[0]);
    assert(o.states[1] == a_or_b_model().states[1]);
    assert(o.states[2] == a_or_b_model().states[2]);
    assert(o.states[3] == a_or_b_model().states[3]);
    assert(o.states[4].edges[0].1 =~= seq![0usize, 2usize]);
    assert(o.states[4] == a_or_b_model().states[4]);
    assert(o.states[5] == a_or_b_model().states[5]);
    assert(o.states =~= a_or_b_model().states);
    assert(or_all(ms.drop_last()) == a);
    assert(ms.last() == b);
    assert(or_all(ms) == o);
}

/// Depth-first order of `a|b`: the fork, the `a` branch, the join, then the
/// `b` branch.
proof fn lemma_a_or_b_order()
    ensures
        dfs_order(a_or_b_model()) == seq![4usize, 0, 1, 5, 2, 3],
{
    let m = a_or_b_model();
    let o1 = seq![4usize, 0];
    let o2 = seq![4usize, 0, 1];
    let o3 = seq![4usize, 0, 1, 5];
    let o4 = seq![4usize, 0, 1, 5, 2];
    let o5 = seq![4usize, 0, 1, 5, 2, 3];
    assert(seq![4usize].push(0) =~= o1);
    assert(o1.push(1) =~= o2);
    assert(o2.push(5) =~= o3);
    assert(o3.push(2) =~= o4);
    assert(o4.push(3) =~= o5);
    assert(!seq![4usize].contains(0usize));
    assert(!o1.contains(1usize));
    assert(!o2.contains(5usize));
    assert(!o3.contains(2usize));
    assert(!o4.contains(3usize));
    assert(o5[3] == 5usize);
    assert(o5.contains(5usize));
    // The join has no edges.
    assert(dfs_from(m, 5, o3, 4) == dfs_edges(m, 5, 0, 0, o3, 4));
    assert(dfs_edges(m, 5, 0, 0, o3, 4) == o3);
    // The `a` branch.
    assert(dfs_edges(m, 1, 0, 1, o3, 5) == dfs_edges(m, 1, 1, 0, o3, 5));
    assert(dfs_edges(m, 1, 1, 0, o3, 5) == o3);
    assert(dfs_edges(m, 1, 0, 0, o2, 5) == dfs_edges(m, 1, 0, 1, dfs_from(m, 5, o3, 4), 5));
    assert(dfs_from(m, 1, o2, 5) == o3);
    assert(dfs_edges(m, 0, 0, 1, o3, 6) == dfs_edges(m, 0, 1, 0, o3, 6));
    assert(dfs_edges(m, 0, 1, 0, o3, 6) == o3);
    assert(dfs_edges(m, 0, 0, 0, o1, 6) == dfs_edges(m, 0, 0, 1, dfs_from(m, 1, o2, 5), 6));
    assert(dfs_from(m, 0, o1, 6) == o3);
    // The `b` branch.
    assert(dfs_edges(m, 3, 0, 1, o5, 5) == dfs_edges(m, 3, 1, 0, o5, 5));
    assert(dfs_edges(m, 3, 1, 0, o5, 5) == o5);
    assert(dfs_edges(m, 3, 0, 0, o5, 5) == dfs_edges(m, 3, 0, 1, o5, 5));
    assert(dfs_from(m, 3, o5, 5) == o5);
    assert(dfs_edges(m, 2, 0, 1, o5, 6) == dfs_edges(m, 2, 1, 0, o5, 6));
    assert(dfs_edges(m, 2, 1, 0, o5, 6) == o5);
    assert(dfs_edges(m, 2, 0, 0, o4, 6) == dfs_edges(m, 2, 0, 1, dfs_from(m, 3, o5, 5), 6));
    assert(dfs_from(m, 2, o4, 6) == o5);
    // The fork.
    assert(dfs_edges(m, 4, 0, 2, o5, 7) == dfs_edges(m, 4, 1, 0, o5, 7));
    assert(dfs_edges(m, 4, 1, 0, o5, 7) == o5);
    assert(dfs_edges(m, 4, 0, 1, o3, 7) == dfs_edges(m, 4, 0, 2, dfs_from(m, 2, o4, 6), 7));
    assert(dfs_edges(m, 4, 0, 0, seq![4usize], 7) == dfs_edges(m, 4, 0, 1, dfs_from(m, 0, o1, 6), 7));
    assert(dfs_from(m, 4, seq![4usize], 7) == o5);
}

} // verus!

verus! {

/// The rows of the table of the fragment of `a|b`.
proof fn lemma_a_or_b_table(t: NFATable)
    requires
        t.extracted_from(a_or_b_model()),
    ensures
        rows_model(t.table@) == seq![
            NFARowModel { accepting: false, epsilon: seq![1usize, 2, 5], symbols: Seq::empty() },
            NFARowModel { accepting: false, epsilon: seq![2usize], symbols: seq![('a', seq![3usize])] },
            NFARowModel { accepting: false, epsilon: seq![3usize, 4], symbols: Seq::empty() },
            NFARowModel { accepting: true, epsilon: seq![4usize], symbols: Seq::empty() },
            NFARowModel { accepting: false, epsilon: seq![5usize], symbols: seq![('b', seq![6usize])] },
            NFARowModel { accepting: false, epsilon: seq![6usize, 4], symbols: Seq::empty() },
        ],
{
    let m = a_or_b_model();
    lemma_a_or_b_order();
    let order = t.visit_order@;
    let ids = t.state_ids@;
    assert(order == seq![4usize, 0, 1, 5, 2, 3]);
    assert(ids[order[0] as int] == 1);
    assert(ids[order[1] as int] == 2);
    assert(ids[order[2] as int] == 3);
    assert(ids[order[3] as int] == 4);
    assert(ids[order[4] as int] == 5);
    assert(ids[order[5] as int] == 6);
    assert(ids[4] == 1 && ids[0] == 2 && ids[1] == 3 && ids[5] == 4 && ids[2] == 5 && ids[3] == 6);
    let rows = rows_model(t.table@);
    let e = Seq::<(char, Seq<usize>)>::empty();
    assert forall|k: int| 0 <= k < 6 implies #[trigger] rows[k] == row_of(m, order[k] as int, ids) by {}
    let s0 = m.states[0].edges;
    let s1 = m.states[1].edges;
    let s2 = m.states[2].edges;
    let s3 = m.states[3].edges;
    let s4 = m.states[4].edges;
    crate::state::lemma_symbol_pos_unique(s1, EPSILON, 0);
    crate::state::lemma_symbol_pos_unique(s3, EPSILON, 0);
    crate::state::lemma_symbol_pos_unique(s4, EPSILON, 0);
    assert(!has_symbol(s0, EPSILON));
    assert(!has_symbol(s2, EPSILON));
    assert(map_ids(seq![0usize, 2], ids) =~= seq![2usize, 5]);
    assert(map_ids(seq![5usize], ids) =~= seq![4usize]);
    assert(map_ids(seq![1usize], ids) =~= seq![3usize]);
    assert(map_ids(seq![3usize], ids) =~= seq![6usize]);
    assert(epsilon_column(m.states[4], 1, ids) =~= seq![1usize, 2, 5]);
    assert(epsilon_column(m.states[0], 2, ids) =~= seq![2usize]);
    assert(epsilon_column(m.states[1], 3, ids) =~= seq![3usize, 4]);
    assert(epsilon_column(m.states[5], 4, ids) =~= seq![4usize]);
    assert(epsilon_column(m.states[2], 5, ids) =~= seq![5usize]);
    assert(epsilon_column(m.states[3], 6, ids) =~= seq![6usize, 4]);
    assert(s0.drop_last() =~= e);
    assert(s1.drop_last() =~= e);
    assert(s2.drop_last() =~= e);
    assert(s3.drop_last() =~= e);
    assert(s4.drop_last() =~= e);
    assert(crate::nfa_table::symbol_column(s0.last(), ids) == Some(('a', seq![3usize])));
    assert(crate::nfa_table::symbol_column(s2.last(), ids) == Some(('b', seq![6usize])));
    assert(symbol_columns(e, ids) =~= e);
    assert(symbol_columns(s0, ids) =~= seq![('a', seq![3usize])]);
    assert(symbol_columns(s1, ids) =~= e);
    assert(symbol_columns(s2, ids) =~= seq![('b', seq![6usize])]);
    assert(symbol_columns(s3, ids) =~= e);
    assert(symbol_columns(s4, ids) =~= e);
    assert(symbol_columns(m.states[5].edges, ids) =~= e);
    assert(rows =~= seq![
        NFARowModel { accepting: false, epsilon: seq![1usize, 2, 5], symbols: Seq::empty() },
        NFARowModel { accepting: false, epsilon: seq![2usize], symbols: seq![('a', seq![3usize])] },
        NFARowModel { accepting: false, epsilon: seq![3usize, 4], symbols: Seq::empty() },
        NFARowModel { accepting: true, epsilon: seq![4usize], symbols: Seq::empty() },
        NFARowModel { accepting: false, epsilon: seq![5usize], symbols: seq![('b', seq![6usize])] },
        NFARowModel { accepting: false, epsilon: seq![6usize, 4], symbols: Seq::empty() },
    ]);
}

} // verus!

verus! {

pub open spec fn or_row_start() -> DfaRowModel {
    DfaRowModel {
        label: seq!['1', ',', '2', ',', '5'],
        accepting: false,
        transitions: seq![('a', seq!['3', ',', '4']), ('b', seq!['4', ',', '6'])],
    }
}

pub open spec fn or_row_end(l: Seq<char>) -> DfaRowModel {
    DfaRowModel { label: l, accepting: true, transitions: Seq::empty() }
}

/// The alphabet of the table of `a|b`.
proof fn lemma_a_or_b_alphabet(rows: Seq<NFARowModel>, alpha: Seq<char>)
    requires
        rows == seq![
            NFARowModel { accepting: false, epsilon: seq![1usize, 2, 5], symbols: Seq::empty() },
            NFARowModel { accepting: false, epsilon: seq![2usize], symbols: seq![('a', seq![3usize])] },
            NFARowModel { accepting: false, epsilon: seq![3usize, 4], symbols: Seq::empty() },
            NFARowModel { accepting: true, epsilon: seq![4usize], symbols: Seq::empty() },
            NFARowModel { accepting: false, epsilon: seq![5usize], symbols: seq![('b', seq![6usize])] },
            NFARowModel { accepting: false, epsilon: seq![6usize, 4], symbols: Seq::empty() },
        ],
        is_alphabet(rows, alpha),
    ensures
        alpha == seq!['a', 'b'],
{
    assert(rows[1].symbols[0].0 == 'a');
    assert(rows[4].symbols[0].0 == 'b');
    assert(crate::dfa_table::in_alphabet(rows, 'a'));
    assert(crate::dfa_table::in_alphabet(rows, 'b'));
    assert(alpha.contains('a') && alpha.contains('b'));
    assert forall|i: int| 0 <= i < alpha.len() implies alpha[i] == 'a' || alpha[i] == 'b' by {
        assert(alpha.contains(alpha[i]));
        assert(crate::dfa_table::in_alphabet(rows, alpha[i]));
        let (k, j) = choose|k: int, j: int|
            0 <= k < rows.len() && 0 <= j < rows[k].symbols.len() && #[trigger] rows[k].symbols[j].0
                == alpha[i];
    }
    assert(alpha =~= seq!['a', 'b']) by {
        let ia = choose|i: int| 0 <= i < alpha.len() && alpha[i] == 'a';
        let ib = choose|i: int| 0 <= i < alpha.len() && alpha[i] == 'b';
        if alpha.len() >= 3 {
            assert((alpha[0] as int) < (alpha[1] as int));
            assert((alpha[1] as int) < (alpha[2] as int));
        }
        assert(alpha.len() == 2);
        if ia == 1 {
            assert(ib == 0);
            assert((alpha[0] as int) < (alpha[1] as int));
        }
    }
}

/// The rows of the DFA of `a|b` for the start and for its two successors,
/// and the labels of the other composite states.
#[verifier::spinoff_prover]
#[verifier::rlimit(80)]
proof fn lemma_a_or_b_composites(rows: Seq<NFARowModel>, alpha: Seq<char>)
    requires
        rows == seq![
            NFARowModel { accepting: false, epsilon: seq![1usize, 2, 5], symbols: Seq::empty() },
            NFARowModel { accepting: false, epsilon: seq![2usize], symbols: seq![('a', seq![3usize])] },
            NFARowModel { accepting: false, epsilon: seq![3usize, 4], symbols: Seq::empty() },
            NFARowModel { accepting: true, epsilon: seq![4usize], symbols: Seq::empty() },
            NFARowModel { accepting: false, epsilon: seq![5usize], symbols: seq![('b', seq![6usize])] },
            NFARowModel { accepting: false, epsilon: seq![6usize, 4], symbols: Seq::empty() },
        ],
        alpha == seq!['a', 'b'],
    ensures
        join_ids(set_of(rows, 0)) == seq!['1', ',', '2', ',', '5'],
        dfa_row_of(rows, alpha, set_of(rows, 0)) == or_row_start(),
        dfa_row_of(rows, alpha, set_of(rows, 2)) == or_row_end(seq!['3', ',', '4']),
        dfa_row_of(rows, alpha, set_of(rows, 5)) == or_row_end(seq!['4', ',', '6']),
        join_ids(set_of(rows, 1)).len() == 1,
        join_ids(set_of(rows, 3)).len() == 1,
        join_ids(set_of(rows, 4)).len() == 1,
{
    // The composite states and their labels.
    let s125 = seq![1usize, 2, 5];
    let s34 = seq![3usize, 4];
    let s46 = seq![4usize, 6];
    lemma_canonical(s125, s125);
    lemma_canonical(seq![2usize], seq![2usize]);
    lemma_canonical(s34, s34);
    lemma_canonical(seq![4usize], seq![4usize]);
    lemma_canonical(seq![5usize], seq![5usize]);
    assert(crate::dfa_table::same_ids(s46, seq![6usize, 4])) by {
        assert forall|x: usize| s46.contains(x) <==> seq![6usize, 4].contains(x) by {
            if s46.contains(x) {
                let i = choose|i: int| 0 <= i < 2 && s46[i] == x;
                if i == 0 {
                    assert(seq![6usize, 4][1] == x);
                } else {
                    assert(seq![6usize, 4][0] == x);
                }
            }
            if seq![6usize, 4].contains(x) {
                let i = choose|i: int| 0 <= i < 2 && seq![6usize, 4][i] == x;
                if i == 0 {
                    assert(s46[1] == x);
                } else {
                    assert(s46[0] == x);
                }
            }
        }
    }
    lemma_canonical(s46, seq![6usize, 4]);
    assert(set_of(rows, 0) == s125);
    assert(set_of(rows, 1) == seq![2usize]);
    assert(set_of(rows, 2) == s34);
    assert(set_of(rows, 3) == seq![4usize]);
    assert(set_of(rows, 4) == seq![5usize]);
    assert(set_of(rows, 5) == s46);
    let l125 = seq!['1', ',', '2', ',', '5'];
    let l34 = seq!['3', ',', '4'];
    let l46 = seq!['4', ',', '6'];
    assert(decimal(1) == seq!['1'] && decimal(2) == seq!['2'] && decimal(3) == seq!['3']);
    assert(decimal(4) == seq!['4'] && decimal(5) == seq!['5'] && decimal(6) == seq!['6']);
    assert(s125.drop_last() =~= seq![1usize, 2]);
    assert(seq![1usize, 2].drop_last() =~= seq![1usize]);
    assert(join_ids(seq![1usize]) == decimal(1));
    assert(join_ids(seq![3usize]) == decimal(3));
    assert(join_ids(seq![4usize]) == decimal(4));
    assert(seq![1usize, 2].last() == 2 && s125.last() == 5 && s34.last() == 4 && s46.last() == 6);
    assert(join_ids(seq![1usize, 2]) =~= seq!['1', ',', '2']);
    assert(join_ids(s125) =~= l125);
    assert(s34.drop_last() =~= seq![3usize]);
    assert(join_ids(s34) =~= l34);
    assert(s46.drop_last() =~= seq![4usize]);
    assert(join_ids(s46) =~= l46);
    assert(join_ids(seq![2usize]).len() == 1);
    assert(join_ids(seq![4usize]).len() == 1);
    assert(join_ids(seq![5usize]).len() == 1);
    // Successors of the start.
    let e = Seq::<(char, Seq<usize>)>::empty();
    assert(rows[4].symbols.drop_first() =~= e);
    assert(column(e, 'a') is None);
    assert(column(rows[4].symbols, 'a') is None);
    assert(column(rows[4].symbols, 'b') == Some(seq![6usize]));
    assert(column(rows[1].symbols, 'a') == Some(seq![3usize]));
    assert(column(rows[2].symbols, 'a') is None);
    assert(column(rows[5].symbols, 'b') is None);
    assert(s125.drop_last() + seq![6usize] =~= seq![1usize, 2, 6]);
    assert(search(rows, 'b', seq![1usize, 2, 6], true, 8) == Some(5int));
    assert(successor(rows, s125, 'b') == Some(5int));
    assert(seq![1usize, 2].drop_last() + seq![3usize] =~= seq![1usize, 3]);
    assert(search(rows, 'a', seq![1usize, 3], true, 7) == Some(2int));
    assert(search(rows, 'a', seq![1usize, 2], false, 8) == Some(2int));
    assert(successor(rows, s125, 'a') == Some(2int));
    assert(!set_accepting(rows, s125));
    assert(set_accepting(rows, s34)) by {
        assert(s34[1] == 4);
    }
    assert(set_accepting(rows, s46)) by {
        assert(s46[0] == 4);
    }
    assert(transition_of(rows, s125, 'a') == Some(('a', l34)));
    assert(transition_of(rows, s125, 'b') == Some(('b', l46)));
    assert(alpha.drop_last() =~= seq!['a']);
    assert(alpha.drop_last().drop_last() =~= Seq::<char>::empty());
    assert(row_transitions(rows, s125, alpha) =~= seq![('a', l34), ('b', l46)]) by {
        assert(row_transitions(rows, s125, alpha.drop_last().drop_last()) =~= Seq::empty());
        assert(row_transitions(rows, s125, alpha.drop_last()) =~= seq![('a', l34)]);
    }
    assert(dfa_row_of(rows, alpha, s125) == or_row_start());
    assert(dfa_row_of(rows, alpha, s34) == or_row_end(l34));
    assert(dfa_row_of(rows, alpha, s46) == or_row_end(l46));
}

/// The rows of the DFA of `a|b` that a walk from the start can meet.
proof fn lemma_a_or_b_dfa_rows(dfa: DFA, t: NFATable)
    requires
        t.extracted_from(or_all(seq![char_model('a'), char_model('b')])),
        dfa.table.built_from(&t),
    ensures
        dfa.table@.start == seq!['1', ',', '2', ',', '5'],
        forall|i: int|
            0 <= i < dfa.table@.rows.len() ==> {
                let r = #[trigger] dfa.table@.rows[i];
                &&& r.label == seq!['1', ',', '2', ',', '5'] ==> r == or_row_start()
                &&& r.label == seq!['3', ',', '4'] ==> r == or_row_end(seq!['3', ',', '4'])
                &&& r.label == seq!['4', ',', '6'] ==> r == or_row_end(seq!['4', ',', '6'])
            },
{
    let d = dfa.table@;
    lemma_a_or_b_model();
    lemma_a_or_b_table(t);
    let rows = rows_model(t.table@);
    let (alpha, origins, ranks) = choose|alpha: Seq<char>, origins: Seq<usize>, ranks: Seq<int>|
        is_alphabet(rows, alpha) && subset_table(rows, alpha, d, origins, ranks);
    lemma_a_or_b_alphabet(rows, alpha);
    lemma_a_or_b_composites(rows, alpha);
    let l125 = seq!['1', ',', '2', ',', '5'];
    let l34 = seq!['3', ',', '4'];
    let l46 = seq!['4', ',', '6'];
    assert(d.start == l125);
    assert forall|i: int| 0 <= i < d.rows.len() implies {
        let r = #[trigger] d.rows[i];
        &&& r.label == l125 ==> r == or_row_start()
        &&& r.label == l34 ==> r == or_row_end(l34)
        &&& r.label == l46 ==> r == or_row_end(l46)
    } by {
        let k = origins[i] as int;
        assert(d.rows[i] == dfa_row_of(rows, alpha, set_of(rows, k)));
        assert(0 <= k < 6);
        if k == 2 || k == 5 {
            assert(l34[0] != l46[0]);
        }
        if k == 1 || k == 3 || k == 4 {
            assert(d.rows[i].label.len() == 1);
        }
    }
}

/// The table of `a|b` accepts exactly `a` and `b`.
pub proof fn lemma_a_or_b_matches(dfa: DFA, t: NFATable, w: Seq<char>)
    requires
        dfa.table@.wf(),
        t.extracted_from(or_all(seq![char_model('a'), char_model('b')])),
        dfa.table.built_from(&t),
    ensures
        dfa.table@.accepts(w) == (w == seq!['a'] || w == seq!['b']),
{
    let d = dfa.table@;
    lemma_a_or_b_dfa_rows(dfa, t);
    let l125 = seq!['1', ',', '2', ',', '5'];
    let l34 = seq!['3', ',', '4'];
    let l46 = seq!['4', ',', '6'];
    let rs = or_row_start();
    let i0 = label_index(d.rows, l125);
    assert(has_label(d.rows, l125));
    assert(d.rows[i0].label == l125);
    assert(d.rows[i0] == rs);
    if w.len() == 0 {
        assert(w != seq!['a'] && w != seq!['b']);
    } else if w[0] != 'a' && w[0] != 'b' {
        assert(step(rs.transitions, w[0]) is None);
        assert(w != seq!['a'] && w != seq!['b']);
    } else {
        let l = if w[0] == 'a' { l34 } else { l46 };
        let j: int = if w[0] == 'a' { 0 } else { 1 };
        assert(rs.transitions[j] == (w[0], l));
        crate::dfa::lemma_step_index(rs.transitions, w[0], j);
        assert(has_label(d.rows, l)) by {
            assert(has_label(d.rows, d.rows[i0].transitions[j].1));
        }
        let i1 = label_index(d.rows, l);
        assert(d.rows[i1].label == l);
        assert(d.rows[i1] == or_row_end(l));
        let w1 = w.drop_first();
        if w1.len() == 0 {
            assert(d.run(l, w1) == Some(l));
            if w[0] == 'a' {
                assert(w =~= seq!['a']);
            } else {
                assert(w =~= seq!['b']);
            }
        } else {
            assert(step(or_row_end(l).transitions, w1[0]) is None);
            assert(d.run(l, w1) is None);
            assert(w.len() != 1);
        }
    }
}

} // verus!

verus! {

/// The fragment of `a|bc`, state by state: the `a` branch, the `bc`
/// branch, then the fork and the join.
pub open spec fn a_or_bc_model() -> NfaModel {
    NfaModel {
        states: seq![
            StateModel { accepting: false, edges: seq![('a', seq![1usize])] },
            StateModel { accepting: false, edges: seq![(EPSILON, seq![7usize])] },
            StateModel { accepting: false, edges: seq![('b', seq![3usize])] },
            StateModel { accepting: false, edges: seq![(EPSILON, seq![4usize])] },
            StateModel { accepting: false, edges: seq![('c', seq![5usize])] },
            StateModel { accepting: false, edges: seq![(EPSILON, seq![7usize])] },
            StateModel { accepting: false, edges: seq![(EPSILON, seq![0usize, 2usize])] },
            StateModel { accepting: true, edges: Seq::empty() },
        ],
        entry: 6,
        exit: 7,
    }
}

proof fn lemma_a_or_bc_model()
    ensures
        or_all(seq![char_model('a'), concat_all(seq![char_model('b'), char_model('c')])])
            == a_or_bc_model(),
{
    let bc = concat_all(seq![char_model('b'), char_model('c')]);
    let cs = seq![char_model('b'), char_model('c')];
    assert(cs.drop_last() =~= seq![char_model('b')]);
    let b = char_model('b');
    let c = char_model('c');
    let e = Seq::<(char, Seq<usize>)>::empty();
    assert(b.states[1].edges =~= e);
    assert(!has_symbol(e, EPSILON));
    assert(add_edge(e, EPSILON, 2) =~= seq![(EPSILON, seq![2usize])]);
    let sc = crate::nfa::shift_states(c.states, 2);
    assert(c.states[0].edges[0].1 =~= seq![1usize]);
    assert(sc[0].edges[0].1 =~= seq![3usize]);
    assert(sc[0].edges =~= seq![('c', seq![3usize])]);
    assert(sc[1].edges =~= e);
    let bcm = NfaModel {
        states: seq![
            StateModel { accepting: false, edges: seq![('b', seq![1usize])] },
            StateModel { accepting: false, edges: seq![(EPSILON, seq![2usize])] },
            StateModel { accepting: false, edges: seq![('c', seq![3usize])] },
            StateModel { accepting: true, edges: Seq::empty() },
        ],
        entry: 0,
        exit: 3,
    };
    let cm = crate::nfa::concat_model(b, c);
    assert(cm.states[0] == bcm.states[0]);
    assert(cm.states[1] == bcm.states[1]);
    assert(cm.states[2] == bcm.states[2]);
    assert(cm.states[3] == bcm.states[3]);
    assert(cm.states =~= bcm.states);
    assert(concat_all(cs.drop_last()) == b);
    assert(bc == bcm);
    let ms = seq![char_model('a'), bc];
    assert(ms.drop_last() =~= seq![char_model('a')]);
    let a = char_model('a');
    let o = or_model(a, bcm);
    assert(a.states[1].edges =~= e);
    assert(add_edge(e, EPSILON, 7) =~= seq![(EPSILON, seq![7usize])]);
    let sb = crate::nfa::shift_states(bcm.states, 2);
    assert(sb[0].edges[0].1 =~= seq![3usize]);
    assert(sb[0].edges =~= seq![('b', seq![3usize])]);
    assert(sb[1].edges[0].1 =~= seq![4usize]);
    assert(sb[1].edges =~= seq![(EPSILON, seq![4usize])]);
    assert(sb[2].edges[0].1 =~= seq![5usize]);
    assert(sb[2].edges =~= seq![('c', seq![5usize])]);
    assert(sb[3].edges =~= e);
    let want = a_or_bc_model();
    assert(o.states[0] == want.states[0]);
    assert(o.states[1] == want.states[1]);
    assert(o.states[2] == want.states[2]);
    assert(o.states[3] == want.states[3]);
    assert(o.states[4] == want.states[4]);
    assert(o.states[5] == want.states[5]);
    assert(o.states[6].edges[0].1 =~= seq![0usize, 2usize]);
    assert(o.states[6] == want.states[6]);
    assert(o.states[7] == want.states[7]);
    assert(o.states =~= want.states);
    assert(or_all(ms.drop_last()) == a);
    assert(ms.last() == bcm);
    assert(or_all(ms) == o);
}

/// Depth-first order of `a|bc`: the fork, the `a` branch, the join, then
/// the `bc` branch.
proof fn lemma_a_or_bc_order()
    ensures
        dfs_order(a_or_bc_model()) == seq![6usize, 0, 1, 7, 2, 3, 4, 5],
{
    let m = a_or_bc_model();
    let o1 = seq![6usize, 0];
    let o2 = seq![6usize, 0, 1];
    let o3 = seq![6usize, 0, 1, 7];
    let o4 = seq![6usize, 0, 1, 7, 2];
    let o5 = seq![6usize, 0, 1, 7, 2, 3];
    let o6 = seq![6usize, 0, 1, 7, 2, 3, 4];
    let o7 = seq![6usize, 0, 1, 7, 2, 3, 4, 5];
    assert(seq![6usize].push(0) =~= o1);
    assert(o1.push(1) =~= o2);
    assert(o2.push(7) =~= o3);
    assert(o3.push(2) =~= o4);
    assert(o4.push(3) =~= o5);
    assert(o5.push(4) =~= o6);
    assert(o6.push(5) =~= o7);
    assert(!seq![6usize].contains(0usize));
    assert(!o1.contains(1usize));
    assert(!o2.contains(7usize));
    assert(!o3.contains(2usize));
    assert(!o4.contains(3usize));
    assert(!o5.contains(4usize));
    assert(!o6.contains(5usize));
    assert(o7[3] == 7usize);
    assert(o7.contains(7usize));
    // The join.
    assert(dfs_from(m, 7, o3, 6) == dfs_edges(m, 7, 0, 0, o3, 6));
    assert(dfs_edges(m, 7, 0, 0, o3, 6) == o3);
    // The `a` branch.
    assert(dfs_edges(m, 1, 0, 1, o3, 7) == dfs_edges(m, 1, 1, 0, o3, 7));
    assert(dfs_edges(m, 1, 1, 0, o3, 7) == o3);
    assert(dfs_edges(m, 1, 0, 0, o2, 7) == dfs_edges(m, 1, 0, 1, dfs_from(m, 7, o3, 6), 7));
    assert(dfs_from(m, 1, o2, 7) == o3);
    assert(dfs_edges(m, 0, 0, 1, o3, 8) == dfs_edges(m, 0, 1, 0, o3, 8));
    assert(dfs_edges(m, 0, 1, 0, o3, 8) == o3);
    assert(dfs_edges(m, 0, 0, 0, o1, 8) == dfs_edges(m, 0, 0, 1, dfs_from(m, 1, o2, 7), 8));
    assert(dfs_from(m, 0, o1, 8) == o3);
    // The `bc` branch.
    assert(dfs_edges(m, 5, 0, 1, o7, 5) == dfs_edges(m, 5, 1, 0, o7, 5));
    assert(dfs_edges(m, 5, 1, 0, o7, 5) == o7);
    assert(dfs_edges(m, 5, 0, 0, o7, 5) == dfs_edges(m, 5, 0, 1, o7, 5));
    assert(dfs_from(m, 5, o7, 5) == o7);
    assert(dfs_edges(m, 4, 0, 1, o7, 6) == dfs_edges(m, 4, 1, 0, o7, 6));
    assert(dfs_edges(m, 4, 1, 0, o7, 6) == o7);
    assert(dfs_edges(m, 4, 0, 0, o6, 6) == dfs_edges(m, 4, 0, 1, dfs_from(m, 5, o7, 5), 6));
    assert(dfs_from(m, 4, o6, 6) == o7);
    assert(dfs_edges(m, 3, 0, 1, o7, 7) == dfs_edges(m, 3, 1, 0, o7, 7));
    assert(dfs_edges(m, 3, 1, 0, o7, 7) == o7);
    assert(dfs_edges(m, 3, 0, 0, o5, 7) == dfs_edges(m, 3, 0, 1, dfs_from(m, 4, o6, 6), 7));
    assert(dfs_from(m, 3, o5, 7) == o7);
    assert(dfs_edges(m, 2, 0, 1, o7, 8) == dfs_edges(m, 2, 1, 0, o7, 8));
    assert(dfs_edges(m, 2, 1, 0, o7, 8) == o7);
    assert(dfs_edges(m, 2, 0, 0, o4, 8) == dfs_edges(m, 2, 0, 1, dfs_from(m, 3, o5, 7), 8));
    assert(dfs_from(m, 2, o4, 8) == o7);
    // The fork.
    assert(dfs_edges(m, 6, 0, 2, o7, 9) == dfs_edges(m, 6, 1, 0, o7, 9));
    assert(dfs_edges(m, 6, 1, 0, o7, 9) == o7);
    assert(dfs_edges(m, 6, 0, 1, o3, 9) == dfs_edges(m, 6, 0, 2, dfs_from(m, 2, o4, 8), 9));
    assert(dfs_edges(m, 6, 0, 0, seq![6usize], 9) == dfs_edges(m, 6, 0, 1, dfs_from(m, 0, o1, 8), 9));
    assert(dfs_from(m, 6, seq![6usize], 9) == o7);
}

} // verus!

verus! {

pub open spec fn a_or_bc_rows() -> Seq<NFARowModel> {
    seq![
        NFARowModel { accepting: false, epsilon: seq![1usize, 2, 5], symbols: Seq::empty() },
        NFARowModel { accepting: false, epsilon: seq![2usize], symbols: seq![('a', seq![3usize])] },
        NFARowModel { accepting: false, epsilon: seq![3usize, 4], symbols: Seq::empty() },
        NFARowModel { accepting: true, epsilon: seq![4usize], symbols: Seq::empty() },
        NFARowModel { accepting: false, epsilon: seq![5usize], symbols: seq![('b', seq![6usize])] },
        NFARowModel { accepting: false, epsilon: seq![6usize, 7], symbols: Seq::empty() },
        NFARowModel { accepting: false, epsilon: seq![7usize], symbols: seq![('c', seq![8usize])] },
        NFARowModel { accepting: false, epsilon: seq![8usize, 4], symbols: Seq::empty() },
    ]
}

/// The rows of the table of the fragment of `a|bc`.
#[verifier::spinoff_prover]
#[verifier::rlimit(50)]
proof fn lemma_a_or_bc_table(t: NFATable)
    requires
        t.extracted_from(a_or_bc_model()),
    ensures
        rows_model(t.table@) == a_or_bc_rows(),
{
    let m = a_or_bc_model();
    lemma_a_or_bc_order();
    let order = t.visit_order@;
    let ids = t.state_ids@;
    assert(order == seq![6usize, 0, 1, 7, 2, 3, 4, 5]);
    assert(ids[order[0] as int] == 1);
    assert(ids[order[1] as int] == 2);
    assert(ids[order[2] as int] == 3);
    assert(ids[order[3] as int] == 4);
    assert(ids[order[4] as int] == 5);
    assert(ids[order[5] as int] == 6);
    assert(ids[order[6] as int] == 7);
    assert(ids[order[7] as int] == 8);
    let rows = rows_model(t.table@);
    let e = Seq::<(char, Seq<usize>)>::empty();
    assert forall|k: int| 0 <= k < 8 implies #[trigger] rows[k] == row_of(m, order[k] as int, ids) by {}
    let s0 = m.states[0].edges;
    let s1 = m.states[1].edges;
    let s2 = m.states[2].edges;
    let s3 = m.states[3].edges;
    let s4 = m.states[4].edges;
    let s5 = m.states[5].edges;
    let s6 = m.states[6].edges;
    crate::state::lemma_symbol_pos_unique(s1, EPSILON, 0);
    crate::state::lemma_symbol_pos_unique(s3, EPSILON, 0);
    crate::state::lemma_symbol_pos_unique(s5, EPSILON, 0);
    crate::state::lemma_symbol_pos_unique(s6, EPSILON, 0);
    assert(!has_symbol(s0, EPSILON));
    assert(!has_symbol(s2, EPSILON));
    assert(!has_symbol(s4, EPSILON));
    assert(map_ids(seq![0usize, 2], ids) =~= seq![2usize, 5]);
    assert(map_ids(seq![7usize], ids) =~= seq![4usize]);
    assert(map_ids(seq![4usize], ids) =~= seq![7usize]);
    assert(map_ids(seq![1usize], ids) =~= seq![3usize]);
    assert(map_ids(seq![3usize], ids) =~= seq![6usize]);
    assert(map_ids(seq![5usize], ids) =~= seq![8usize]);
    assert(epsilon_column(m.states[6], 1, ids) =~= seq![1usize, 2, 5]);
    assert(epsilon_column(m.states[0], 2, ids) =~= seq![2usize]);
    assert(epsilon_column(m.states[1], 3, ids) =~= seq![3usize, 4]);
    assert(epsilon_column(m.states[7], 4, ids) =~= seq![4usize]);
    assert(epsilon_column(m.states[2], 5, ids) =~= seq![5usize]);
    assert(epsilon_column(m.states[3], 6, ids) =~= seq![6usize, 7]);
    assert(epsilon_column(m.states[4], 7, ids) =~= seq![7usize]);
    assert(epsilon_column(m.states[5], 8, ids) =~= seq![8usize, 4]);
    assert(s0.drop_last() =~= e);
    assert(s1.drop_last() =~= e);
    assert(s2.drop_last() =~= e);
    assert(s3.drop_last() =~= e);
    assert(s4.drop_last() =~= e);
    assert(s5.drop_last() =~= e);
    assert(s6.drop_last() =~= e);
    assert(crate::nfa_table::symbol_column(s0.last(), ids) == Some(('a', seq![3usize])));
    assert(crate::nfa_table::symbol_column(s2.last(), ids) == Some(('b', seq![6usize])));
    assert(crate::nfa_table::symbol_column(s4.last(), ids) == Some(('c', seq![8usize])));
    assert(symbol_columns(e, ids) =~= e);
    assert(symbol_columns(s0, ids) =~= seq![('a', seq![3usize])]);
    assert(symbol_columns(s1, ids) =~= e);
    assert(symbol_columns(s2, ids) =~= seq![('b', seq![6usize])]);
    assert(symbol_columns(s3, ids) =~= e);
    assert(symbol_columns(s4, ids) =~= seq![('c', seq![8usize])]);
    assert(symbol_columns(s5, ids) =~= e);
    assert(symbol_columns(s6, ids) =~= e);
    assert(symbol_columns(m.states[7].edges, ids) =~= e);
    assert(rows =~= a_or_bc_rows());
}

} // verus!

verus! {

/// The alphabet of the table of `a|bc`.
proof fn lemma_a_or_bc_alphabet(rows: Seq<NFARowModel>, alpha: Seq<char>)
    requires
        rows == a_or_bc_rows(),
        is_alphabet(rows, alpha),
    ensures
        alpha == seq!['a', 'b', 'c'],
{
    assert(rows[1].symbols[0].0 == 'a');
    assert(rows[4].symbols[0].0 == 'b');
    assert(rows[6].symbols[0].0 == 'c');
    assert(crate::dfa_table::in_alphabet(rows, 'a'));
    assert(crate::dfa_table::in_alphabet(rows, 'b'));
    assert(crate::dfa_table::in_alphabet(rows, 'c'));
    assert(alpha.contains('a') && alpha.contains('b') && alpha.contains('c'));
    assert forall|i: int| 0 <= i < alpha.len() implies alpha[i] == 'a' || alpha[i] == 'b' || alpha[i] == 'c' by {
        assert(alpha.contains(alpha[i]));
        assert(crate::dfa_table::in_alphabet(rows, alpha[i]));
        let (k, j) = choose|k: int, j: int|
            0 <= k < rows.len() && 0 <= j < rows[k].symbols.len() && #[trigger] rows[k].symbols[j].0
                == alpha[i];
    }
    let ia = choose|i: int| 0 <= i < alpha.len() && alpha[i] == 'a';
    let ib = choose|i: int| 0 <= i < alpha.len() && alpha[i] == 'b';
    let ic = choose|i: int| 0 <= i < alpha.len() && alpha[i] == 'c';
    if alpha.len() >= 4 {
        assert((alpha[0] as int) < (alpha[1] as int));
        assert((alpha[1] as int) < (alpha[2] as int));
        assert((alpha[2] as int) < (alpha[3] as int));
    }
    assert(alpha.len() == 3);
    assert(ia < ib) by {
        if ib < ia {
            assert((alpha[ib] as int) < (alpha[ia] as int));
        }
    }
    assert(ib < ic) by {
        if ic < ib {
            assert((alpha[ic] as int) < (alpha[ib] as int));
        }
    }
    assert(alpha =~= seq!['a', 'b', 'c']);
}

pub open spec fn bc_row_start() -> DfaRowModel {
    DfaRowModel {
        label: seq!['1', ',', '2', ',', '5'],
        accepting: false,
        transitions: seq![('a', seq!['3', ',', '4']), ('b', seq!['6', ',', '7'])],
    }
}

pub open spec fn bc_row_middle() -> DfaRowModel {
    DfaRowModel {
        label: seq!['6', ',', '7'],
        accepting: false,
        transitions: seq![('c', seq!['4', ',', '8'])],
    }
}

/// The labels of the composite states of `a|bc`.
proof fn lemma_a_or_bc_labels(rows: Seq<NFARowModel>)
    requires
        rows == a_or_bc_rows(),
    ensures
        set_of(rows, 0) == seq![1usize, 2, 5],
        set_of(rows, 2) == seq![3usize, 4],
        set_of(rows, 5) == seq![6usize, 7],
        set_of(rows, 7) == seq![4usize, 8],
        join_ids(seq![1usize, 2, 5]) == seq!['1', ',', '2', ',', '5'],
        join_ids(seq![3usize, 4]) == seq!['3', ',', '4'],
        join_ids(seq![6usize, 7]) == seq!['6', ',', '7'],
        join_ids(seq![4usize, 8]) == seq!['4', ',', '8'],
        join_ids(set_of(rows, 1)).len() == 1,
        join_ids(set_of(rows, 3)).len() == 1,
        join_ids(set_of(rows, 4)).len() == 1,
        join_ids(set_of(rows, 6)).len() == 1,
{
    let s125 = seq![1usize, 2, 5];
    let s34 = seq![3usize, 4];
    let s67 = seq![6usize, 7];
    let s48 = seq![4usize, 8];
    lemma_canonical(s125, s125);
    lemma_canonical(seq![2usize], seq![2usize]);
    lemma_canonical(s34, s34);
    lemma_canonical(seq![4usize], seq![4usize]);
    lemma_canonical(seq![5usize], seq![5usize]);
    lemma_canonical(s67, s67);
    lemma_canonical(seq![7usize], seq![7usize]);
    assert(crate::dfa_table::same_ids(s48, seq![8usize, 4])) by {
        assert forall|x: usize| s48.contains(x) <==> seq![8usize, 4].contains(x) by {
            if s48.contains(x) {
                let i = choose|i: int| 0 <= i < 2 && s48[i] == x;
                if i == 0 {
                    assert(seq![8usize, 4][1] == x);
                } else {
                    assert(seq![8usize, 4][0] == x);
                }
            }
            if seq![8usize, 4].contains(x) {
                let i = choose|i: int| 0 <= i < 2 && seq![8usize, 4][i] == x;
                if i == 0 {
                    assert(s48[1] == x);
                } else {
                    assert(s48[0] == x);
                }
            }
        }
    }
    lemma_canonical(s48, seq![8usize, 4]);
    assert(decimal(1) == seq!['1'] && decimal(2) == seq!['2'] && decimal(3) == seq!['3']);
    assert(decimal(4) == seq!['4'] && decimal(5) == seq!['5'] && decimal(6) == seq!['6']);
    assert(decimal(7) == seq!['7'] && decimal(8) == seq!['8']);
    assert(join_ids(seq![1usize]) == decimal(1));
    assert(join_ids(seq![3usize]) == decimal(3));
    assert(join_ids(seq![4usize]) == decimal(4));
    assert(join_ids(seq![6usize]) == decimal(6));
    assert(seq![1usize, 2].last() == 2 && s125.last() == 5 && s34.last() == 4);
    assert(s67.last() == 7 && s48.last() == 8);
    assert(s125.drop_last() =~= seq![1usize, 2]);
    assert(seq![1usize, 2].drop_last() =~= seq![1usize]);
    assert(join_ids(seq![1usize, 2]) =~= seq!['1', ',', '2']);
    assert(join_ids(s125) =~= seq!['1', ',', '2', ',', '5']);
    assert(s34.drop_last() =~= seq![3usize]);
    assert(join_ids(s34) =~= seq!['3', ',', '4']);
    assert(s67.drop_last() =~= seq![6usize]);
    assert(join_ids(s67) =~= seq!['6', ',', '7']);
    assert(s48.drop_last() =~= seq![4usize]);
    assert(join_ids(s48) =~= seq!['4', ',', '8']);
    assert(join_ids(seq![2usize]).len() == 1);
    assert(join_ids(seq![4usize]).len() == 1);
    assert(join_ids(seq![5usize]).len() == 1);
    assert(join_ids(seq![7usize]).len() == 1);
}

/// The rows of the DFA of `a|bc` for the start and the states after it.
#[verifier::spinoff_prover]
#[verifier::rlimit(80)]
proof fn lemma_a_or_bc_composites(rows: Seq<NFARowModel>, alpha: Seq<char>)
    requires
        rows == a_or_bc_rows(),
        alpha == seq!['a', 'b', 'c'],
    ensures
        dfa_row_of(rows, alpha, set_of(rows, 0)) == bc_row_start(),
        dfa_row_of(rows, alpha, set_of(rows, 2)) == or_row_end(seq!['3', ',', '4']),
        dfa_row_of(rows, alpha, set_of(rows, 5)) == bc_row_middle(),
        dfa_row_of(rows, alpha, set_of(rows, 7)) == or_row_end(seq!['4', ',', '8']),
{
    lemma_a_or_bc_labels(rows);
    let s125 = seq![1usize, 2, 5];
    let s34 = seq![3usize, 4];
    let s67 = seq![6usize, 7];
    let s48 = seq![4usize, 8];
    let l34 = seq!['3', ',', '4'];
    let l67 = seq!['6', ',', '7'];
    let l48 = seq!['4', ',', '8'];
    let e = Seq::<(char, Seq<usize>)>::empty();
    assert(rows[1].symbols.drop_first() =~= e);
    assert(rows[4].symbols.drop_first() =~= e);
    assert(rows[6].symbols.drop_first() =~= e);
    assert(column(e, 'a') is None && column(e, 'b') is None && column(e, 'c') is None);
    assert(column(rows[0].symbols, 'c') is None);
    assert(column(rows[1].symbols, 'a') == Some(seq![3usize]));
    assert(column(rows[1].symbols, 'c') is None);
    assert(column(rows[2].symbols, 'a') is None);
    assert(column(rows[4].symbols, 'a') is None);
    assert(column(rows[4].symbols, 'b') == Some(seq![6usize]));
    assert(column(rows[4].symbols, 'c') is None);
    assert(column(rows[5].symbols, 'a') is None);
    assert(column(rows[5].symbols, 'b') is None);
    assert(column(rows[5].symbols, 'c') is None);
    assert(column(rows[6].symbols, 'a') is None);
    assert(column(rows[6].symbols, 'b') is None);
    assert(column(rows[6].symbols, 'c') == Some(seq![8usize]));
    assert(column(rows[7].symbols, 'c') is None);
    // From the start.
    assert(s125.drop_last() =~= seq![1usize, 2]);
    assert(seq![1usize, 2].drop_last() + seq![3usize] =~= seq![1usize, 3]);
    assert(search(rows, 'a', seq![1usize, 3], true, 9) == Some(2int));
    assert(search(rows, 'a', seq![1usize, 2], false, 10) == Some(2int));
    assert(successor(rows, s125, 'a') == Some(2int));
    assert(s125.drop_last() + seq![6usize] =~= seq![1usize, 2, 6]);
    assert(search(rows, 'b', seq![1usize, 2, 6], true, 10) == Some(5int));
    assert(successor(rows, s125, 'b') == Some(5int));
    assert(seq![1usize, 2].drop_last() =~= seq![1usize]);
    assert(seq![1usize].drop_last() =~= Seq::<usize>::empty());
    assert(search(rows, 'c', Seq::<usize>::empty(), false, 8) is None);
    assert(search(rows, 'c', seq![1usize], false, 9) is None);
    assert(search(rows, 'c', seq![1usize, 2], false, 10) is None);
    assert(successor(rows, s125, 'c') is None);
    // From `6,7`.
    assert(s67.drop_last() =~= seq![6usize]);
    assert(seq![6usize].drop_last() =~= Seq::<usize>::empty());
    assert(search(rows, 'a', Seq::<usize>::empty(), false, 8) is None);
    assert(search(rows, 'a', seq![6usize], false, 9) is None);
    assert(successor(rows, s67, 'a') is None);
    assert(search(rows, 'b', Seq::<usize>::empty(), false, 8) is None);
    assert(search(rows, 'b', seq![6usize], false, 9) is None);
    assert(successor(rows, s67, 'b') is None);
    assert(s67.drop_last() + seq![8usize] =~= seq![6usize, 8]);
    assert(search(rows, 'c', seq![6usize, 8], true, 9) == Some(7int));
    assert(successor(rows, s67, 'c') == Some(7int));
    // Accepting sets.
    assert(!set_accepting(rows, s125));
    assert(!set_accepting(rows, s67));
    assert(set_accepting(rows, s34)) by {
        assert(s34[1] == 4);
    }
    assert(set_accepting(rows, s48)) by {
        assert(s48[0] == 4);
    }
    assert(transition_of(rows, s125, 'a') == Some(('a', l34)));
    assert(transition_of(rows, s125, 'b') == Some(('b', l67)));
    assert(transition_of(rows, s125, 'c') is None);
    assert(transition_of(rows, s67, 'a') is None);
    assert(transition_of(rows, s67, 'b') is None);
    assert(transition_of(rows, s67, 'c') == Some(('c', l48)));
    let a1 = alpha.drop_last();
    let a0 = a1.drop_last();
    assert(a1 =~= seq!['a', 'b']);
    assert(a0 =~= seq!['a']);
    assert(a0.drop_last() =~= Seq::<char>::empty());
    assert(row_transitions(rows, s125, alpha) =~= seq![('a', l34), ('b', l67)]) by {
        assert(row_transitions(rows, s125, a0.drop_last()) =~= Seq::empty());
        assert(row_transitions(rows, s125, a0) =~= seq![('a', l34)]);
        assert(row_transitions(rows, s125, a1) =~= seq![('a', l34), ('b', l67)]);
    }
    assert(row_transitions(rows, s67, alpha) =~= seq![('c', l48)]) by {
        assert(row_transitions(rows, s67, a0.drop_last()) =~= Seq::empty());
        assert(row_transitions(rows, s67, a0) =~= Seq::empty());
        assert(row_transitions(rows, s67, a1) =~= Seq::empty());
    }
    assert(dfa_row_of(rows, alpha, s125) == bc_row_start());
    assert(dfa_row_of(rows, alpha, s34) == or_row_end(l34));
    assert(dfa_row_of(rows, alpha, s67) == bc_row_middle());
    assert(dfa_row_of(rows, alpha, s48) == or_row_end(l48));
}

} // verus!

verus! {

/// The rows of the DFA of `a|bc` that a walk from the start can meet.
#[verifier::spinoff_prover]
#[verifier::rlimit(100)]
proof fn lemma_a_or_bc_dfa_rows(dfa: DFA, t: NFATable)
    requires
        t.extracted_from(
            or_all(seq![char_model('a'), concat_all(seq![char_model('b'), char_model('c')])]),
        ),
        dfa.table.built_from(&t),
    ensures
        dfa.table@.start == seq!['1', ',', '2', ',', '5'],
        forall|i: int|
            0 <= i < dfa.table@.rows.len() ==> {
                let r = #[trigger] dfa.table@.rows[i];
                &&& r.label == seq!['1', ',', '2', ',', '5'] ==> r == bc_row_start()
                &&& r.label == seq!['3', ',', '4'] ==> r == or_row_end(seq!['3', ',', '4'])
                &&& r.label == seq!['6', ',', '7'] ==> r == bc_row_middle()
                &&& r.label == seq!['4', ',', '8'] ==> r == or_row_end(seq!['4', ',', '8'])
            },
{
    let d = dfa.table@;
    lemma_a_or_bc_model();
    lemma_a_or_bc_table(t);
    let rows = rows_model(t.table@);
    let (alpha, origins, ranks) = choose|alpha: Seq<char>, origins: Seq<usize>, ranks: Seq<int>|
        is_alphabet(rows, alpha) && subset_table(rows, alpha, d, origins, ranks);
    lemma_a_or_bc_alphabet(rows, alpha);
    lemma_a_or_bc_labels(rows);
    lemma_a_or_bc_composites(rows, alpha);
    let l125 = seq!['1', ',', '2', ',', '5'];
    let l34 = seq!['3', ',', '4'];
    let l67 = seq!['6', ',', '7'];
    let l48 = seq!['4', ',', '8'];
    assert(d.start == l125);
    assert forall|i: int| 0 <= i < d.rows.len() implies {
        let r = #[trigger] d.rows[i];
        &&& r.label == l125 ==> r == bc_row_start()
        &&& r.label == l34 ==> r == or_row_end(l34)
        &&& r.label == l67 ==> r == bc_row_middle()
        &&& r.label == l48 ==> r == or_row_end(l48)
    } by {
        let k = origins[i] as int;
        assert(d.rows[i] == dfa_row_of(rows, alpha, set_of(rows, k)));
        assert(0 <= k < 8);
        assert(d.rows[i].label == join_ids(set_of(rows, k)));
        assert(l34[0] != l67[0] && l34[0] != l48[0] && l67[0] != l48[0]);
        if k == 1 || k == 3 || k == 4 || k == 6 {
            assert(d.rows[i].label.len() == 1);
        }
    }
}

/// The table of `a|bc` accepts exactly `a` and `bc`.
pub proof fn lemma_a_or_bc_matches(dfa: DFA, t: NFATable, w: Seq<char>)
    requires
        dfa.table@.wf(),
        t.extracted_from(
            or_all(seq![char_model('a'), concat_all(seq![char_model('b'), char_model('c')])]),
        ),
        dfa.table.built_from(&t),
    ensures
        dfa.table@.accepts(w) == (w == seq!['a'] || w == seq!['b', 'c']),
{
    let d = dfa.table@;
    lemma_a_or_bc_dfa_rows(dfa, t);
    let l125 = seq!['1', ',', '2', ',', '5'];
    let l34 = seq!['3', ',', '4'];
    let l67 = seq!['6', ',', '7'];
    let l48 = seq!['4', ',', '8'];
    let rs = bc_row_start();
    let rm = bc_row_middle();
    let i0 = label_index(d.rows, l125);
    assert(has_label(d.rows, l125));
    assert(d.rows[i0].label == l125);
    assert(d.rows[i0] == rs);
    if w.len() == 0 {
        assert(w != seq!['a'] && w != seq!['b', 'c']);
    } else if w[0] == 'a' {
        crate::dfa::lemma_step_index(rs.transitions, 'a', 0);
        assert(has_label(d.rows, l34)) by {
            assert(has_label(d.rows, d.rows[i0].transitions[0].1));
        }
        let i1 = label_index(d.rows, l34);
        assert(d.rows[i1].label == l34);
        assert(d.rows[i1] == or_row_end(l34));
        let w1 = w.drop_first();
        if w1.len() == 0 {
            assert(d.run(l34, w1) == Some(l34));
            assert(w =~= seq!['a']);
        } else {
            assert(step(or_row_end(l34).transitions, w1[0]) is None);
            assert(d.run(l34, w1) is None);
            assert(w.len() != 1 && w[0] != 'b');
        }
    } else if w[0] == 'b' {
        crate::dfa::lemma_step_index(rs.transitions, 'b', 1);
        assert(has_label(d.rows, l67)) by {
            assert(has_label(d.rows, d.rows[i0].transitions[1].1));
        }
        let i1 = label_index(d.rows, l67);
        assert(d.rows[i1].label == l67);
        assert(d.rows[i1] == rm);
        let w1 = w.drop_first();
        if w1.len() == 0 {
            assert(d.run(l67, w1) == Some(l67));
            assert(w != seq!['a'] && w != seq!['b', 'c']);
        } else if w1[0] != 'c' {
            assert(step(rm.transitions, w1[0]) is None);
            assert(w[1] == w1[0]);
            assert(w != seq!['b', 'c']);
        } else {
            crate::dfa::lemma_step_index(rm.transitions, 'c', 0);
            assert(has_label(d.rows, l48)) by {
                assert(has_label(d.rows, d.rows[i1].transitions[0].1));
            }
            let i2 = label_index(d.rows, l48);
            assert(d.rows[i2].label == l48);
            assert(d.rows[i2] == or_row_end(l48));
            let w2 = w1.drop_first();
            if w2.len() == 0 {
                assert(w =~= seq!['b', 'c']);
                assert(d.run(l48, w2) == Some(l48));
            } else {
                assert(step(or_row_end(l48).transitions, w2[0]) is None);
                assert(d.run(l48, w2) is None);
                assert(w.len() != 2);
            }
        }
    } else {
        assert(step(rs.transitions, w[0]) is None);
        assert(w != seq!['a'] && w != seq!['b', 'c']);
    }
}

} // verus!
