use vstd::prelude::*;

use crate::dfa_table::{
    dfa_rows_model, has_label, label_index, step, symbols_sorted, transitions_model, DFARow,
    DFATable, DfaModel, DfaRowModel,
};
use crate::dfa_table::{group_label, groups_model, names_model};
use crate::label::lex_lt;
use crate::nfa::NFA;
use crate::nfa_table::NFATable;

verus! {

/// The row of label `l` is the one at index `i`.
pub proof fn lemma_label_index(d: DfaModel, l: Seq<char>, i: int)
    requires
        d.wf(),
        0 <= i < d.rows.len(),
        d.rows[i].label == l,
    ensures
        has_label(d.rows, l),
        label_index(d.rows, l) == i,
{
    let j = label_index(d.rows, l);
    assert(0 <= j < d.rows.len() && d.rows[j].label == l);
    if j < i {
        assert(lex_lt(d.rows[j].label, d.rows[i].label));
        crate::label::lemma_lex_irreflexive(l);
    } else if j > i {
        assert(lex_lt(d.rows[i].label, d.rows[j].label));
        crate::label::lemma_lex_irreflexive(l);
    }
}

/// The transition on `c` is the one at index `i`.
pub proof fn lemma_step_index(ts: Seq<(char, Seq<char>)>, c: char, i: int)
    requires
        symbols_sorted(ts),
        0 <= i < ts.len(),
        ts[i].0 == c,
    ensures
        step(ts, c) == Some(ts[i].1),
{
    let j = choose|j: int| 0 <= j < ts.len() && #[trigger] ts[j].0 == c;
    assert(0 <= j < ts.len() && ts[j].0 == c);
    if j < i {
        assert((ts[j].0 as int) < (ts[i].0 as int));
    } else if j > i {
        assert((ts[i].0 as int) < (ts[j].0 as int));
    }
}

/// The index of the row labelled `l`.
pub fn find_row(t: &DFATable, l: &String) -> (r: Option<usize>)
    requires
        t@.wf(),
    ensures
        match r {
            Some(i) => i < t.table@.len() && has_label(t@.rows, l@) && label_index(t@.rows, l@)
                == i,
            None => !has_label(t@.rows, l@),
        },
{
    let mut i: usize = 0;
    while i < t.table.len()
        invariant
            i <= t.table@.len(),
            t@.wf(),
            forall|q: int| 0 <= q < i ==> #[trigger] t@.rows[q].label != l@,
        decreases t.table@.len() - i,
    {
        assert(t@.rows[i as int] == t.table@[i as int]@);
        if t.table[i].label == *l {
            proof {
                lemma_label_index(t@, l@, i as int);
            }
            return Some(i);
        }
        i += 1;
    }
    None
}

/// The target of the transition on `c` of a row.
pub fn find_transition(row: &DFARow, c: char) -> (r: Option<&String>)
    requires
        symbols_sorted(row@.transitions),
    ensures
        match r {
            Some(s) => step(row@.transitions, c) == Some(s@),
            None => step(row@.transitions, c) is None,
        },
{
    let ghost ts = row@.transitions;
    let mut i: usize = 0;
    while i < row.transitions.len()
        invariant
            i <= row.transitions@.len(),
            ts == transitions_model(row.transitions@),
            symbols_sorted(ts),
            forall|q: int| 0 <= q < i ==> #[trigger] ts[q].0 != c,
        decreases row.transitions@.len() - i,
    {
        if row.transitions[i].0 == c {
            proof {
                lemma_step_index(ts, c, i as int);
            }
            return Some(&row.transitions[i].1);
        }
        i += 1;
    }
    None
}

/// A deterministic automaton, given by its transition table.
#[derive(Debug, Clone)]
pub struct DFA {
    pub table: DFATable,
}

impl DFA {
    /// Whether the automaton accepts `string`: walks from the start, one
    /// transition per character, and rejects as soon as one is missing.
    pub fn test(&self, string: &str) -> (r: bool)
        requires
            self.table@.wf(),
        ensures
            r == self.table@.accepts(string@),
    {
        let ghost d = self.table@;
        let ghost w = string@;
        let n = string.unicode_len();
        let mut state = self.table.starting_state.clone();
        let mut i: usize = 0;
        assert(w.subrange(0, n as int) =~= w);
        while i < n
            invariant
                d == self.table@,
                d.wf(),
                n == w.len(),
                w == string@,
                i <= n,
                has_label(d.rows, state@),
                d.run(d.start, w) == d.run(state@, w.subrange(i as int, n as int)),
            decreases n - i,
        {
            let c = string.get_char(i);
            let ghost rest = w.subrange(i as int, n as int);
            assert(rest[0] == c);
            assert(rest.drop_first() =~= w.subrange(i + 1, n as int));
            let k = match find_row(&self.table, &state) {
                Some(k) => k,
                None => {
                    return false;
                },
            };
            assert(d.rows[k as int] == self.table.table@[k as int]@);
            match find_transition(&self.table.table[k], c) {
                Some(next) => {
                    let next = next.clone();
                    proof {
                        let j = choose|j: int|
                            0 <= j < d.rows[k as int].transitions.len() && #[trigger] d.rows[k as int].transitions[j].0 == c;
                        assert(has_label(d.rows, d.rows[k as int].transitions[j].1));
                    }
                    state = next;
                },
                None => {
                    return false;
                },
            }
            i += 1;
        }
        assert(w.subrange(n as int, n as int).len() == 0);
        match find_row(&self.table, &state) {
            Some(k) => {
                assert(d.rows[k as int] == self.table.table@[k as int]@);
                self.table.table[k].accepting
            },
            None => false,
        }
    }
}

} // verus!

verus! {

// ---------------------------------------------------------------------------
// Minimization.

/// The target is a member of the group (a missing one never is).
pub open spec fn in_group(g: Seq<Seq<char>>, t: Option<Seq<char>>) -> bool {
    match t {
        Some(l) => g.contains(l),
        None => false,
    }
}

/// Two targets part two states: they differ, and one of them is not in the
/// group.
pub open spec fn targets_part(g: Seq<Seq<char>>, ta: Option<Seq<char>>, tb: Option<Seq<char>>) -> bool {
    ta != tb && (!in_group(g, ta) || !in_group(g, tb))
}

/// Some symbol parts rows `a` and `b`.
pub open spec fn rows_part(g: Seq<Seq<char>>, a: DfaRowModel, b: DfaRowModel) -> bool {
    exists|c: char| #[trigger] targets_part(g, step(a.transitions, c), step(b.transitions, c))
}

pub open spec fn row_labelled(d: DfaModel, l: Seq<char>) -> DfaRowModel {
    d.rows[label_index(d.rows, l)]
}

/// One refinement pass over the members `rest` of group `g`, compared in
/// turn with the representative `rep`: a member that parts from it is split
/// off, another one stays and becomes the representative. Gives the members
/// that stay and those split off, in order.
pub open spec fn pass(d: DfaModel, g: Seq<Seq<char>>, rep: Seq<char>, rest: Seq<Seq<char>>) -> (
    Seq<Seq<char>>,
    Seq<Seq<char>>,
)
    decreases rest.len(),
{
    if rest.len() == 0 {
        (Seq::empty(), Seq::empty())
    } else {
        let b = rest[0];
        if rows_part(g, row_labelled(d, rep), row_labelled(d, b)) {
            let (k, s) = pass(d, g, rep, rest.drop_first());
            (k, seq![b] + s)
        } else {
            let (k, s) = pass(d, g, b, rest.drop_first());
            (seq![b] + k, s)
        }
    }
}

pub open spec fn singletons(s: Seq<Seq<char>>) -> Seq<Seq<Seq<char>>> {
    s.map_values(|l: Seq<char>| seq![l])
}

/// The groups after one refinement step on the first group.
pub open spec fn refined(d: DfaModel, gs: Seq<Seq<Seq<char>>>) -> Seq<Seq<Seq<char>>> {
    let g = gs[0];
    let (k, s) = pass(d, g, g[0], g.drop_first());
    gs.update(0, seq![g[0]] + k) + singletons(s)
}

/// Whether a step on the first group splits some member off.
pub open spec fn splits(d: DfaModel, gs: Seq<Seq<Seq<char>>>) -> bool {
    gs.len() > 0 && gs[0].len() > 0 && pass(d, gs[0], gs[0][0], gs[0].drop_first()).1.len() > 0
}

/// Refinement steps until none splits (at most `fuel` of them).
pub open spec fn settle(d: DfaModel, gs: Seq<Seq<Seq<char>>>, fuel: nat) -> Seq<Seq<Seq<char>>>
    decreases fuel,
{
    if fuel == 0 || !splits(d, gs) {
        gs
    } else {
        settle(d, refined(d, gs), (fuel - 1) as nat)
    }
}

pub open spec fn labels_where(rows: Seq<DfaRowModel>, accepting: bool) -> Seq<Seq<char>> {
    rows.filter_map(|r: DfaRowModel| if r.accepting == accepting { Some(r.label) } else { None })
}

/// The first partition: the labels of the non-accepting rows, then those of
/// the accepting ones, each in table order.
pub open spec fn seed(d: DfaModel) -> Seq<Seq<Seq<char>>> {
    seq![labels_where(d.rows, false), labels_where(d.rows, true)]
}

/// The partition that minimization settles on.
pub open spec fn final_groups(d: DfaModel) -> Seq<Seq<Seq<char>>> {
    settle(d, seed(d), seed(d)[0].len())
}

/// Some group holds two or more labels, so that rows merge.
pub open spec fn collapses(gs: Seq<Seq<Seq<char>>>) -> bool {
    exists|i: int| 0 <= i < gs.len() && #[trigger] gs[i].len() >= 2
}

pub proof fn lemma_pass_len(d: DfaModel, g: Seq<Seq<char>>, rep: Seq<char>, rest: Seq<Seq<char>>)
    ensures
        pass(d, g, rep, rest).0.len() + pass(d, g, rep, rest).1.len() == rest.len(),
        forall|x: Seq<char>| pass(d, g, rep, rest).0.contains(x) ==> rest.contains(x),
    decreases rest.len(),
{
    if rest.len() > 0 {
        let b = rest[0];
        let r1 = rest.drop_first();
        if rows_part(g, row_labelled(d, rep), row_labelled(d, b)) {
            lemma_pass_len(d, g, rep, r1);
        } else {
            lemma_pass_len(d, g, b, r1);
        }
        assert forall|x: Seq<char>| pass(d, g, rep, rest).0.contains(x) implies rest.contains(x) by {
            let k = pass(d, g, rep, rest).0;
            let i = choose|i: int| 0 <= i < k.len() && k[i] == x;
            if rows_part(g, row_labelled(d, rep), row_labelled(d, b)) {
                let k1 = pass(d, g, rep, r1).0;
                assert(k == k1);
                assert(k1.contains(x));
                assert(r1.contains(x));
                let q = choose|q: int| 0 <= q < r1.len() && r1[q] == x;
                assert(rest[q + 1] == x);
            } else {
                let k1 = pass(d, g, b, r1).0;
                assert(k == seq![b] + k1);
                if i == 0 {
                    assert(rest[0] == x);
                } else {
                    assert(k1[i - 1] == x);
                    assert(k1.contains(x));
                    assert(r1.contains(x));
                    let q = choose|q: int| 0 <= q < r1.len() && r1[q] == x;
                    assert(rest[q + 1] == x);
                }
            }
        }
    }
}

} // verus!

verus! {

pub open spec fn target_view(t: Option<&String>) -> Option<Seq<char>> {
    match t {
        Some(s) => Some(s@),
        None => None,
    }
}

/// Whether `t` is a member of group `g`.
fn target_in_group(g: &Vec<String>, t: Option<&String>) -> (r: bool)
    ensures
        r == in_group(names_model(g@), target_view(t)),
{
    match t {
        None => false,
        Some(l) => {
            assert(target_view(t) == Some(l@));
            let mut i: usize = 0;
            while i < g.len()
                invariant
                    i <= g@.len(),
                    target_view(t) == Some(l@),
                    forall|q: int| 0 <= q < i ==> #[trigger] g@[q]@ != l@,
                decreases g@.len() - i,
            {
                if g[i] == *l {
                    assert(names_model(g@)[i as int] == l@);
                    assert(names_model(g@).contains(l@));
                    return true;
                }
                i += 1;
            }
            assert(!names_model(g@).contains(l@)) by {
                if names_model(g@).contains(l@) {
                    let q = choose|q: int| 0 <= q < g@.len() && names_model(g@)[q] == l@;
                    assert(names_model(g@)[q] == g@[q]@);
                }
            }
            false
        },
    }
}

/// Whether some symbol parts rows `a` and `b`, judged against group `g`.
fn rows_differ(g: &Vec<String>, a: &DFARow, b: &DFARow) -> (r: bool)
    requires
        symbols_sorted(a@.transitions),
        symbols_sorted(b@.transitions),
    ensures
        r == rows_part(names_model(g@), a@, b@),
{
    let ghost gm = names_model(g@);
    let ghost ta = a@.transitions;
    let ghost tb = b@.transitions;
    let mut i: usize = 0;
    while i < a.transitions.len()
        invariant
            i <= a.transitions@.len(),
            gm == names_model(g@),
            ta == a@.transitions,
            tb == b@.transitions,
            symbols_sorted(ta),
            symbols_sorted(tb),
            forall|q: int|
                0 <= q < i ==> !targets_part(gm, step(ta, #[trigger] ta[q].0), step(tb, ta[q].0)),
        decreases a.transitions@.len() - i,
    {
        let c = a.transitions[i].0;
        proof {
            lemma_step_index(ta, c, i as int);
        }
        let x = Some(&a.transitions[i].1);
        let y = find_transition(b, c);
        let differ = !(x.is_some() && y.is_some() && *x.unwrap() == *y.unwrap()) && !(x.is_none() && y.is_none());
        if differ && (!target_in_group(g, x) || !target_in_group(g, y)) {
            assert(targets_part(gm, step(ta, c), step(tb, c)));
            return true;
        }
        proof {
            assert(!targets_part(gm, step(ta, c), step(tb, c)));
        }
        i += 1;
    }
    let mut j: usize = 0;
    while j < b.transitions.len()
        invariant
            j <= b.transitions@.len(),
            gm == names_model(g@),
            ta == a@.transitions,
            tb == b@.transitions,
            symbols_sorted(ta),
            symbols_sorted(tb),
            forall|q: int|
                0 <= q < ta.len() ==> !targets_part(gm, step(ta, #[trigger] ta[q].0), step(tb, ta[q].0)),
            forall|q: int|
                0 <= q < j ==> !targets_part(gm, step(ta, #[trigger] tb[q].0), step(tb, tb[q].0)),
        decreases b.transitions@.len() - j,
    {
        let c = b.transitions[j].0;
        proof {
            lemma_step_index(tb, c, j as int);
        }
        let y = Some(&b.transitions[j].1);
        let x = find_transition(a, c);
        let differ = !(x.is_some() && y.is_some() && *x.unwrap() == *y.unwrap()) && !(x.is_none() && y.is_none());
        if differ && (!target_in_group(g, x) || !target_in_group(g, y)) {
            assert(targets_part(gm, step(ta, c), step(tb, c)));
            return true;
        }
        j += 1;
    }
    proof {
        assert forall|c: char| !#[trigger] targets_part(gm, step(ta, c), step(tb, c)) by {
            if exists|q: int| 0 <= q < ta.len() && #[trigger] ta[q].0 == c {
                let q = choose|q: int| 0 <= q < ta.len() && #[trigger] ta[q].0 == c;
                assert(!targets_part(gm, step(ta, ta[q].0), step(tb, ta[q].0)));
            } else if exists|q: int| 0 <= q < tb.len() && #[trigger] tb[q].0 == c {
                let q = choose|q: int| 0 <= q < tb.len() && #[trigger] tb[q].0 == c;
                assert(!targets_part(gm, step(ta, tb[q].0), step(tb, tb[q].0)));
            } else {
                assert(step(ta, c) is None);
                assert(step(tb, c) is None);
            }
        }
    }
    false
}

} // verus!

verus! {

pub proof fn lemma_labels_where(rows: Seq<DfaRowModel>, b: bool)
    ensures
        forall|i: int|
            0 <= i < labels_where(rows, b).len() ==> has_label(rows, #[trigger] labels_where(rows, b)[i]),
    decreases rows.len(),
{
    if rows.len() > 0 {
        let r0 = rows.drop_last();
        lemma_labels_where(r0, b);
        let lw = labels_where(rows, b);
        let l0 = labels_where(r0, b);
        assert forall|i: int| 0 <= i < lw.len() implies has_label(rows, #[trigger] lw[i]) by {
            if i < l0.len() {
                assert(lw[i] == l0[i]);
                assert(has_label(r0, l0[i]));
                let k = choose|k: int| 0 <= k < r0.len() && #[trigger] r0[k].label == l0[i];
                assert(rows[k] == r0[k]);
            } else {
                assert(lw[i] == rows.last().label);
                assert(rows[rows.len() - 1].label == lw[i]);
            }
        }
    }
}

/// A copy of the labels.
fn copy_labels(v: &Vec<String>) -> (r: Vec<String>)
    ensures
        names_model(r@) == names_model(v@),
{
    let mut r: Vec<String> = Vec::new();
    let mut i: usize = 0;
    while i < v.len()
        invariant
            i <= v@.len(),
            names_model(r@) == names_model(v@).subrange(0, i as int),
        decreases v@.len() - i,
    {
        let ghost r0 = r@;
        r.push(v[i].clone());
        assert(names_model(r@) =~= names_model(r0).push(v@[i as int]@));
        assert(names_model(r@) =~= names_model(v@).subrange(0, i + 1));
        i += 1;
    }
    assert(names_model(v@).subrange(0, i as int) =~= names_model(v@));
    r
}

pub open spec fn all_labels(d: DfaModel, g: Seq<Seq<char>>) -> bool {
    forall|i: int| 0 <= i < g.len() ==> has_label(d.rows, #[trigger] g[i])
}

impl DFA {
    /// One step of minimization. With no groups yet, seeds them with the
    /// non-accepting then the accepting labels. Otherwise refines the first
    /// group by one pass: the members that part from the representative
    /// become groups of their own. Returns whether the groups changed.
    pub fn minimize_once(&self, groups: &mut Vec<Vec<String>>) -> (r: bool)
        requires
            self.table@.wf(),
            old(groups)@.len() > 0 ==> all_labels(self.table@, groups_model(old(groups)@)[0]),
        ensures
            old(groups)@.len() == 0 ==> groups_model(final(groups)@) == seed(self.table@) && r,
            old(groups)@.len() > 0 ==> r == splits(self.table@, groups_model(old(groups)@)),
            old(groups)@.len() > 0 ==> groups_model(final(groups)@) == if r {
                refined(self.table@, groups_model(old(groups)@))
            } else {
                groups_model(old(groups)@)
            },
    {
        let ghost d = self.table@;
        let ghost gm = groups_model(groups@);
        if groups.len() == 0 {
            let mut non_accepting: Vec<String> = Vec::new();
            let mut accepting: Vec<String> = Vec::new();
            let mut i: usize = 0;
            while i < self.table.table.len()
                invariant
                    d == self.table@,
                    i <= d.rows.len(),
                    names_model(non_accepting@) == labels_where(d.rows.subrange(0, i as int), false),
                    names_model(accepting@) == labels_where(d.rows.subrange(0, i as int), true),
                decreases d.rows.len() - i,
            {
                let ghost pre = d.rows.subrange(0, i + 1);
                assert(pre.drop_last() =~= d.rows.subrange(0, i as int));
                assert(pre.last() == self.table.table@[i as int]@);
                let ghost n0 = non_accepting@;
                let ghost a0 = accepting@;
                let row = &self.table.table[i];
                if row.accepting {
                    accepting.push(row.label.clone());
                    assert(names_model(accepting@) =~= names_model(a0).push(row.label@));
                } else {
                    non_accepting.push(row.label.clone());
                    assert(names_model(non_accepting@) =~= names_model(n0).push(row.label@));
                }
                i += 1;
            }
            assert(d.rows.subrange(0, i as int) =~= d.rows);
            groups.push(non_accepting);
            groups.push(accepting);
            assert(groups_model(groups@) =~= seed(d));
            return true;
        }
        if groups[0].len() == 0 {
            assert(gm[0] == names_model(groups@[0]@));
            return false;
        }
        let g0 = copy_labels(&groups[0]);
        let ghost g = gm[0];
        assert(g == names_model(g0@));
        proof {
            assert(has_label(d.rows, g[0]));
        }
        let mut rep = match find_row(&self.table, &g0[0]) {
            Some(k) => k,
            None => {
                assert(false);
                0
            },
        };
        let mut kept: Vec<String> = Vec::new();
        kept.push(g0[0].clone());
        let mut split: Vec<String> = Vec::new();
        let mut i: usize = 1;
        assert(names_model(kept@).drop_first() =~= Seq::<Seq<char>>::empty());
        assert(names_model(split@) =~= Seq::<Seq<char>>::empty());
        assert(names_model(kept@).drop_first() + pass(d, g, g[0], g.subrange(1, g.len() as int)).0 =~= pass(d, g, g[0], g.subrange(1, g.len() as int)).0);
        while i < g0.len()
            invariant
                d == self.table@,
                d.wf(),
                g == names_model(g0@),
                g.len() > 0,
                all_labels(d, g),
                1 <= i <= g.len(),
                rep < d.rows.len(),
                ({
                    let (k2, s2) = pass(d, g, d.rows[rep as int].label, g.subrange(i as int, g.len() as int));
                    pass(d, g, g[0], g.subrange(1, g.len() as int)) == (
                        names_model(kept@).drop_first() + k2,
                        names_model(split@) + s2,
                    )
                }),
                names_model(kept@).len() >= 1,
                names_model(kept@)[0] == g[0],
                label_index(d.rows, d.rows[rep as int].label) == rep,
            decreases g.len() - i,
        {
            let ghost sub = g.subrange(i as int, g.len() as int);
            assert(sub[0] == g[i as int]);
            assert(sub.drop_first() =~= g.subrange(i + 1, g.len() as int));
            assert(has_label(d.rows, g[i as int]));
            let b = match find_row(&self.table, &g0[i]) {
                Some(k) => k,
                None => {
                    assert(false);
                    0
                },
            };
            assert(d.rows[b as int] == self.table.table@[b as int]@);
            assert(d.rows[rep as int] == self.table.table@[rep as int]@);
            assert(g0@[i as int]@ == g[i as int]);
            assert(d.rows[b as int].label == g[i as int]);
            let differ = rows_differ(&g0, &self.table.table[rep], &self.table.table[b]);
            let ghost k0 = names_model(kept@);
            let ghost s0 = names_model(split@);
            if differ {
                split.push(g0[i].clone());
                assert(names_model(split@) =~= s0.push(g[i as int]));
                proof {
                    let (k2, s2) = pass(d, g, d.rows[rep as int].label, g.subrange(i + 1, g.len() as int));
                    assert(s0 + (seq![g[i as int]] + s2) =~= s0.push(g[i as int]) + s2);
                }
            } else {
                kept.push(g0[i].clone());
                assert(names_model(kept@) =~= k0.push(g[i as int]));
                assert(names_model(kept@).drop_first() =~= k0.drop_first().push(g[i as int]));
                proof {
                    let (k2, s2) = pass(d, g, g[i as int], g.subrange(i + 1, g.len() as int));
                    assert(k0.drop_first() + (seq![g[i as int]] + k2) =~= k0.drop_first().push(g[i as int]) + k2);
                }
                rep = b;
            }
            i += 1;
        }
        proof {
            assert(g.subrange(i as int, g.len() as int) =~= Seq::<Seq<char>>::empty());
            assert(names_model(kept@).drop_first() =~= pass(d, g, g[0], g.subrange(1, g.len() as int)).0);
            assert(g.drop_first() =~= g.subrange(1, g.len() as int));
            assert(names_model(split@) =~= pass(d, g, g[0], g.drop_first()).1);
            assert(names_model(kept@) =~= seq![g[0]] + names_model(kept@).drop_first());
        }
        if split.len() == 0 {
            return false;
        }
        let ghost before = groups@;
        groups.set(0, kept);
        let mut j: usize = 0;
        assert(groups_model(groups@) =~= gm.update(0, names_model(kept@)) + singletons(names_model(split@)).subrange(0, 0));
        while j < split.len()
            invariant
                j <= split@.len(),
                groups_model(groups@) == gm.update(0, seq![g[0]] + pass(d, g, g[0], g.drop_first()).0)
                    + singletons(names_model(split@)).subrange(0, j as int),
            decreases split@.len() - j,
        {
            let mut single: Vec<String> = Vec::new();
            single.push(split[j].clone());
            let ghost g1 = groups@;
            groups.push(single);
            assert(names_model(single@) =~= seq![split@[j as int]@]);
            assert(groups_model(groups@) =~= groups_model(g1).push(names_model(single@)));
            assert(singletons(names_model(split@))[j as int] == seq![names_model(split@)[j as int]]);
            assert(groups_model(groups@) =~= gm.update(0, seq![g[0]] + pass(d, g, g[0], g.drop_first()).0)
                + singletons(names_model(split@)).subrange(0, j + 1));
            j += 1;
        }
        assert(singletons(names_model(split@)).subrange(0, j as int) =~= singletons(names_model(split@)));
        true
    }
}

} // verus!

verus! {

impl DFA {
    /// Minimizes the table: seeds the partition, refines its first group
    /// until a pass splits nothing, and, if some group holds two or more
    /// labels, merges each group into one row. Returns whether rows merged.
    pub fn minimize(&mut self) -> (r: bool)
        requires
            old(self).table@.wf(),
        ensures
            final(self).table@.wf(),
            r == collapses(final_groups(old(self).table@)),
            r ==> final(self).table@.start == group_label(
                final_groups(old(self).table@),
                old(self).table@.start,
            ),
            r ==> exists|perm: Seq<int>|
                #[trigger] crate::dfa_table::permuted(
                    final(self).table@.rows,
                    crate::dfa_table::merge_rows(final_groups(old(self).table@), old(self).table@.rows),
                    perm,
                ),
            !r ==> final(self).table@ == old(self).table@,
            final(self).table@.rows.len() <= old(self).table@.rows.len(),
    {
        let ghost d = self.table@;
        let mut groups: Vec<Vec<String>> = Vec::new();
        self.minimize_once(&mut groups);
        assert(groups_model(groups@).len() == groups@.len());
        let ghost mut fuel: nat = seed(d)[0].len();
        proof {
            lemma_labels_where(d.rows, false);
            lemma_labels_where_sorted(d.rows, false);
            lemma_labels_where_sorted(d.rows, true);
            let gs0 = groups_model(groups@);
            assert(gs0 == seed(d));
            assert forall|i: int| 0 <= i < gs0.len() implies crate::dfa_table::labels_increasing(#[trigger] gs0[i]) by {}
            assert forall|i: int| 0 <= i < d.rows.len() implies crate::dfa_table::in_some_group(gs0, #[trigger] d.rows[i].label) by {
                lemma_labels_where_cover(d.rows, i);
                if d.rows[i].accepting {
                    assert(gs0[1].contains(d.rows[i].label));
                } else {
                    assert(gs0[0].contains(d.rows[i].label));
                }
            }
        }
        let mut changed = true;
        while changed
            invariant
                d == self.table@,
                d.wf(),
                groups_model(groups@).len() >= 2,
                groups_model(groups@).len() == groups@.len(),
                all_labels(d, groups_model(groups@)[0]),
                crate::dfa_table::groups_sorted(groups_model(groups@)),
                forall|i: int| 0 <= i < d.rows.len() ==> crate::dfa_table::in_some_group(
                    groups_model(groups@),
                    #[trigger] d.rows[i].label,
                ),
                settle(d, groups_model(groups@), fuel) == final_groups(d),
                fuel >= groups_model(groups@)[0].len(),
                !changed ==> !splits(d, groups_model(groups@)),
            decreases groups_model(groups@)[0].len() + if changed { 1int } else { 0int },
        {
            let ghost gm = groups_model(groups@);
            changed = self.minimize_once(&mut groups);
            assert(groups_model(groups@).len() == groups@.len());
            proof {
                if changed {
                    let g = gm[0];
                    lemma_refined_groups(d, gm);
                    lemma_pass_len(d, g, g[0], g.drop_first());
                    let k = pass(d, g, g[0], g.drop_first()).0;
                    let ng = groups_model(groups@)[0];
                    assert(ng == seq![g[0]] + k);
                    assert forall|i: int| 0 <= i < ng.len() implies has_label(d.rows, #[trigger] ng[i]) by {
                        if i > 0 {
                            assert(k[i - 1] == ng[i]);
                            assert(k.contains(ng[i]));
                            assert(g.drop_first().contains(ng[i]));
                            let q = choose|q: int| 0 <= q < g.drop_first().len() && g.drop_first()[q] == ng[i];
                            assert(g[q + 1] == ng[i]);
                        }
                    }
                    fuel = (fuel - 1) as nat;
                }
            }
        }
        let ghost fin = groups_model(groups@);
        assert(fin == final_groups(d));
        let mut collapsed = false;
        let mut i: usize = 0;
        while i < groups.len()
            invariant
                i <= groups@.len(),
                fin == groups_model(groups@),
                collapsed == exists|q: int| 0 <= q < i && #[trigger] fin[q].len() >= 2,
            decreases groups@.len() - i,
        {
            assert(fin[i as int].len() == groups@[i as int]@.len());
            if groups[i].len() >= 2 {
                collapsed = true;
            }
            i += 1;
        }
        proof {
            assert forall|i: int, j: int|
                0 <= i < d.rows.len() && 0 <= j < d.rows[i].transitions.len() implies crate::dfa_table::in_some_group(
                fin,
                #[trigger] d.rows[i].transitions[j].1,
            ) by {
                let t = d.rows[i].transitions[j].1;
                assert(has_label(d.rows, t));
                let k = choose|k: int| 0 <= k < d.rows.len() && #[trigger] d.rows[k].label == t;
                assert(crate::dfa_table::in_some_group(fin, d.rows[k].label));
            }
            assert(crate::dfa_table::in_some_group(fin, d.start)) by {
                let k = choose|k: int| 0 <= k < d.rows.len() && #[trigger] d.rows[k].label == d.start;
                assert(crate::dfa_table::in_some_group(fin, d.rows[k].label));
            }
        }
        if collapsed {
            self.table.apply_minimization(&groups);
        }
        collapsed
    }
}

} // verus!

verus! {

/// A copy of a row.
fn copy_row(r: &DFARow) -> (c: DFARow)
    ensures
        c@ == r@,
{
    let mut ts: Vec<(char, String)> = Vec::new();
    let mut i: usize = 0;
    while i < r.transitions.len()
        invariant
            i <= r.transitions@.len(),
            transitions_model(ts@) == transitions_model(r.transitions@).subrange(0, i as int),
        decreases r.transitions@.len() - i,
    {
        let ghost t0 = ts@;
        let s = r.transitions[i].1.clone();
        ts.push((r.transitions[i].0, s));
        assert(transitions_model(ts@) =~= transitions_model(t0).push((r.transitions@[i as int].0, s@)));
        assert(transitions_model(r.transitions@)[i as int] == (r.transitions@[i as int].0, r.transitions@[i as int].1@));
        assert(transitions_model(ts@) =~= transitions_model(r.transitions@).subrange(0, i + 1));
        i += 1;
    }
    assert(transitions_model(r.transitions@).subrange(0, i as int) =~= transitions_model(r.transitions@));
    DFARow { label: r.label.clone(), accepting: r.accepting, transitions: ts }
}

/// Some transition of some row is labelled `c`.
pub open spec fn symbol_used(d: DfaModel, c: char) -> bool {
    exists|k: int, i: int|
        0 <= k < d.rows.len() && 0 <= i < d.rows[k].transitions.len()
            && #[trigger] d.rows[k].transitions[i].0 == c
}

impl DFA {
    /// The automaton of a fragment, by subset construction.
    pub fn from(nfa: &NFA) -> (r: DFA)
        requires
            nfa.wf(),
        ensures
            r.table@.wf(),
            exists|t: NFATable| t.extracted_from(nfa@) && t.wf() && r.table.built_from(&t),
            forall|t: NFATable| #[trigger] t.extracted_from(nfa@) ==> r.table.built_from(&t),
    {
        DFA { table: DFATable::from(nfa) }
    }

    /// The symbols of the transitions, in increasing order.
    pub fn get_alphabet(&self) -> (r: Vec<char>)
        ensures
            crate::dfa_table::chars_sorted(r@),
            forall|c: char| r@.contains(c) <==> symbol_used(self.table@, c),
    {
        let ghost d = self.table@;
        let mut a: Vec<char> = Vec::new();
        let mut k: usize = 0;
        while k < self.table.table.len()
            invariant
                d == self.table@,
                k <= d.rows.len(),
                crate::dfa_table::chars_sorted(a@),
                forall|c: char|
                    a@.contains(c) <==> exists|k2: int, i: int|
                        0 <= k2 < k && 0 <= i < d.rows[k2].transitions.len()
                            && #[trigger] d.rows[k2].transitions[i].0 == c,
            decreases d.rows.len() - k,
        {
            let row = &self.table.table[k];
            assert(d.rows[k as int] == row@);
            let mut i: usize = 0;
            while i < row.transitions.len()
                invariant
                    d == self.table@,
                    k < d.rows.len(),
                    d.rows[k as int] == row@,
                    i <= row.transitions@.len(),
                    crate::dfa_table::chars_sorted(a@),
                    forall|c: char|
                        a@.contains(c) <==> ((exists|k2: int, i2: int|
                            0 <= k2 < k && 0 <= i2 < d.rows[k2].transitions.len()
                                && #[trigger] d.rows[k2].transitions[i2].0 == c) || exists|i2: int|
                            0 <= i2 < i && #[trigger] d.rows[k as int].transitions[i2].0 == c),
                decreases row.transitions@.len() - i,
            {
                let c = row.transitions[i].0;
                assert(d.rows[k as int].transitions[i as int].0 == c);
                crate::dfa_table::insert_char(&mut a, c);
                i += 1;
            }
            proof {
                assert forall|c: char|
                    a@.contains(c) <==> exists|k2: int, i2: int|
                        0 <= k2 < k + 1 && 0 <= i2 < d.rows[k2].transitions.len()
                            && #[trigger] d.rows[k2].transitions[i2].0 == c by {
                    if exists|k2: int, i2: int|
                        0 <= k2 < k + 1 && 0 <= i2 < d.rows[k2].transitions.len()
                            && #[trigger] d.rows[k2].transitions[i2].0 == c {
                        let (k2, i2) = choose|k2: int, i2: int|
                            0 <= k2 < k + 1 && 0 <= i2 < d.rows[k2].transitions.len()
                                && #[trigger] d.rows[k2].transitions[i2].0 == c;
                        if k2 == k {
                            assert(d.rows[k as int].transitions[i2].0 == c);
                        }
                    }
                }
            }
            k += 1;
        }
        a
    }

    /// The label of the starting state.
    pub fn get_starting_state(&self) -> (r: String)
        ensures
            r@ == self.table@.start,
    {
        self.table.starting_state.clone()
    }

    /// The labels of the accepting states, in table order.
    pub fn get_accepting_states(&self) -> (r: Vec<String>)
        ensures
            names_model(r@) == labels_where(self.table@.rows, true),
    {
        let ghost d = self.table@;
        let mut out: Vec<String> = Vec::new();
        let mut i: usize = 0;
        while i < self.table.table.len()
            invariant
                d == self.table@,
                i <= d.rows.len(),
                names_model(out@) == labels_where(d.rows.subrange(0, i as int), true),
            decreases d.rows.len() - i,
        {
            let ghost pre = d.rows.subrange(0, i + 1);
            assert(pre.drop_last() =~= d.rows.subrange(0, i as int));
            assert(pre.last() == self.table.table@[i as int]@);
            let ghost o0 = out@;
            if self.table.table[i].accepting {
                out.push(self.table.table[i].label.clone());
                assert(names_model(out@) =~= names_model(o0).push(self.table.table@[i as int].label@));
            }
            i += 1;
        }
        assert(d.rows.subrange(0, i as int) =~= d.rows);
        out
    }

    /// A copy of the rows of the table.
    pub fn get_transition_table(&self) -> (r: Vec<DFARow>)
        ensures
            dfa_rows_model(r@) == self.table@.rows,
    {
        let ghost d = self.table@;
        let mut out: Vec<DFARow> = Vec::new();
        let mut i: usize = 0;
        while i < self.table.table.len()
            invariant
                d == self.table@,
                i <= d.rows.len(),
                dfa_rows_model(out@) == d.rows.subrange(0, i as int),
            decreases d.rows.len() - i,
        {
            let ghost o0 = out@;
            let row = copy_row(&self.table.table[i]);
            assert(row@ == d.rows[i as int]);
            out.push(row);
            assert(dfa_rows_model(out@) =~= dfa_rows_model(o0).push(row@));
            assert(dfa_rows_model(out@) =~= d.rows.subrange(0, i + 1));
            i += 1;
        }
        assert(d.rows.subrange(0, i as int) =~= d.rows);
        out
    }

    /// Relabels the states by small sequential numbers.
    pub fn simplify_notations(&mut self)
        requires
            old(self).table@.wf(),
        ensures
            final(self).table@.wf(),
            crate::dfa_table::simplified(old(self).table@, final(self).table@),
    {
        self.table.simplify_notations();
    }
}

} // verus!

verus! {

// ---------------------------------------------------------------------------
// Relabelling keeps the language.

/// A walk over the relabelled table ends where the walk over the table
/// before relabelling ends, relabelled.
pub proof fn lemma_simplified_run(d: DfaModel, e: DfaModel, l: Seq<char>, w: Seq<char>)
    requires
        d.wf(),
        e.wf(),
        crate::dfa_table::simplified(d, e),
        has_label(d.rows, l),
    ensures
        e.run(
            crate::dfa_table::renamed(crate::dfa_table::first_seen(crate::dfa_table::encounter(d.rows)), l),
            w,
        ) == (match d.run(l, w) {
            Some(x) => Some(
                crate::dfa_table::renamed(crate::dfa_table::first_seen(crate::dfa_table::encounter(d.rows)), x),
            ),
            None => None,
        }),
        has_label(
            e.rows,
            crate::dfa_table::renamed(crate::dfa_table::first_seen(crate::dfa_table::encounter(d.rows)), l),
        ),
        e.rows[label_index(
            e.rows,
            crate::dfa_table::renamed(crate::dfa_table::first_seen(crate::dfa_table::encounter(d.rows)), l),
        )].accepting == d.rows[label_index(d.rows, l)].accepting,
    decreases w.len(),
{
    let names = crate::dfa_table::first_seen(crate::dfa_table::encounter(d.rows));
    let rl = crate::dfa_table::renamed(names, l);
    let perm = choose|perm: Seq<int>|
        #[trigger] crate::dfa_table::permuted(e.rows, crate::dfa_table::renamed_rows(names, d.rows), perm);
    let k = label_index(d.rows, l);
    assert(crate::dfa_table::covered(perm, k));
    let i = choose|i: int| 0 <= i < perm.len() && perm[i] == k;
    let rr = crate::dfa_table::renamed_rows(names, d.rows);
    assert(e.rows[i] == rr[k]);
    assert(rr[k] == crate::dfa_table::renamed_row(names, d.rows[k]));
    assert(e.rows[i].label == rl);
    lemma_label_index(e, rl, i);
    if w.len() > 0 {
        let c = w[0];
        let dt = d.rows[k].transitions;
        let et = e.rows[i].transitions;
        assert(et == crate::dfa_table::renamed_transitions(names, dt));
        if exists|j: int| 0 <= j < dt.len() && #[trigger] dt[j].0 == c {
            let j = choose|j: int| 0 <= j < dt.len() && #[trigger] dt[j].0 == c;
            lemma_step_index(dt, c, j);
            assert(et[j] == (dt[j].0, crate::dfa_table::renamed(names, dt[j].1)));
            lemma_step_index(et, c, j);
            assert(has_label(d.rows, dt[j].1));
            lemma_simplified_run(d, e, dt[j].1, w.drop_first());
        } else {
            assert(step(dt, c) is None);
            assert forall|j: int| 0 <= j < et.len() implies #[trigger] et[j].0 != c by {
                assert(et[j].0 == dt[j].0);
            }
            assert(step(et, c) is None);
        }
    }
}

/// Relabelling keeps the number of rows, the number of accepting rows and
/// the language: the relabelled table accepts exactly the strings that the
/// table before it accepts.
pub proof fn lemma_simplify_keeps_language(d: DfaModel, e: DfaModel, w: Seq<char>)
    requires
        d.wf(),
        e.wf(),
        crate::dfa_table::simplified(d, e),
    ensures
        e.rows.len() == d.rows.len(),
        labels_where(e.rows, true).len() == labels_where(d.rows, true).len(),
        e.accepts(w) == d.accepts(w),
{
    let names = crate::dfa_table::first_seen(crate::dfa_table::encounter(d.rows));
    let perm = choose|perm: Seq<int>|
        #[trigger] crate::dfa_table::permuted(e.rows, crate::dfa_table::renamed_rows(names, d.rows), perm);
    let rr = crate::dfa_table::renamed_rows(names, d.rows);
    crate::dfa_table::lemma_permuted_accepting_count(e.rows, rr, perm);
    assert(crate::dfa_table::accepting_indices(rr) =~= crate::dfa_table::accepting_indices(d.rows)) by {
        assert forall|i: int| 0 <= i < rr.len() implies rr[i].accepting == d.rows[i].accepting by {
            assert(rr[i] == crate::dfa_table::renamed_row(names, d.rows[i]));
        }
    }
    crate::dfa_table::lemma_accepting_count(rr);
    crate::dfa_table::lemma_accepting_count(d.rows);
    lemma_simplified_run(d, e, d.start, w);
    match d.run(d.start, w) {
        Some(x) => {
            lemma_run_has_label(d, d.start, w);
            lemma_simplified_run(d, e, x, Seq::empty());
        },
        None => {},
    }
}

/// A walk that ends, ends on a label of a row.
pub proof fn lemma_run_has_label(d: DfaModel, l: Seq<char>, w: Seq<char>)
    ensures
        d.run(l, w) matches Some(x) ==> has_label(d.rows, x),
    decreases w.len(),
{
    if has_label(d.rows, l) && w.len() > 0 {
        match step(d.rows[label_index(d.rows, l)].transitions, w[0]) {
            Some(t) => lemma_run_has_label(d, t, w.drop_first()),
            None => {},
        }
    }
}

} // verus!

verus! {

// ---------------------------------------------------------------------------
// The groups that minimization settles on are sorted and cover the labels.

pub proof fn lemma_labels_where_sorted(rows: Seq<DfaRowModel>, b: bool)
    requires
        forall|i: int, j: int| 0 <= i < j < rows.len() ==> lex_lt(rows[i].label, rows[j].label),
    ensures
        crate::dfa_table::labels_increasing(labels_where(rows, b)),
        forall|x: Seq<char>|
            labels_where(rows, b).contains(x) ==> exists|i: int| 0 <= i < rows.len() && #[trigger] rows[i].label == x,
    decreases rows.len(),
{
    if rows.len() > 0 {
        let r0 = rows.drop_last();
        lemma_labels_where_sorted(r0, b);
        let lw = labels_where(rows, b);
        let l0 = labels_where(r0, b);
        assert forall|x: Seq<char>| lw.contains(x) implies exists|i: int| 0 <= i < rows.len() && #[trigger] rows[i].label == x by {
            let q = choose|q: int| 0 <= q < lw.len() && lw[q] == x;
            if q < l0.len() {
                assert(lw[q] == l0[q]);
                assert(l0.contains(x));
                let i = choose|i: int| 0 <= i < r0.len() && #[trigger] r0[i].label == x;
                assert(rows[i] == r0[i]);
            } else {
                assert(rows[rows.len() - 1].label == x);
            }
        }
        assert forall|a: int, c: int| 0 <= a < c < lw.len() implies lex_lt(lw[a], lw[c]) by {
            assert(lw[a] == l0[a]);
            if c < l0.len() {
                assert(lw[c] == l0[c]);
            } else {
                assert(lw[c] == rows.last().label);
                assert(l0.contains(l0[a]));
                let i = choose|i: int| 0 <= i < r0.len() && #[trigger] r0[i].label == l0[a];
                assert(rows[i] == r0[i]);
                assert(lex_lt(rows[i].label, rows[rows.len() - 1].label));
            }
        }
    }
}

pub proof fn lemma_labels_where_cover(rows: Seq<DfaRowModel>, i: int)
    requires
        0 <= i < rows.len(),
    ensures
        labels_where(rows, rows[i].accepting).contains(rows[i].label),
    decreases rows.len(),
{
    let r0 = rows.drop_last();
    let b = rows[i].accepting;
    let lw = labels_where(rows, b);
    if i < rows.len() - 1 {
        lemma_labels_where_cover(r0, i);
        assert(r0[i] == rows[i]);
        let l0 = labels_where(r0, b);
        let q = choose|q: int| 0 <= q < l0.len() && l0[q] == rows[i].label;
        assert(lw[q] == l0[q]);
    } else {
        assert(lw[lw.len() - 1] == rows[i].label);
    }
}

/// A pass keeps increasing order, and puts every member either among those
/// that stay or among those split off.
pub proof fn lemma_pass_sorted(d: DfaModel, g: Seq<Seq<char>>, rep: Seq<char>, rest: Seq<Seq<char>>)
    requires
        crate::dfa_table::labels_increasing(rest),
    ensures
        crate::dfa_table::labels_increasing(pass(d, g, rep, rest).0),
        forall|x: Seq<char>|
            rest.contains(x) ==> pass(d, g, rep, rest).0.contains(x) || pass(d, g, rep, rest).1.contains(x),
    decreases rest.len(),
{
    if rest.len() > 0 {
        let b = rest[0];
        let r1 = rest.drop_first();
        assert(crate::dfa_table::labels_increasing(r1)) by {
            assert forall|a: int, c: int| 0 <= a < c < r1.len() implies lex_lt(r1[a], r1[c]) by {
                assert(r1[a] == rest[a + 1]);
                assert(r1[c] == rest[c + 1]);
            }
        }
        let parted = rows_part(g, row_labelled(d, rep), row_labelled(d, b));
        let nrep = if parted { rep } else { b };
        lemma_pass_sorted(d, g, nrep, r1);
        lemma_pass_len(d, g, nrep, r1);
        let (k, s) = pass(d, g, nrep, r1);
        let res = pass(d, g, rep, rest);
        assert forall|x: Seq<char>| rest.contains(x) implies res.0.contains(x) || res.1.contains(x) by {
            let q = choose|q: int| 0 <= q < rest.len() && rest[q] == x;
            if q == 0 {
                if parted {
                    assert(res.1[0] == x);
                } else {
                    assert(res.0[0] == x);
                }
            } else {
                assert(r1[q - 1] == x);
                assert(r1.contains(x));
                if k.contains(x) {
                    let t = choose|t: int| 0 <= t < k.len() && k[t] == x;
                    if parted {
                        assert(res.0[t] == x);
                    } else {
                        assert(res.0[t + 1] == x);
                    }
                } else {
                    let t = choose|t: int| 0 <= t < s.len() && s[t] == x;
                    if parted {
                        assert(res.1[t + 1] == x);
                    } else {
                        assert(res.1[t] == x);
                    }
                }
            }
        }
        if !parted {
            assert forall|a: int, c: int| 0 <= a < c < res.0.len() implies lex_lt(res.0[a], res.0[c]) by {
                assert(res.0 == seq![b] + k);
                if a == 0 {
                    assert(res.0[c] == k[c - 1]);
                    assert(k.contains(k[c - 1]));
                    assert(r1.contains(k[c - 1]));
                    let t = choose|t: int| 0 <= t < r1.len() && r1[t] == k[c - 1];
                    assert(rest[t + 1] == k[c - 1]);
                } else {
                    assert(res.0[a] == k[a - 1]);
                    assert(res.0[c] == k[c - 1]);
                }
            }
        }
    }
}

/// A refinement step keeps every group sorted and every grouped label in a
/// group.
#[verifier::spinoff_prover]
pub proof fn lemma_refined_groups(d: DfaModel, gs: Seq<Seq<Seq<char>>>)
    requires
        gs.len() > 0,
        gs[0].len() > 0,
        crate::dfa_table::groups_sorted(gs),
    ensures
        crate::dfa_table::groups_sorted(refined(d, gs)),
        forall|x: Seq<char>|
            crate::dfa_table::in_some_group(gs, x) ==> crate::dfa_table::in_some_group(refined(d, gs), x),
{
    let g = gs[0];
    let rest = g.drop_first();
    assert(crate::dfa_table::labels_increasing(g));
    assert(crate::dfa_table::labels_increasing(rest)) by {
        assert forall|a: int, c: int| 0 <= a < c < rest.len() implies lex_lt(rest[a], rest[c]) by {
            assert(rest[a] == g[a + 1]);
            assert(rest[c] == g[c + 1]);
        }
    }
    lemma_pass_sorted(d, g, g[0], rest);
    lemma_pass_len(d, g, g[0], rest);
    let (k, s) = pass(d, g, g[0], rest);
    let ng = seq![g[0]] + k;
    let r = refined(d, gs);
    assert(r == gs.update(0, ng) + singletons(s));
    assert(crate::dfa_table::labels_increasing(ng)) by {
        assert forall|a: int, c: int| 0 <= a < c < ng.len() implies lex_lt(ng[a], ng[c]) by {
            if a == 0 {
                assert(ng[c] == k[c - 1]);
                assert(k.contains(k[c - 1]));
                assert(rest.contains(k[c - 1]));
                let t = choose|t: int| 0 <= t < rest.len() && rest[t] == k[c - 1];
                assert(g[t + 1] == k[c - 1]);
            } else {
                assert(ng[a] == k[a - 1]);
                assert(ng[c] == k[c - 1]);
            }
        }
    }
    assert forall|i: int| 0 <= i < r.len() implies crate::dfa_table::labels_increasing(#[trigger] r[i]) by {
        if i == 0 {
            assert(r[0] == ng);
        } else if i < gs.len() {
            assert(r[i] == gs[i]);
        } else {
            assert(r[i] == seq![s[i - gs.len()]]);
        }
    }
    assert forall|x: Seq<char>| crate::dfa_table::in_some_group(gs, x) implies crate::dfa_table::in_some_group(r, x) by {
        let i = choose|i: int| 0 <= i < gs.len() && #[trigger] gs[i].contains(x);
        if i > 0 {
            assert(r[i] == gs[i]);
            assert(r[i].contains(x));
        } else if x == g[0] {
            assert(r[0] == ng);
            assert(ng[0] == x);
            assert(r[0].contains(x));
        } else {
            let t = choose|t: int| 0 <= t < g.len() && g[t] == x;
            assert(rest[t - 1] == x);
            assert(rest.contains(x));
            if k.contains(x) {
                let u = choose|u: int| 0 <= u < k.len() && k[u] == x;
                assert(ng[u + 1] == x);
                assert(r[0] == ng);
                assert(r[0].contains(x));
            } else {
                let u = choose|u: int| 0 <= u < s.len() && s[u] == x;
                assert(r[gs.len() + u] == seq![x]);
                assert(r[gs.len() + u][0] == x);
                assert(r[gs.len() + u].contains(x));
            }
        }
    }
}

} // verus!
