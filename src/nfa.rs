use vstd::prelude::*;

use crate::state::{
    add_edge, has_symbol, lemma_add_edge_distinct, symbol_pos, symbols_distinct, State,
    StateModel, EPSILON,
};

verus! {

/// An NFA fragment as a mathematical value: its states, indexed from zero,
/// and the indices of its single entry and single exit.
pub struct NfaModel {
    pub states: Seq<StateModel>,
    pub entry: int,
    pub exit: int,
}

/// Every target of `edges` is below `n`.
pub open spec fn edges_below(edges: Seq<(char, Seq<usize>)>, n: int) -> bool {
    forall|i: int, j: int|
        0 <= i < edges.len() && 0 <= j < edges[i].1.len() ==> #[trigger] edges[i].1[j] < n
}

impl NfaModel {
    pub open spec fn wf(self) -> bool {
        &&& 0 <= self.entry < self.states.len()
        &&& 0 <= self.exit < self.states.len()
        &&& forall|i: int|
            0 <= i < self.states.len() ==> symbols_distinct(#[trigger] self.states[i].edges)
                && edges_below(self.states[i].edges, self.states.len() as int)
    }
}

pub open spec fn shift_edges(edges: Seq<(char, Seq<usize>)>, k: int) -> Seq<(char, Seq<usize>)> {
    edges.map_values(|e: (char, Seq<usize>)| (e.0, e.1.map_values(|t: usize| (t + k) as usize)))
}

/// The state with every target moved up by `k`.
pub open spec fn shift_state(s: StateModel, k: int) -> StateModel {
    StateModel { accepting: s.accepting, edges: shift_edges(s.edges, k) }
}

pub open spec fn shift_states(ss: Seq<StateModel>, k: int) -> Seq<StateModel> {
    ss.map_values(|s: StateModel| shift_state(s, k))
}

pub open spec fn with_accepting(s: StateModel, b: bool) -> StateModel {
    StateModel { accepting: b, edges: s.edges }
}

pub open spec fn with_edge(s: StateModel, c: char, t: usize) -> StateModel {
    StateModel { accepting: s.accepting, edges: add_edge(s.edges, c, t) }
}

pub open spec fn plain_state(accepting: bool) -> StateModel {
    StateModel { accepting, edges: Seq::empty() }
}

pub open spec fn empty_model() -> NfaModel {
    NfaModel { states: seq![plain_state(false), plain_state(true)], entry: 0, exit: 1 }
}

pub open spec fn char_model(c: char) -> NfaModel {
    NfaModel {
        states: seq![
            StateModel { accepting: false, edges: seq![(c, seq![1usize])] },
            plain_state(true),
        ],
        entry: 0,
        exit: 1,
    }
}

/// `a` then `b`: the exit of `a` stops accepting and gains an epsilon edge to
/// the entry of `b`, whose states follow those of `a`.
pub open spec fn concat_model(a: NfaModel, b: NfaModel) -> NfaModel {
    let n = a.states.len() as int;
    let left = a.states.update(
        a.exit,
        StateModel {
            accepting: false,
            edges: add_edge(a.states[a.exit].edges, EPSILON, (b.entry + n) as usize),
        },
    );
    let right = shift_states(b.states, n);
    NfaModel {
        states: left + right.update(b.exit, with_accepting(right[b.exit], true)),
        entry: a.entry,
        exit: b.exit + n,
    }
}

/// `a` or `b`: a new entry forks by epsilon edges into both, and both exits,
/// no longer accepting, join by epsilon edges into a new accepting exit. The
/// states of `a` come first, then those of `b`, then the new entry and exit.
pub open spec fn or_model(a: NfaModel, b: NfaModel) -> NfaModel {
    let n1 = a.states.len() as int;
    let n2 = b.states.len() as int;
    let join = (n1 + n2 + 1) as usize;
    let left = a.states.update(
        a.exit,
        StateModel { accepting: false, edges: add_edge(a.states[a.exit].edges, EPSILON, join) },
    );
    let right = shift_states(b.states, n1);
    let right2 = right.update(
        b.exit,
        StateModel { accepting: false, edges: add_edge(right[b.exit].edges, EPSILON, join) },
    );
    let fork = StateModel {
        accepting: false,
        edges: seq![(EPSILON, seq![a.entry as usize, (b.entry + n1) as usize])],
    };
    NfaModel { states: left + right2 + seq![fork, plain_state(true)], entry: n1 + n2, exit: n1 + n2 + 1 }
}

/// Zero or more of `a`: an epsilon edge from entry to exit, then one back.
pub open spec fn rep_model(a: NfaModel) -> NfaModel {
    let s1 = a.states.update(a.entry, with_edge(a.states[a.entry], EPSILON, a.exit as usize));
    NfaModel {
        states: s1.update(a.exit, with_edge(s1[a.exit], EPSILON, a.entry as usize)),
        entry: a.entry,
        exit: a.exit,
    }
}

/// Concatenation folded from the left.
pub open spec fn concat_all(ms: Seq<NfaModel>) -> NfaModel
    decreases ms.len(),
{
    if ms.len() <= 1 {
        ms[0]
    } else {
        concat_model(concat_all(ms.drop_last()), ms.last())
    }
}

/// Alternation folded from the left.
pub open spec fn or_all(ms: Seq<NfaModel>) -> NfaModel
    decreases ms.len(),
{
    if ms.len() <= 1 {
        ms[0]
    } else {
        or_model(or_all(ms.drop_last()), ms.last())
    }
}

/// The number of states of all the fragments together.
pub open spec fn total_states(ms: Seq<NfaModel>) -> int
    decreases ms.len(),
{
    if ms.len() == 0 {
        0
    } else {
        total_states(ms.drop_last()) + ms.last().states.len()
    }
}

pub open spec fn states_model(v: Seq<State>) -> Seq<StateModel> {
    v.map_values(|s: State| s@)
}

/// A fragment of an NFA (Thompson's construction), with its states held in
/// an arena and addressed by index.
#[derive(Debug, Clone, PartialEq, Eq)]
pub struct NFA {
    pub states: Vec<State>,
    pub in_state: usize,
    pub out_state: usize,
}

impl View for NFA {
    type V = NfaModel;

    open spec fn view(&self) -> NfaModel {
        NfaModel {
            states: states_model(self.states@),
            entry: self.in_state as int,
            exit: self.out_state as int,
        }
    }
}

pub open spec fn models(v: Seq<NFA>) -> Seq<NfaModel> {
    v.map_values(|a: NFA| a@)
}

pub proof fn lemma_shift_edges_wf(edges: Seq<(char, Seq<usize>)>, k: int, n: int)
    requires
        symbols_distinct(edges),
        edges_below(edges, n),
        0 <= k,
        n + k <= usize::MAX + 1,
    ensures
        symbols_distinct(shift_edges(edges, k)),
        edges_below(shift_edges(edges, k), n + k),
{
    let s = shift_edges(edges, k);
    assert forall|i: int, j: int|
        0 <= i < s.len() && 0 <= j < s.len() && i != j implies #[trigger] s[i].0
        != #[trigger] s[j].0 by {
        assert(s[i].0 == edges[i].0);
        assert(s[j].0 == edges[j].0);
    }
    assert forall|i: int, j: int| 0 <= i < s.len() && 0 <= j < s[i].1.len() implies #[trigger] s[i].1[j]
        < n + k by {
        assert(s[i].1[j] == (edges[i].1[j] + k) as usize);
        assert(edges[i].1[j] < n);
    }
}

pub proof fn lemma_add_edge_below(edges: Seq<(char, Seq<usize>)>, c: char, t: usize, n: int)
    requires
        symbols_distinct(edges),
        edges_below(edges, n),
        t < n,
    ensures
        symbols_distinct(add_edge(edges, c, t)),
        edges_below(add_edge(edges, c, t), n),
{
    lemma_add_edge_distinct(edges, c, t);
    let e2 = add_edge(edges, c, t);
    if has_symbol(edges, c) {
        let p = symbol_pos(edges, c);
        assert forall|i: int, j: int| 0 <= i < e2.len() && 0 <= j < e2[i].1.len() implies #[trigger] e2[i].1[j]
            < n by {
            if i == p && j == edges[p].1.len() {
            } else {
                assert(e2[i].1[j] == edges[i].1[j]);
            }
        }
    } else {
        assert forall|i: int, j: int| 0 <= i < e2.len() && 0 <= j < e2[i].1.len() implies #[trigger] e2[i].1[j]
            < n by {
            if i < edges.len() {
                assert(e2[i].1[j] == edges[i].1[j]);
            }
        }
    }
}

pub proof fn lemma_edges_below_mono(edges: Seq<(char, Seq<usize>)>, n: int, m: int)
    requires
        edges_below(edges, n),
        n <= m,
    ensures
        edges_below(edges, m),
{
}

pub proof fn lemma_concat_wf(a: NfaModel, b: NfaModel)
    requires
        a.wf(),
        b.wf(),
        a.states.len() + b.states.len() <= usize::MAX,
    ensures
        concat_model(a, b).wf(),
        concat_model(a, b).states.len() == a.states.len() + b.states.len(),
{
    let n = a.states.len() as int;
    let m = n + b.states.len();
    let r = concat_model(a, b);
    assert forall|i: int| 0 <= i < r.states.len() implies symbols_distinct(
        #[trigger] r.states[i].edges,
    ) && edges_below(r.states[i].edges, m) by {
        if i < n {
            lemma_edges_below_mono(a.states[i].edges, n, m);
            if i == a.exit {
                lemma_add_edge_below(a.states[i].edges, EPSILON, (b.entry + n) as usize, m);
            }
        } else {
            let j = i - n;
            assert(b.states[j] == b.states[j]);
            lemma_shift_edges_wf(b.states[j].edges, n, b.states.len() as int);
            assert(r.states[i].edges == shift_edges(b.states[j].edges, n));
        }
    }
}

pub proof fn lemma_or_wf(a: NfaModel, b: NfaModel)
    requires
        a.wf(),
        b.wf(),
        a.states.len() + b.states.len() + 2 <= usize::MAX,
    ensures
        or_model(a, b).wf(),
        or_model(a, b).states.len() == a.states.len() + b.states.len() + 2,
{
    let n1 = a.states.len() as int;
    let m = n1 + b.states.len() + 2;
    let join = (n1 + b.states.len() + 1) as usize;
    let r = or_model(a, b);
    assert forall|i: int| 0 <= i < r.states.len() implies symbols_distinct(
        #[trigger] r.states[i].edges,
    ) && edges_below(r.states[i].edges, m) by {
        if i < n1 {
            lemma_edges_below_mono(a.states[i].edges, n1, m);
            if i == a.exit {
                lemma_add_edge_below(a.states[i].edges, EPSILON, join, m);
            }
        } else if i < n1 + b.states.len() {
            let j = i - n1;
            lemma_shift_edges_wf(b.states[j].edges, n1, b.states.len() as int);
            lemma_edges_below_mono(shift_edges(b.states[j].edges, n1), n1 + b.states.len(), m);
            if j == b.exit {
                lemma_add_edge_below(shift_edges(b.states[j].edges, n1), EPSILON, join, m);
            }
        } else if i == n1 + b.states.len() {
            let e = r.states[i].edges;
            assert(e.len() == 1);
        } else {
        }
    }
}

pub proof fn lemma_rep_wf(a: NfaModel)
    requires
        a.wf(),
    ensures
        rep_model(a).wf(),
        rep_model(a).states.len() == a.states.len(),
{
    let n = a.states.len() as int;
    let s1 = a.states.update(a.entry, with_edge(a.states[a.entry], EPSILON, a.exit as usize));
    lemma_add_edge_below(a.states[a.entry].edges, EPSILON, a.exit as usize, n);
    assert forall|i: int| 0 <= i < n implies symbols_distinct(#[trigger] s1[i].edges)
        && edges_below(s1[i].edges, n) by {}
    lemma_add_edge_below(s1[a.exit].edges, EPSILON, a.entry as usize, n);
    let r = rep_model(a);
    assert forall|i: int| 0 <= i < n implies symbols_distinct(#[trigger] r.states[i].edges)
        && edges_below(r.states[i].edges, n) by {
        assert(i != a.exit ==> r.states[i] == s1[i]);
    }
}

/// A copy of `s` with every target moved up by `k`.
fn shifted_state(s: &State, k: usize, n: Ghost<int>) -> (r: State)
    requires
        edges_below(s@.edges, n@),
        n@ + k <= usize::MAX,
    ensures
        r@ == shift_state(s@, k as int),
{
    let mut edges: Vec<(char, Vec<usize>)> = Vec::new();
    let mut i: usize = 0;
    while i < s.transitions.len()
        invariant
            i <= s.transitions.len(),
            edges_below(s@.edges, n@),
            n@ + k <= usize::MAX,
            crate::state::edges_model(edges@) == shift_edges(s@.edges, k as int).subrange(0, i as int),
        decreases s.transitions.len() - i,
    {
        let ts = &s.transitions[i].1;
        let ghost orig = s@.edges[i as int].1;
        assert(ts@ == orig);
        let mut out: Vec<usize> = Vec::new();
        let mut j: usize = 0;
        while j < ts.len()
            invariant
                j <= ts.len(),
                ts@ == orig,
                i < s.transitions.len(),
                orig == s@.edges[i as int].1,
                edges_below(s@.edges, n@),
                n@ + k <= usize::MAX,
                out@ == orig.subrange(0, j as int).map_values(|t: usize| (t + k) as usize),
            decreases ts.len() - j,
        {
            assert(orig[j as int] < n@);
            out.push(ts[j] + k);
            assert(out@ =~= orig.subrange(0, j + 1).map_values(|t: usize| (t + k) as usize));
            j += 1;
        }
        assert(orig.subrange(0, j as int) =~= orig);
        let ghost before = edges@;
        let ghost sym = s.transitions[i as int].0;
        assert(sym == s@.edges[i as int].0);
        edges.push((s.transitions[i].0, out));
        assert(crate::state::edges_model(edges@) =~= crate::state::edges_model(before).push(
            (sym, out@),
        ));
        assert(crate::state::edges_model(edges@) =~= shift_edges(s@.edges, k as int).subrange(
            0,
            i + 1,
        ));
        i += 1;
    }
    assert(shift_edges(s@.edges, k as int).subrange(0, i as int) =~= shift_edges(
        s@.edges,
        k as int,
    ));
    State { accepting: s.accepting, transitions: edges }
}

/// Appends copies of the states of `src`, shifted by `k`, to `dst`.
fn append_shifted(dst: &mut Vec<State>, src: &Vec<State>, k: usize)
    requires
        forall|i: int|
            0 <= i < src@.len() ==> edges_below(
                (#[trigger] states_model(src@)[i]).edges,
                src@.len() as int,
            ),
        src@.len() + k <= usize::MAX,
    ensures
        states_model(final(dst)@) == states_model(old(dst)@) + shift_states(
            states_model(src@),
            k as int,
        ),
{
    let ghost start = states_model(dst@);
    let mut i: usize = 0;
    while i < src.len()
        invariant
            i <= src.len(),
            forall|q: int|
                0 <= q < src@.len() ==> edges_below(
                    (#[trigger] states_model(src@)[q]).edges,
                    src@.len() as int,
                ),
            src@.len() + k <= usize::MAX,
            states_model(dst@) == start + shift_states(states_model(src@), k as int).subrange(
                0,
                i as int,
            ),
        decreases src.len() - i,
    {
        assert(states_model(src@)[i as int] == src@[i as int]@);
        let s = shifted_state(&src[i], k, Ghost(src@.len() as int));
        let ghost before = dst@;
        dst.push(s);
        assert(states_model(dst@) =~= states_model(before).push(s@));
        assert(states_model(dst@) =~= start + shift_states(states_model(src@), k as int).subrange(
            0,
            i + 1,
        ));
        i += 1;
    }
    assert(shift_states(states_model(src@), k as int).subrange(0, i as int) =~= shift_states(
        states_model(src@),
        k as int,
    ));
}

/// Sets the accepting flag of state `i` and, when `link` holds, adds an
/// epsilon edge from it to `t`.
fn rewrite_state(states: &mut Vec<State>, i: usize, accepting: bool, link: bool, t: usize)
    requires
        i < old(states)@.len(),
        old(states)@[i as int].wf(),
    ensures
        states_model(final(states)@) == states_model(old(states)@).update(
            i as int,
            StateModel {
                accepting,
                edges: if link {
                    add_edge(old(states)@[i as int]@.edges, EPSILON, t)
                } else {
                    old(states)@[i as int]@.edges
                },
            },
        ),
{
    let ghost before = states@;
    let mut s = states.remove(i);
    s.accepting = accepting;
    if link {
        s.add_transition_for_symbol(EPSILON, t);
    }
    states.insert(i, s);
    assert(states@ =~= before.update(i as int, s));
    assert(states_model(states@) =~= states_model(before).update(i as int, s@));
}

impl NFA {
    pub open spec fn wf(&self) -> bool {
        self@.wf()
    }

    /// The fragment that matches only the empty input: two states, no edges.
    pub fn empty() -> (r: NFA)
        ensures
            r@ == empty_model(),
            r.wf(),
    {
        let mut states: Vec<State> = Vec::new();
        states.push(State { accepting: false, transitions: Vec::new() });
        states.push(State { accepting: true, transitions: Vec::new() });
        let r = NFA { states, in_state: 0, out_state: 1 };
        assert(r.states@[0]@.edges =~= Seq::empty());
        assert(r.states@[1]@.edges =~= Seq::empty());
        assert(r@.states =~= empty_model().states);
        r
    }

    /// The fragment that matches the one symbol `symbol`.
    pub fn char(symbol: char) -> (r: NFA)
        ensures
            r@ == char_model(symbol),
            r.wf(),
    {
        let mut entry = State { accepting: false, transitions: Vec::new() };
        entry.add_transition_for_symbol(symbol, 1);
        assert(entry@.edges =~= seq![(symbol, seq![1usize])]);
        let mut states: Vec<State> = Vec::new();
        states.push(entry);
        states.push(State { accepting: true, transitions: Vec::new() });
        let r = NFA { states, in_state: 0, out_state: 1 };
        assert(r.states@[1]@.edges =~= Seq::empty());
        assert(r@.states =~= char_model(symbol).states);
        r
    }

    /// The fragment that matches the empty input through one epsilon edge.
    pub fn epsilon() -> (r: NFA)
        ensures
            r@ == char_model(EPSILON),
            r.wf(),
    {
        NFA::char(EPSILON)
    }

    /// The concatenation of two fragments.
    pub fn concat_pair(first: NFA, second: NFA) -> (r: NFA)
        requires
            first.wf(),
            second.wf(),
            first.states@.len() + second.states@.len() <= usize::MAX,
        ensures
            r@ == concat_model(first@, second@),
            r.wf(),
    {
        proof {
            lemma_concat_wf(first@, second@);
        }
        let n = first.states.len();
        let mut states = first.states;
        let ghost a = first@;
        let ghost b = second@;
        rewrite_state(&mut states, first.out_state, false, true, second.in_state + n);
        let ghost left = states_model(states@);
        append_shifted(&mut states, &second.states, n);
        let ghost mid = states_model(states@);
        assert(mid.len() == states@.len());
        assert(mid[second.out_state + n] == states@[second.out_state + n]@);
        assert(mid[second.out_state + n] == shift_states(b.states, n as int)[b.exit]);
        rewrite_state(&mut states, second.out_state + n, true, false, 0);
        let r = NFA { states, in_state: first.in_state, out_state: second.out_state + n };
        assert(r@.states =~= concat_model(a, b).states);
        r
    }

    /// The concatenation of two or more fragments, folded from the left.
    pub fn concat(nfas: Vec<NFA>) -> (r: NFA)
        requires
            nfas@.len() >= 2,
            forall|i: int| 0 <= i < nfas@.len() ==> (#[trigger] nfas@[i]).wf(),
            total_states(models(nfas@)) <= usize::MAX,
        ensures
            r@ == concat_all(models(nfas@)),
            r.wf(),
            r.states@.len() == total_states(models(nfas@)),
    {
        let ghost ms = models(nfas@);
        let count = nfas.len();
        assert(ms.len() == count);
        let mut rest = nfas;
        let mut acc = rest.remove(0);
        let mut i: usize = 1;
        proof {
            assert(ms.subrange(0, 1).drop_last() =~= Seq::<NfaModel>::empty());
            assert(total_states(Seq::<NfaModel>::empty()) == 0);
            assert(ms.subrange(0, 1).last() == ms[0]);
            assert(total_states(ms.subrange(0, 1)) == ms[0].states.len());
            assert(models(rest@) =~= ms.subrange(1, ms.len() as int));
            assert(concat_all(ms.subrange(0, 1)) == ms[0]);
            lemma_total_states_prefix(ms, 1);
        }
        while rest.len() > 0
            invariant
                1 <= i <= ms.len(),
                ms.len() <= usize::MAX,
                ms.len() >= 2,
                models(rest@) == ms.subrange(i as int, ms.len() as int),
                forall|q: int| 0 <= q < rest@.len() ==> (#[trigger] rest@[q]).wf(),
                acc.wf(),
                acc@ == concat_all(ms.subrange(0, i as int)),
                acc.states@.len() == total_states(ms.subrange(0, i as int)),
                total_states(ms) <= usize::MAX,
            decreases rest.len(),
        {
            let ghost old_rest = rest@;
            assert(models(old_rest)[0] == old_rest[0]@);
            assert(models(old_rest).len() == old_rest.len());
            let next = rest.remove(0);
            assert(rest@ == old_rest.remove(0));
            proof {
                assert(next@ == ms[i as int]);
                lemma_total_states_prefix(ms, i as int + 1);
                let p = ms.subrange(0, i + 1);
                assert(p.drop_last() =~= ms.subrange(0, i as int));
                assert(p.last() == ms[i as int]);
                lemma_concat_wf(acc@, next@);
                assert forall|q: int| 0 <= q < rest@.len() implies #[trigger] models(rest@)[q]
                    == ms[i + 1 + q] by {
                    assert(rest@[q] == old_rest[q + 1]);
                    assert(models(old_rest)[q + 1] == old_rest[q + 1]@);
                }
                assert(models(rest@) =~= ms.subrange(i + 1, ms.len() as int));
                assert(total_states(p) == total_states(ms.subrange(0, i as int)) + ms[i as int].states.len());
            }
            acc = NFA::concat_pair(acc, next);
            i += 1;
        }
        assert(ms.subrange(0, i as int) =~= ms);
        acc
    }

    /// The union of two fragments.
    pub fn or_pair(first: NFA, second: NFA) -> (r: NFA)
        requires
            first.wf(),
            second.wf(),
            first.states@.len() + second.states@.len() + 2 <= usize::MAX,
        ensures
            r@ == or_model(first@, second@),
            r.wf(),
    {
        proof {
            lemma_or_wf(first@, second@);
        }
        let n1 = first.states.len();
        let n2 = second.states.len();
        let join = n1 + n2 + 1;
        let mut states = first.states;
        let ghost a = first@;
        let ghost b = second@;
        rewrite_state(&mut states, first.out_state, false, true, join);
        append_shifted(&mut states, &second.states, n1);
        assert(states_model(states@).len() == states@.len());
        assert(states_model(states@)[second.out_state + n1] == states@[second.out_state + n1]@);
        assert(states@[second.out_state + n1]@ == shift_states(b.states, n1 as int)[b.exit]);
        assert(states@[second.out_state + n1].wf()) by {
            lemma_shift_edges_wf(b.states[b.exit].edges, n1 as int, n2 as int);
        }
        rewrite_state(&mut states, second.out_state + n1, false, true, join);
        let mut fork = State { accepting: false, transitions: Vec::new() };
        assert(fork@.edges =~= Seq::empty());
        fork.add_transition_for_symbol(EPSILON, first.in_state);
        let ghost e0 = fork@.edges;
        assert(e0 =~= seq![(EPSILON, seq![first.in_state])]);
        fork.add_transition_for_symbol(EPSILON, second.in_state + n1);
        proof {
            crate::state::lemma_symbol_pos_unique(e0, EPSILON, 0);
            assert(e0[0].1.push((second.in_state + n1) as usize) =~= seq![
                first.in_state,
                (second.in_state + n1) as usize,
            ]);
            assert(fork@.edges =~= seq![
                (EPSILON, seq![first.in_state, (second.in_state + n1) as usize]),
            ]);
        }
        let ghost before = states@;
        states.push(fork);
        let end = State { accepting: true, transitions: Vec::new() };
        assert(end@.edges =~= Seq::empty());
        states.push(end);
        assert(states_model(states@) =~= states_model(before).push(fork@).push(end@));
        let r = NFA { states, in_state: n1 + n2, out_state: join };
        assert(r@.states =~= or_model(a, b).states);
        r
    }

    /// The union of two or more fragments, folded from the left.
    pub fn or(nfas: Vec<NFA>) -> (r: NFA)
        requires
            nfas@.len() >= 2,
            forall|i: int| 0 <= i < nfas@.len() ==> (#[trigger] nfas@[i]).wf(),
            total_states(models(nfas@)) + 2 * (nfas@.len() - 1) <= usize::MAX,
        ensures
            r@ == or_all(models(nfas@)),
            r.wf(),
            r.states@.len() == total_states(models(nfas@)) + 2 * (nfas@.len() - 1),
    {
        let ghost ms = models(nfas@);
        let count = nfas.len();
        assert(ms.len() == count);
        let mut rest = nfas;
        let mut acc = rest.remove(0);
        let mut i: usize = 1;
        proof {
            assert(ms.subrange(0, 1).drop_last() =~= Seq::<NfaModel>::empty());
            assert(total_states(Seq::<NfaModel>::empty()) == 0);
            assert(ms.subrange(0, 1).last() == ms[0]);
            assert(total_states(ms.subrange(0, 1)) == ms[0].states.len());
            assert(models(rest@) =~= ms.subrange(1, ms.len() as int));
            assert(or_all(ms.subrange(0, 1)) == ms[0]);
            lemma_total_states_prefix(ms, 1);
        }
        while rest.len() > 0
            invariant
                1 <= i <= ms.len(),
                ms.len() <= usize::MAX,
                ms.len() >= 2,
                models(rest@) == ms.subrange(i as int, ms.len() as int),
                forall|q: int| 0 <= q < rest@.len() ==> (#[trigger] rest@[q]).wf(),
                acc.wf(),
                acc@ == or_all(ms.subrange(0, i as int)),
                acc.states@.len() == total_states(ms.subrange(0, i as int)) + 2 * (i - 1),
                total_states(ms) + 2 * (ms.len() - 1) <= usize::MAX,
            decreases rest.len(),
        {
            let ghost old_rest = rest@;
            assert(models(old_rest)[0] == old_rest[0]@);
            assert(models(old_rest).len() == old_rest.len());
            let next = rest.remove(0);
            assert(rest@ == old_rest.remove(0));
            proof {
                assert(next@ == ms[i as int]);
                lemma_total_states_prefix(ms, i as int + 1);
                let p = ms.subrange(0, i + 1);
                assert(p.drop_last() =~= ms.subrange(0, i as int));
                assert(p.last() == ms[i as int]);
                lemma_or_wf(acc@, next@);
                assert forall|q: int| 0 <= q < rest@.len() implies #[trigger] models(rest@)[q]
                    == ms[i + 1 + q] by {
                    assert(rest@[q] == old_rest[q + 1]);
                    assert(models(old_rest)[q + 1] == old_rest[q + 1]@);
                }
                assert(models(rest@) =~= ms.subrange(i + 1, ms.len() as int));
                assert(total_states(p) == total_states(ms.subrange(0, i as int)) + ms[i as int].states.len());
            }
            acc = NFA::or_pair(acc, next);
            i += 1;
        }
        assert(ms.subrange(0, i as int) =~= ms);
        acc
    }

    /// Zero or more repetitions of a fragment (Kleene star); no new states.
    pub fn rep(fragment: NFA) -> (r: NFA)
        requires
            fragment.wf(),
        ensures
            r@ == rep_model(fragment@),
            r.wf(),
    {
        proof {
            lemma_rep_wf(fragment@);
        }
        let ghost a = fragment@;
        let mut states = fragment.states;
        let entry = fragment.in_state;
        let exit = fragment.out_state;
        let acc_entry = states[entry].accepting;
        rewrite_state(&mut states, entry, acc_entry, true, exit);
        let acc_exit = states[exit].accepting;
        proof {
            let s1 = a.states.update(a.entry, with_edge(a.states[a.entry], EPSILON, a.exit as usize));
            lemma_add_edge_distinct(a.states[a.entry].edges, EPSILON, exit);
            assert(states_model(states@) == s1);
            assert(states@[exit as int]@ == s1[a.exit]);
        }
        rewrite_state(&mut states, exit, acc_exit, true, entry);
        let r = NFA { states, in_state: entry, out_state: exit };
        assert(r@.states =~= rep_model(a).states);
        r
    }
}

pub proof fn lemma_total_states_prefix(ms: Seq<NfaModel>, i: int)
    requires
        0 <= i <= ms.len(),
    ensures
        total_states(ms.subrange(0, i)) <= total_states(ms),
    decreases ms.len(),
{
    if i < ms.len() {
        lemma_total_states_prefix(ms.drop_last(), i);
        assert(ms.drop_last().subrange(0, i) =~= ms.subrange(0, i));
    } else {
        assert(ms.subrange(0, i) =~= ms);
    }
}

} // verus!
