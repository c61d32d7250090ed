use vstd::prelude::*;

use crate::nfa::{edges_below, NfaModel, NFA};
use crate::state::State;
use crate::state::{has_symbol, symbol_pos, targets, StateModel, EPSILON};

verus! {

/// The ids of `ts`, looked up in `ids` (indexed by arena position).
pub open spec fn map_ids(ts: Seq<usize>, ids: Seq<usize>) -> Seq<usize> {
    ts.map_values(|t: usize| ids[t as int])
}

/// The epsilon column of a row: the row's own id, then the ids of the states
/// reached by one epsilon edge, in edge order.
pub open spec fn epsilon_column(st: StateModel, id: usize, ids: Seq<usize>) -> Seq<usize> {
    seq![id] + map_ids(targets(st.edges, EPSILON), ids)
}

pub open spec fn symbol_column(e: (char, Seq<usize>), ids: Seq<usize>) -> Option<
    (char, Seq<usize>),
> {
    if e.0 != EPSILON {
        Some((e.0, map_ids(e.1, ids)))
    } else {
        None
    }
}

/// The other columns of a row: each symbol but epsilon, in edge order, with
/// the ids of its targets.
pub open spec fn symbol_columns(edges: Seq<(char, Seq<usize>)>, ids: Seq<usize>) -> Seq<
    (char, Seq<usize>),
> {
    edges.filter_map(|e: (char, Seq<usize>)| symbol_column(e, ids))
}

/// There is an edge from state `u` to state `v`.
pub open spec fn has_edge(m: NfaModel, u: int, v: int) -> bool {
    exists|i: int, j: int|
        0 <= i < m.states[u].edges.len() && 0 <= j < m.states[u].edges[i].1.len()
            && #[trigger] m.states[u].edges[i].1[j] == v
}

/// A numbering of states by first visit: `order[k]` is the arena index of the
/// state with id `k + 1`, and `ids[s]` is the id of state `s`, or 0 if it has
/// none.
pub open spec fn numbering(m: NfaModel, ids: Seq<usize>, order: Seq<usize>) -> bool {
    &&& ids.len() == m.states.len()
    &&& order.no_duplicates()
    &&& forall|k: int| 0 <= k < order.len() ==> #[trigger] order[k] < m.states.len()
    &&& forall|k: int| 0 <= k < order.len() ==> ids[#[trigger] order[k] as int] == k + 1
    &&& forall|s: int|
        0 <= s < ids.len() && #[trigger] ids[s] != 0 ==> ids[s] <= order.len() && order[ids[s]
            - 1] == s
}

/// Every state but the first was reached by an edge from a state numbered
/// before it.
pub open spec fn discovered(m: NfaModel, order: Seq<usize>) -> bool {
    forall|k: int| 0 < k < order.len() ==> #[trigger] reached_from_before(m, order, k)
}

/// The state numbered `k + 1` has an edge into it from a state numbered
/// before it.
pub open spec fn reached_from_before(m: NfaModel, order: Seq<usize>, k: int) -> bool {
    exists|j: int| 0 <= j < k && #[trigger] has_edge(m, order[j] as int, order[k] as int)
}

/// Every target of a numbered state is numbered.
pub open spec fn expanded(m: NfaModel, ids: Seq<usize>, s: int) -> bool {
    forall|i: int, j: int|
        0 <= i < m.states[s].edges.len() && 0 <= j < m.states[s].edges[i].1.len() ==> ids[
        #[trigger] m.states[s].edges[i].1[j] as int] != 0
}

pub struct NFARowModel {
    pub accepting: bool,
    pub epsilon: Seq<usize>,
    pub symbols: Seq<(char, Seq<usize>)>,
}

/// One row of the NFA table: whether the state accepts, its epsilon column
/// and its other columns.
#[derive(Debug, Clone, PartialEq, Eq)]
pub struct NFARow {
    pub accepting: bool,
    pub epsilon: Vec<usize>,
    pub symbols: Vec<(char, Vec<usize>)>,
}

impl View for NFARow {
    type V = NFARowModel;

    open spec fn view(&self) -> NFARowModel {
        NFARowModel {
            accepting: self.accepting,
            epsilon: self.epsilon@,
            symbols: crate::state::edges_model(self.symbols@),
        }
    }
}

/// The row that state `s` gets under the numbering `ids`.
pub open spec fn row_of(m: NfaModel, s: int, ids: Seq<usize>) -> NFARowModel {
    NFARowModel {
        accepting: m.states[s].accepting,
        epsilon: epsilon_column(m.states[s], ids[s], ids),
        symbols: symbol_columns(m.states[s].edges, ids),
    }
}

/// The transition table of an NFA: the row of the state with id `k + 1`
/// stands at index `k`, and ids follow the order of first visit from the
/// entry.
#[derive(Debug, Clone, PartialEq, Eq)]
pub struct NFATable {
    pub starting_state: usize,
    pub table: Vec<NFARow>,
    /// The arena index of the state of each row.
    pub visit_order: Vec<usize>,
    /// The id of each state of the arena, 0 for a state never reached.
    pub state_ids: Vec<usize>,
}

pub open spec fn rows_model(v: Seq<NFARow>) -> Seq<NFARowModel> {
    v.map_values(|r: NFARow| r@)
}

/// Depth-first numbering from state `s`, which `order` numbers last: each
/// target, in edge order, that is not numbered yet is numbered next and then
/// explored. `fuel` bounds the depth.
pub open spec fn dfs_from(m: NfaModel, s: int, order: Seq<usize>, fuel: nat) -> Seq<usize>
    decreases fuel, 1int, 0int, 0int,
{
    if fuel == 0 || !(0 <= s < m.states.len()) {
        order
    } else {
        dfs_edges(m, s, 0, 0, order, fuel)
    }
}

/// Depth-first numbering over the edges of `s` from target `j` of entry `i`
/// on.
pub open spec fn dfs_edges(m: NfaModel, s: int, i: int, j: int, order: Seq<usize>, fuel: nat) -> Seq<
    usize,
>
    decreases fuel, 0int, m.states[s].edges.len() - i, m.states[s].edges[i].1.len() - j,
{
    if fuel == 0 || !(0 <= s < m.states.len()) || i < 0 || i >= m.states[s].edges.len() || j < 0 {
        order
    } else if j >= m.states[s].edges[i].1.len() {
        dfs_edges(m, s, i + 1, 0, order, fuel)
    } else {
        let t = m.states[s].edges[i].1[j];
        if order.contains(t) {
            dfs_edges(m, s, i, j + 1, order, fuel)
        } else {
            dfs_edges(m, s, i, j + 1, dfs_from(m, t as int, order.push(t), (fuel - 1) as nat), fuel)
        }
    }
}

/// The states in depth-first order from the entry, following edges in order.
pub open spec fn dfs_order(m: NfaModel) -> Seq<usize> {
    dfs_from(m, m.entry, seq![m.entry as usize], (m.states.len() + 1) as nat)
}

/// A sequence without duplicates of values below `n` has at most `n` items.
pub proof fn lemma_distinct_below(s: Seq<usize>, n: int)
    requires
        0 <= n,
        s.no_duplicates(),
        forall|i: int| 0 <= i < s.len() ==> #[trigger] s[i] < n,
    ensures
        s.len() <= n,
    decreases n,
{
    if n <= 0 {
        if s.len() > 0 {
            assert(s[0] < n);
            assert(s[0] >= 0);
        }
        assert(s.len() <= n);
    } else {
        let m: int = n - 1;
        if exists|p: int| 0 <= p < s.len() && s[p] as int == m {
            let p = choose|p: int| 0 <= p < s.len() && s[p] as int == m;
            let s2 = s.remove(p);
            assert forall|i: int| 0 <= i < s2.len() implies #[trigger] s2[i] < n - 1 by {
                if i < p {
                    assert(s2[i] == s[i]);
                } else {
                    assert(s2[i] == s[i + 1]);
                }
            }
            assert forall|i: int, j: int|
                0 <= i < s2.len() && 0 <= j < s2.len() && i != j implies s2[i] != s2[j] by {
                let a = if i < p { i } else { i + 1 };
                let b = if j < p { j } else { j + 1 };
                assert(s2[i] == s[a]);
                assert(s2[j] == s[b]);
            }
            lemma_distinct_below(s2, n - 1);
            assert(s2.len() == s.len() - 1);
            assert(s.len() <= n);
        } else {
            assert forall|i: int| 0 <= i < s.len() implies #[trigger] s[i] < n - 1 by {
                if s[i] as int == m {
                    assert(0 <= i < s.len() && s[i] as int == m);
                }
            }
            lemma_distinct_below(s, n - 1);
            assert(s.len() <= n);
        }
    }
}

pub proof fn lemma_discovered_push(m: NfaModel, o: Seq<usize>, t: usize, q: int)
    requires
        discovered(m, o),
        0 <= q < o.len(),
        has_edge(m, o[q] as int, t as int),
    ensures
        discovered(m, o.push(t)),
{
    let o2 = o.push(t);
    assert forall|k: int| 0 < k < o2.len() implies #[trigger] reached_from_before(m, o2, k) by {
        if k < o.len() {
            assert(reached_from_before(m, o, k));
            let j = choose|j: int| 0 <= j < k && #[trigger] has_edge(m, o[j] as int, o[k] as int);
            assert(o2[j] == o[j]);
            assert(o2[k] == o[k]);
            assert(has_edge(m, o2[j] as int, o2[k] as int));
        } else {
            assert(o2[q] == o[q]);
            assert(o2[k] == t);
            assert(has_edge(m, o2[q] as int, o2[k] as int));
        }
    }
}

pub proof fn lemma_prefix_trans(a: Seq<usize>, b: Seq<usize>, c: Seq<usize>)
    requires
        a.len() <= b.len() <= c.len(),
        b.subrange(0, a.len() as int) == a,
        c.subrange(0, b.len() as int) == b,
    ensures
        c.subrange(0, a.len() as int) == a,
{
    assert forall|q: int| 0 <= q < a.len() implies c[q] == a[q] by {
        assert(c.subrange(0, b.len() as int)[q] == b[q]);
        assert(b.subrange(0, a.len() as int)[q] == a[q]);
    }
    assert(c.subrange(0, a.len() as int) =~= a);
}

/// Expanded states stay expanded while the numbering grows.
pub proof fn lemma_grow(
    m: NfaModel,
    ids1: Seq<usize>,
    o1: Seq<usize>,
    ids2: Seq<usize>,
    o2: Seq<usize>,
    lo: int,
    hi: int,
)
    requires
        m.wf(),
        numbering(m, ids1, o1),
        numbering(m, ids2, o2),
        o1.len() <= o2.len(),
        o2.subrange(0, o1.len() as int) == o1,
        0 <= lo,
        hi <= o1.len(),
        forall|k: int| lo <= k < hi ==> expanded(m, ids1, #[trigger] o1[k] as int),
    ensures
        forall|k: int| lo <= k < hi ==> expanded(m, ids2, #[trigger] o2[k] as int),
{
    assert forall|k: int| lo <= k < hi implies expanded(m, ids2, #[trigger] o2[k] as int) by {
        assert(o2.subrange(0, o1.len() as int)[k] == o1[k]);
        let u = o1[k] as int;
        assert(expanded(m, ids1, u));
        assert forall|a: int, b: int|
            0 <= a < m.states[u].edges.len() && 0 <= b < m.states[u].edges[a].1.len() implies ids2[
        #[trigger] m.states[u].edges[a].1[b] as int] != 0 by {
            let x = m.states[u].edges[a].1[b] as int;
            assert(edges_below(m.states[u].edges, m.states.len() as int));
            assert(ids1[x] != 0);
            lemma_numbered_stays(m, ids1, o1, ids2, o2, x);
        }
    }
}

/// A state keeps its id while the numbering grows.
pub proof fn lemma_numbered_stays(
    m: NfaModel,
    ids1: Seq<usize>,
    o1: Seq<usize>,
    ids2: Seq<usize>,
    o2: Seq<usize>,
    p: int,
)
    requires
        numbering(m, ids1, o1),
        numbering(m, ids2, o2),
        o1.len() <= o2.len(),
        o2.subrange(0, o1.len() as int) == o1,
        0 <= p < ids1.len(),
        ids1[p] != 0,
    ensures
        ids2[p] == ids1[p],
{
    let k = ids1[p] - 1;
    assert(o1[k] == p);
    assert(o2.subrange(0, o1.len() as int)[k] == o2[k]);
    assert(ids2[o2[k] as int] == k + 1);
}

/// The id of state `s`, numbering it next if it has none yet.
fn get_state_id(
    ids: &mut Vec<usize>,
    order: &mut Vec<usize>,
    s: usize,
    m: Ghost<NfaModel>,
) -> (r: usize)
    requires
        numbering(m@, old(ids)@, old(order)@),
        s < m@.states.len(),
    ensures
        numbering(m@, final(ids)@, final(order)@),
        r == final(ids)@[s as int],
        r != 0,
        old(ids)@[s as int] != 0 ==> final(ids)@ == old(ids)@ && final(order)@ == old(order)@,
        old(ids)@[s as int] == 0 ==> final(order)@ == old(order)@.push(s) && final(ids)@ == old(
            ids,
        )@.update(s as int, final(order)@.len() as usize),
{
    if ids[s] != 0 {
        return ids[s];
    }
    proof {
        lemma_distinct_below(order@, m@.states.len() as int);
        assert(!order@.contains(s)) by {
            if order@.contains(s) {
                let k = choose|k: int| 0 <= k < order@.len() && order@[k] == s;
                assert(ids@[order@[k] as int] == k + 1);
            }
        }
    }
    let ghost o = order@;
    let ghost i0 = ids@;
    order.push(s);
    let id = order.len();
    ids.set(s, id);
    proof {
        assert forall|k: int| 0 <= k < order@.len() implies ids@[#[trigger] order@[k] as int]
            == k + 1 by {
            if k < o.len() {
                assert(o[k] != s);
            }
        }
        assert forall|q: int| 0 <= q < ids@.len() && #[trigger] ids@[q] != 0 implies ids@[q]
            <= order@.len() && order@[ids@[q] - 1] == q by {
            if q != s {
                assert(i0[q] != 0);
            }
        }
        assert forall|i: int, j: int|
            0 <= i < order@.len() && 0 <= j < order@.len() && i != j implies order@[i]
            != order@[j] by {
            if i < o.len() && j < o.len() {
            } else if i < o.len() {
                assert(o[i] != s);
            } else if j < o.len() {
                assert(o[j] != s);
            }
        }
    }
    id
}

/// Numbers, depth first in edge order, every state reached from `s`, the
/// state numbered last.
fn walk_state(nfa: &NFA, ids: &mut Vec<usize>, order: &mut Vec<usize>, s: usize, fuel: Ghost<nat>)
    requires
        nfa.wf(),
        fuel@ >= nfa.states@.len() - old(order)@.len() + 2,
        numbering(nfa@, old(ids)@, old(order)@),
        discovered(nfa@, old(order)@),
        old(order)@.len() >= 1,
        old(order)@.last() == s,
    ensures
        numbering(nfa@, final(ids)@, final(order)@),
        discovered(nfa@, final(order)@),
        final(order)@.len() >= old(order)@.len(),
        final(order)@.subrange(0, old(order)@.len() as int) == old(order)@,
        final(order)@ == dfs_from(nfa@, s as int, old(order)@, fuel@),
        forall|k: int|
            old(order)@.len() - 1 <= k < final(order)@.len() ==> expanded(
                nfa@,
                final(ids)@,
                #[trigger] final(order)@[k] as int,
            ),
    decreases nfa.states@.len() - old(order)@.len(),
{
    let ghost m = nfa@;
    let ghost o0 = order@;
    let ghost n = m.states.len() as int;
    proof {
        lemma_distinct_below(order@, n);
        assert(m.states[s as int] == nfa.states@[s as int]@);
    }
    let state = &nfa.states[s];
    let mut i: usize = 0;
    assert(dfs_from(m, s as int, o0, fuel@) == dfs_edges(m, s as int, 0, 0, o0, fuel@));
    while i < state.transitions.len()
        invariant
            nfa.wf(),
            m == nfa@,
            fuel@ >= n - o0.len() + 2,
            fuel@ >= 2,
            dfs_from(m, s as int, o0, fuel@) == dfs_edges(m, s as int, i as int, 0, order@, fuel@),
            s < n,
            n == nfa.states@.len(),
            state@ == m.states[s as int],
            i <= state.transitions.len(),
            numbering(m, ids@, order@),
            discovered(m, order@),
            order@.len() >= o0.len(),
            o0.len() >= 1,
            o0 == old(order)@,
            o0.last() == s,
            order@.subrange(0, o0.len() as int) == o0,
            forall|k: int|
                o0.len() <= k < order@.len() ==> expanded(m, ids@, #[trigger] order@[k] as int),
            forall|a: int, b: int|
                0 <= a < i && 0 <= b < m.states[s as int].edges[a].1.len() ==> ids@[
                #[trigger] m.states[s as int].edges[a].1[b] as int] != 0,
        decreases state.transitions.len() - i,
    {
        let ts = &state.transitions[i].1;
        assert(ts@ == m.states[s as int].edges[i as int].1);
        let mut j: usize = 0;
        while j < ts.len()
            invariant
                nfa.wf(),
                m == nfa@,
                fuel@ >= n - o0.len() + 2,
                fuel@ >= 2,
                dfs_from(m, s as int, o0, fuel@) == dfs_edges(
                    m,
                    s as int,
                    i as int,
                    j as int,
                    order@,
                    fuel@,
                ),
                s < n,
                n == nfa.states@.len(),
                state@ == m.states[s as int],
                i < state.transitions.len(),
                ts@ == m.states[s as int].edges[i as int].1,
                j <= ts.len(),
                numbering(m, ids@, order@),
                discovered(m, order@),
                order@.len() >= o0.len(),
                o0.len() >= 1,
                o0 == old(order)@,
                o0.last() == s,
                order@.subrange(0, o0.len() as int) == o0,
                forall|k: int|
                    o0.len() <= k < order@.len() ==> expanded(m, ids@, #[trigger] order@[k] as int),
                forall|a: int, b: int|
                    0 <= a < i && 0 <= b < m.states[s as int].edges[a].1.len() ==> ids@[
                    #[trigger] m.states[s as int].edges[a].1[b] as int] != 0,
                forall|b: int| 0 <= b < j ==> ids@[#[trigger] ts@[b] as int] != 0,
            decreases ts.len() - j,
        {
            let t = ts[j];
            assert(t < n);
            let known = ids[t] != 0;
            let ghost ids_before = ids@;
            let ghost order_before = order@;
            proof {
                assert(m.states[s as int].edges[i as int].1[j as int] == t);
                if known {
                    assert(order_before[ids_before[t as int] - 1] == t);
                    assert(order_before.contains(t));
                } else if order_before.contains(t) {
                    let k = choose|k: int| 0 <= k < order_before.len() && order_before[k] == t;
                    assert(ids_before[order_before[k] as int] == k + 1);
                }
                assert(known == order_before.contains(t));
            }
            let _id = get_state_id(ids, order, t, Ghost(m));
            if !known {
                proof {
                    let ps = o0.len() - 1;
                    assert(order_before.subrange(0, o0.len() as int)[ps] == o0[ps]);
                    assert(order_before[ps] == s);
                    assert(m.states[s as int].edges[i as int].1[j as int] == t);
                    assert(has_edge(m, s as int, t as int));
                    lemma_discovered_push(m, order_before, t, ps);
                    assert(order@ == order_before.push(t));
                    assert(order@.subrange(0, order_before.len() as int) =~= order_before);
                    lemma_prefix_trans(o0, order_before, order@);
                    lemma_distinct_below(order@, n);
                }
                let ghost ids_mid = ids@;
                let ghost order_mid = order@;
                assert(n - order@.len() >= 0);
                assert(order@.len() > o0.len());
                walk_state(nfa, ids, order, t, Ghost((fuel@ - 1) as nat));
                proof {
                    assert(order_mid == order_before.push(t));
                    assert(order_mid.subrange(0, order_before.len() as int) =~= order_before);
                    lemma_prefix_trans(order_before, order_mid, order@);
                    lemma_prefix_trans(o0, order_before, order@);
                    lemma_grow(
                        m,
                        ids_before,
                        order_before,
                        ids@,
                        order@,
                        o0.len() as int,
                        order_before.len() as int,
                    );
                    assert forall|k: int| o0.len() <= k < order@.len() implies expanded(
                        m,
                        ids@,
                        #[trigger] order@[k] as int,
                    ) by {
                        if k < order_before.len() {
                        }
                    }
                }
            } else {
                assert(ids@ == ids_before);
            }
            proof {
                assert(dfs_edges(m, s as int, i as int, j as int, order_before, fuel@) == dfs_edges(
                    m,
                    s as int,
                    i as int,
                    j + 1,
                    order@,
                    fuel@,
                ));
                assert(order@.subrange(0, order_before.len() as int) =~= order_before);
                assert forall|a: int, b: int|
                    0 <= a < i && 0 <= b < m.states[s as int].edges[a].1.len() implies ids@[
                #[trigger] m.states[s as int].edges[a].1[b] as int] != 0 by {
                    let p = m.states[s as int].edges[a].1[b] as int;
                    lemma_numbered_stays(m, ids_before, order_before, ids@, order@, p);
                }
                assert forall|b: int| 0 <= b < j + 1 implies ids@[#[trigger] ts@[b] as int] != 0 by {
                    if b < j {
                        let p = ts@[b] as int;
                        lemma_numbered_stays(m, ids_before, order_before, ids@, order@, p);
                    }
                }
            }
            j += 1;
        }
        assert(dfs_edges(m, s as int, i as int, j as int, order@, fuel@) == dfs_edges(
            m,
            s as int,
            i + 1,
            0,
            order@,
            fuel@,
        ));
        i += 1;
    }
    assert(dfs_edges(m, s as int, i as int, 0, order@, fuel@) == order@);
    proof {
        assert(expanded(m, ids@, s as int));
        assert forall|k: int| o0.len() - 1 <= k < order@.len() implies expanded(
            m,
            ids@,
            #[trigger] order@[k] as int,
        ) by {
            if k == o0.len() - 1 {
                assert(order@.subrange(0, o0.len() as int)[k] == o0[k]);
            }
        }
    }
}

} // verus!

verus! {

/// Every id of `ids` is the id of a row: between 1 and `n`.
pub open spec fn ids_in_range(ids: Seq<usize>, n: int) -> bool {
    forall|i: int| 0 <= i < ids.len() ==> 1 <= #[trigger] ids[i] <= n
}

/// The targets of the first column labelled `c`, if any.
pub open spec fn column(cols: Seq<(char, Seq<usize>)>, c: char) -> Option<Seq<usize>>
    decreases cols.len(),
{
    if cols.len() == 0 {
        None
    } else if cols[0].0 == c {
        Some(cols[0].1)
    } else {
        column(cols.drop_first(), c)
    }
}

pub proof fn lemma_filter_map_from(edges: Seq<(char, Seq<usize>)>, ids: Seq<usize>, q: int)
    requires
        0 <= q < symbol_columns(edges, ids).len(),
    ensures
        exists|i: int|
            0 <= i < edges.len() && symbol_column(#[trigger] edges[i], ids) == Some(
                symbol_columns(edges, ids)[q],
            ),
    decreases edges.len(),
{
    let f = |e: (char, Seq<usize>)| symbol_column(e, ids);
    let rest = edges.drop_last();
    assert(symbol_columns(rest, ids) == rest.filter_map(f));
    if q < symbol_columns(rest, ids).len() {
        lemma_filter_map_from(rest, ids, q);
        let i = choose|i: int|
            0 <= i < rest.len() && symbol_column(#[trigger] rest[i], ids) == Some(
                symbol_columns(rest, ids)[q],
            );
        assert(edges[i] == rest[i]);
    } else {
        assert(edges[edges.len() - 1] == edges.last());
    }
}

impl NFATable {
    /// The table is consistent: it has a first row, the start is id 1, every
    /// id in a column is the id of a row, and each epsilon column begins with
    /// the row's own id.
    pub open spec fn wf(&self) -> bool {
        let rows = rows_model(self.table@);
        &&& rows.len() >= 1
        &&& self.starting_state == 1
        &&& forall|k: int|
            0 <= k < rows.len() ==> ids_in_range(#[trigger] rows[k].epsilon, rows.len() as int)
                && rows[k].epsilon.len() >= 1 && rows[k].epsilon[0] == k + 1
        &&& forall|k: int, i: int|
            0 <= k < rows.len() && 0 <= i < rows[k].symbols.len() ==> ids_in_range(
                #[trigger] rows[k].symbols[i].1,
                rows.len() as int,
            )
    }

    /// The table was extracted from the fragment `m`: states are numbered in
    /// order of first visit from the entry, every state reached from the
    /// entry is numbered, and each row is the row of its state.
    pub open spec fn extracted_from(&self, m: NfaModel) -> bool {
        let order = self.visit_order@;
        let ids = self.state_ids@;
        &&& self.starting_state == 1
        &&& order == dfs_order(m)
        &&& order.len() >= 1
        &&& order[0] == m.entry
        &&& numbering(m, ids, order)
        &&& discovered(m, order)
        &&& forall|k: int| 0 <= k < order.len() ==> expanded(m, ids, #[trigger] order[k] as int)
        &&& rows_model(self.table@).len() == order.len()
        &&& forall|k: int|
            0 <= k < order.len() ==> #[trigger] rows_model(self.table@)[k] == row_of(
                m,
                order[k] as int,
                ids,
            )
    }

    /// Extracts the transition table of a fragment, numbering its states
    /// depth first from the entry.
    pub fn from(nfa: &NFA) -> (r: NFATable)
        requires
            nfa.wf(),
        ensures
            r.extracted_from(nfa@),
            r.wf(),
    {
        let ghost m = nfa@;
        let n = nfa.states.len();
        let mut ids: Vec<usize> = Vec::new();
        let mut i: usize = 0;
        while i < n
            invariant
                i <= n,
                ids@.len() == i,
                forall|q: int| 0 <= q < i ==> ids@[q] == 0,
            decreases n - i,
        {
            ids.push(0);
            i += 1;
        }
        let mut order: Vec<usize> = Vec::new();
        let start = get_state_id(&mut ids, &mut order, nfa.in_state, Ghost(m));
        assert(order@ =~= seq![nfa.in_state]);
        walk_state(nfa, &mut ids, &mut order, nfa.in_state, Ghost((n + 1) as nat));
        assert(order@.subrange(0, 1)[0] == nfa.in_state);
        let mut table: Vec<NFARow> = Vec::new();
        let mut k: usize = 0;
        while k < order.len()
            invariant
                nfa.wf(),
                m == nfa@,
                numbering(m, ids@, order@),
                forall|q: int| 0 <= q < order@.len() ==> expanded(m, ids@, #[trigger] order@[q] as int),
                k <= order@.len(),
                rows_model(table@).len() == k,
                forall|q: int|
                    0 <= q < k ==> #[trigger] rows_model(table@)[q] == row_of(
                        m,
                        order@[q] as int,
                        ids@,
                    ),
            decreases order@.len() - k,
        {
            let u = order[k];
            assert(m.states[u as int] == nfa.states@[u as int]@);
            let row = build_row(&nfa.states[u], ids[u], &ids, Ghost(m), Ghost(u as int));
            let ghost before = table@;
            table.push(row);
            assert(rows_model(table@) =~= rows_model(before).push(row@));
            k += 1;
        }
        let r = NFATable { starting_state: start, table, visit_order: order, state_ids: ids };
        proof {
            lemma_extracted_wf(&r, m);
        }
        r
    }
}

pub proof fn lemma_extracted_wf(t: &NFATable, m: NfaModel)
    requires
        m.wf(),
        t.extracted_from(m),
    ensures
        t.wf(),
{
    let rows = rows_model(t.table@);
    let order = t.visit_order@;
    let ids = t.state_ids@;
    let len = rows.len() as int;
    lemma_distinct_below(order, m.states.len() as int);
    assert forall|x: int|
        0 <= x < m.states.len() && ids[x] != 0 implies 1 <= #[trigger] ids[x] <= len by {}
    assert forall|k: int| 0 <= k < rows.len() implies ids_in_range(
        #[trigger] rows[k].epsilon,
        len,
    ) && rows[k].epsilon.len() >= 1 && rows[k].epsilon[0] == k + 1 by {
        let u = order[k] as int;
        assert(rows[k] == row_of(m, u, ids));
        assert(expanded(m, ids, u));
        let e = rows[k].epsilon;
        let ts = targets(m.states[u].edges, EPSILON);
        assert forall|i: int| 0 <= i < e.len() implies 1 <= #[trigger] e[i] <= len by {
            if i > 0 {
                let p = symbol_pos(m.states[u].edges, EPSILON);
                assert(has_symbol(m.states[u].edges, EPSILON));
                assert(e[i] == ids[ts[i - 1] as int]);
                assert(ts[i - 1] == m.states[u].edges[p].1[i - 1]);
                assert(edges_below(m.states[u].edges, m.states.len() as int));
            }
        }
    }
    assert forall|k: int, i: int|
        0 <= k < rows.len() && 0 <= i < rows[k].symbols.len() implies ids_in_range(
        #[trigger] rows[k].symbols[i].1,
        len,
    ) by {
        let u = order[k] as int;
        assert(rows[k] == row_of(m, u, ids));
        assert(expanded(m, ids, u));
        let edges = m.states[u].edges;
        lemma_filter_map_from(edges, ids, i);
        let a = choose|a: int|
            0 <= a < edges.len() && symbol_column(#[trigger] edges[a], ids) == Some(
                symbol_columns(edges, ids)[i],
            );
        let col = rows[k].symbols[i].1;
        assert(col == map_ids(edges[a].1, ids));
        assert forall|j: int| 0 <= j < col.len() implies 1 <= #[trigger] col[j] <= len by {
            assert(col[j] == ids[edges[a].1[j] as int]);
            assert(edges_below(edges, m.states.len() as int));
        }
    }
}

/// The ids of `ts`.
fn lookup_ids(ts: &Vec<usize>, ids: &Vec<usize>) -> (r: Vec<usize>)
    requires
        forall|i: int| 0 <= i < ts@.len() ==> #[trigger] ts@[i] < ids@.len(),
    ensures
        r@ == map_ids(ts@, ids@),
{
    let mut r: Vec<usize> = Vec::new();
    let mut i: usize = 0;
    while i < ts.len()
        invariant
            i <= ts@.len(),
            forall|q: int| 0 <= q < ts@.len() ==> #[trigger] ts@[q] < ids@.len(),
            r@ == map_ids(ts@.subrange(0, i as int), ids@),
        decreases ts@.len() - i,
    {
        r.push(ids[ts[i]]);
        assert(r@ =~= map_ids(ts@.subrange(0, i + 1), ids@));
        i += 1;
    }
    assert(ts@.subrange(0, i as int) =~= ts@);
    r
}

/// The row of state `u`, whose id is `id`.
fn build_row(st: &State, id: usize, ids: &Vec<usize>, m: Ghost<NfaModel>, u: Ghost<int>) -> (r:
    NFARow)
    requires
        m@.wf(),
        0 <= u@ < m@.states.len(),
        st@ == m@.states[u@],
        ids@.len() == m@.states.len(),
        id == ids@[u@],
    ensures
        r@ == row_of(m@, u@, ids@),
{
    let ghost edges = st@.edges;
    assert(edges_below(edges, m@.states.len() as int));
    let mut epsilon: Vec<usize> = Vec::new();
    epsilon.push(id);
    match st.get_transition_for_symbol(&EPSILON) {
        Some(ts) => {
            let ghost p = symbol_pos(edges, EPSILON);
            assert(ts@ == edges[p].1);
            let more = lookup_ids(ts, ids);
            let ghost e0 = epsilon@;
            epsilon.extend_from_slice(more.as_slice());
            assert(epsilon@ =~= e0 + more@);
        },
        None => {},
    }
    assert(epsilon@ =~= epsilon_column(st@, id, ids@));
    let mut symbols: Vec<(char, Vec<usize>)> = Vec::new();
    let mut i: usize = 0;
    while i < st.transitions.len()
        invariant
            i <= st.transitions.len(),
            edges == st@.edges,
            edges_below(edges, ids@.len() as int),
            crate::state::edges_model(symbols@) == symbol_columns(
                edges.subrange(0, i as int),
                ids@,
            ),
        decreases st.transitions.len() - i,
    {
        let c = st.transitions[i].0;
        let ghost pre = edges.subrange(0, i + 1);
        assert(pre.drop_last() =~= edges.subrange(0, i as int));
        assert(pre.last() == edges[i as int]);
        if c != EPSILON {
            let ts = &st.transitions[i].1;
            assert(ts@ == edges[i as int].1);
            let col = lookup_ids(ts, ids);
            let ghost before = symbols@;
            symbols.push((c, col));
            assert(crate::state::edges_model(symbols@) =~= crate::state::edges_model(before).push(
                (c, col@),
            ));
        }
        i += 1;
    }
    assert(edges.subrange(0, i as int) =~= edges);
    NFARow { accepting: st.accepting, epsilon, symbols }
}

} // verus!

verus! {

impl NFA {
    /// The transition table of the fragment.
    pub fn get_transition_table(&self) -> (r: NFATable)
        requires
            self.wf(),
        ensures
            r.extracted_from(self@),
            r.wf(),
    {
        NFATable::from(self)
    }
}

} // verus!

verus! {

/// The table extracted from a fragment is unique: two extractions agree on
/// the numbering and on every row.
pub proof fn lemma_extraction_unique(t1: NFATable, t2: NFATable, m: NfaModel)
    requires
        t1.extracted_from(m),
        t2.extracted_from(m),
    ensures
        t1.visit_order@ == t2.visit_order@,
        t1.state_ids@ == t2.state_ids@,
        rows_model(t1.table@) == rows_model(t2.table@),
        t1.starting_state == t2.starting_state,
{
    let order = t1.visit_order@;
    let i1 = t1.state_ids@;
    let i2 = t2.state_ids@;
    assert forall|s: int| 0 <= s < i1.len() implies i1[s] == i2[s] by {
        if i1[s] != 0 {
            let k = i1[s] - 1;
            assert(order[k] == s);
            assert(i2[order[k] as int] == k + 1);
        } else if i2[s] != 0 {
            let k = i2[s] - 1;
            assert(t2.visit_order@[k] == s);
            assert(i1[order[k] as int] == k + 1);
        }
    }
    assert(i1 =~= i2);
    let r1 = rows_model(t1.table@);
    let r2 = rows_model(t2.table@);
    assert forall|k: int| 0 <= k < r1.len() implies r1[k] == r2[k] by {
        assert(r1[k] == row_of(m, order[k] as int, i1));
        assert(r2[k] == row_of(m, order[k] as int, i2));
    }
    assert(r1 =~= r2);
}

} // verus!
