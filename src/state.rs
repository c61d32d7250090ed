use vstd::prelude::*;

verus! {

/// The symbol that labels an epsilon edge.
pub const EPSILON: char = 'ε';

/// What a state is, mathematically: its accepting flag and, for each symbol
/// in order of first use, the ordered list of target state indices.
pub struct StateModel {
    pub accepting: bool,
    pub edges: Seq<(char, Seq<usize>)>,
}

pub open spec fn has_symbol(edges: Seq<(char, Seq<usize>)>, c: char) -> bool {
    exists|i: int| 0 <= i < edges.len() && #[trigger] edges[i].0 == c
}

pub open spec fn symbol_pos(edges: Seq<(char, Seq<usize>)>, c: char) -> int {
    choose|i: int| 0 <= i < edges.len() && #[trigger] edges[i].0 == c
}

/// No symbol has two entries.
pub open spec fn symbols_distinct(edges: Seq<(char, Seq<usize>)>) -> bool {
    forall|i: int, j: int| 0 <= i < edges.len() && 0 <= j < edges.len() && i != j
        ==> #[trigger] edges[i].0 != #[trigger] edges[j].0
}

/// The targets reached from a state by symbol `c` (empty when it has none).
pub open spec fn targets(edges: Seq<(char, Seq<usize>)>, c: char) -> Seq<usize> {
    if has_symbol(edges, c) {
        edges[symbol_pos(edges, c)].1
    } else {
        Seq::empty()
    }
}

/// The edges after one more edge labelled `c` to `t`: appended to the entry of
/// `c` if there is one, else a new entry at the end.
pub open spec fn add_edge(edges: Seq<(char, Seq<usize>)>, c: char, t: usize) -> Seq<
    (char, Seq<usize>),
> {
    if has_symbol(edges, c) {
        let i = symbol_pos(edges, c);
        edges.update(i, (c, edges[i].1.push(t)))
    } else {
        edges.push((c, seq![t]))
    }
}

pub proof fn lemma_symbol_pos_unique(edges: Seq<(char, Seq<usize>)>, c: char, i: int)
    requires
        symbols_distinct(edges),
        0 <= i < edges.len(),
        edges[i].0 == c,
    ensures
        has_symbol(edges, c),
        symbol_pos(edges, c) == i,
{
    let j = symbol_pos(edges, c);
    assert(0 <= j < edges.len() && edges[j].0 == c);
}

pub proof fn lemma_add_edge_distinct(edges: Seq<(char, Seq<usize>)>, c: char, t: usize)
    requires
        symbols_distinct(edges),
    ensures
        symbols_distinct(add_edge(edges, c, t)),
{
    if has_symbol(edges, c) {
        let i = symbol_pos(edges, c);
        let e2 = add_edge(edges, c, t);
        assert forall|a: int, b: int|
            0 <= a < e2.len() && 0 <= b < e2.len() && a != b implies #[trigger] e2[a].0
            != #[trigger] e2[b].0 by {
            assert(e2[a].0 == edges[a].0);
            assert(e2[b].0 == edges[b].0);
        }
    } else {
        let e2 = add_edge(edges, c, t);
        assert forall|a: int, b: int|
            0 <= a < e2.len() && 0 <= b < e2.len() && a != b implies #[trigger] e2[a].0
            != #[trigger] e2[b].0 by {
            if a < edges.len() && b < edges.len() {
                assert(e2[a].0 == edges[a].0);
                assert(e2[b].0 == edges[b].0);
            } else if a < edges.len() {
                assert(e2[a].0 == edges[a].0);
            } else {
                assert(e2[b].0 == edges[b].0);
            }
        }
    }
}

/// A node of an NFA, stored in the NFA's arena: an accepting flag and, per
/// symbol, the ordered list of target indices.
#[derive(Debug, Clone, PartialEq, Eq)]
pub struct State {
    pub accepting: bool,
    pub transitions: Vec<(char, Vec<usize>)>,
}

pub open spec fn edges_model(ts: Seq<(char, Vec<usize>)>) -> Seq<(char, Seq<usize>)> {
    ts.map_values(|e: (char, Vec<usize>)| (e.0, e.1@))
}

impl View for State {
    type V = StateModel;

    open spec fn view(&self) -> StateModel {
        StateModel { accepting: self.accepting, edges: edges_model(self.transitions@) }
    }
}

impl State {
    pub open spec fn wf(&self) -> bool {
        symbols_distinct(self@.edges)
    }

    /// Adds an edge labelled `symbol` to the state of index `state`.
    pub fn add_transition_for_symbol(&mut self, symbol: char, state: usize)
        requires
            old(self).wf(),
        ensures
            final(self).wf(),
            final(self)@ == (StateModel {
                accepting: old(self)@.accepting,
                edges: add_edge(old(self)@.edges, symbol, state),
            }),
    {
        let ghost old_edges = self@.edges;
        let mut i: usize = 0;
        while i < self.transitions.len()
            invariant
                0 <= i <= self.transitions.len(),
                self@.edges == old_edges,
                old_edges == old(self)@.edges,
                self.accepting == old(self).accepting,
                symbols_distinct(old_edges),
                forall|j: int| 0 <= j < i ==> #[trigger] old_edges[j].0 != symbol,
            decreases self.transitions.len() - i,
        {
            if self.transitions[i].0 == symbol {
                proof {
                    lemma_symbol_pos_unique(old_edges, symbol, i as int);
                    lemma_add_edge_distinct(old_edges, symbol, state);
                }
                let ghost old_ts = self.transitions@;
                let (c, mut ts) = self.transitions.remove(i);
                ts.push(state);
                assert(ts@ == old_edges[i as int].1.push(state));
                self.transitions.insert(i, (c, ts));
                assert(self.transitions@ =~= old_ts.update(i as int, (c, ts)));
                assert(self@.edges =~= add_edge(old_edges, symbol, state));
                return;
            }
            i += 1;
        }
        proof {
            assert(!has_symbol(old_edges, symbol));
            lemma_add_edge_distinct(old_edges, symbol, state);
        }
        let mut ts: Vec<usize> = Vec::new();
        ts.push(state);
        assert(ts@ =~= seq![state]);
        self.transitions.push((symbol, ts));
        assert(self@.edges =~= add_edge(old_edges, symbol, state));
    }

    /// The targets of the edges labelled `symbol`, if there are any.
    pub fn get_transition_for_symbol(&self, symbol: &char) -> (r: Option<&Vec<usize>>)
        requires
            self.wf(),
        ensures
            match r {
                Some(v) => has_symbol(self@.edges, *symbol) && v@ == targets(
                    self@.edges,
                    *symbol,
                ),
                None => !has_symbol(self@.edges, *symbol),
            },
    {
        let mut i: usize = 0;
        while i < self.transitions.len()
            invariant
                0 <= i <= self.transitions.len(),
                self.wf(),
                forall|j: int| 0 <= j < i ==> #[trigger] self@.edges[j].0 != *symbol,
            decreases self.transitions.len() - i,
        {
            if self.transitions[i].0 == *symbol {
                proof {
                    lemma_symbol_pos_unique(self@.edges, *symbol, i as int);
                }
                return Some(&self.transitions[i].1);
            }
            i += 1;
        }
        None
    }
}

} // verus!
