use vstd::prelude::*;

use crate::nfa::{edges_below, NfaModel, NFA};
use crate::state::{has_symbol, symbol_pos, targets, EPSILON};

verus! {

/// There is an epsilon edge from `p` to `q`.
pub open spec fn eps_edge(m: NfaModel, p: int, q: int) -> bool {
    targets(m.states[p].edges, EPSILON).contains(q as usize)
}

/// There is an edge labelled `c` from `p` to `q`.
pub open spec fn sym_edge(m: NfaModel, p: int, c: char, q: int) -> bool {
    targets(m.states[p].edges, c).contains(q as usize)
}

/// One move: along an epsilon edge when `l` is `None`, along an edge
/// labelled `c` when it is `Some(c)`.
pub open spec fn step_ok(m: NfaModel, p: int, l: Option<char>, q: int) -> bool {
    match l {
        None => eps_edge(m, p, q),
        Some(c) => sym_edge(m, p, c, q),
    }
}

/// The characters that the moves labelled `labels` read.
pub open spec fn read(labels: Seq<Option<char>>) -> Seq<char> {
    labels.filter_map(|l: Option<char>| l)
}

/// `path` is a run from `q0`: it visits states of the fragment, and each
/// move from one to the next is allowed by its label.
pub open spec fn is_run(m: NfaModel, q0: int, path: Seq<int>, labels: Seq<Option<char>>) -> bool {
    &&& path.len() == labels.len() + 1
    &&& path[0] == q0
    &&& forall|i: int| 0 <= i < path.len() ==> 0 <= #[trigger] path[i] < m.states.len()
    &&& forall|i: int| 0 <= i < labels.len() ==> step_ok(m, path[i], #[trigger] labels[i], path[i + 1])
}

/// Some run from `q0` that reads `u` ends in `q`.
pub open spec fn reaches(m: NfaModel, q0: int, u: Seq<char>, q: int) -> bool {
    exists|path: Seq<int>, labels: Seq<Option<char>>|
        #[trigger] is_run(m, q0, path, labels) && read(labels) == u && path.last() == q
}

/// The fragment accepts `w`: some run from the entry that reads `w` ends in
/// an accepting state.
pub open spec fn nfa_accepts(m: NfaModel, w: Seq<char>) -> bool {
    exists|q: int| 0 <= q < m.states.len() && #[trigger] reaches(m, m.entry, w, q) && m.states[q].accepting
}

/// Every member of `set` is reached by a run from the entry that reads `u`.
pub open spec fn sound(m: NfaModel, u: Seq<char>, set: Seq<bool>) -> bool {
    forall|q: int| 0 <= q < set.len() && #[trigger] set[q] ==> reaches(m, m.entry, u, q)
}

/// Every run from the entry that reads `u` ends in a member of `set`.
pub open spec fn complete(m: NfaModel, u: Seq<char>, set: Seq<bool>) -> bool {
    forall|path: Seq<int>, labels: Seq<Option<char>>|
        #[trigger] is_run(m, m.entry, path, labels) && read(labels) == u ==> set[path.last()]
}

pub proof fn lemma_extend(m: NfaModel, q0: int, path: Seq<int>, labels: Seq<Option<char>>, l: Option<char>, q: int)
    requires
        is_run(m, q0, path, labels),
        0 <= q < m.states.len(),
        step_ok(m, path.last(), l, q),
    ensures
        is_run(m, q0, path.push(q), labels.push(l)),
        read(labels.push(l)) == match l {
            Some(c) => read(labels).push(c),
            None => read(labels),
        },
{
    let longer = path.push(q);
    let more_labels = labels.push(l);
    assert(more_labels.drop_last() =~= labels);
    assert(more_labels.last() == l);
    assert forall|i: int| 0 <= i < more_labels.len() implies step_ok(m, longer[i], #[trigger] more_labels[i], longer[i + 1]) by {
        if i < labels.len() {
            assert(more_labels[i] == labels[i]);
            assert(longer[i] == path[i]);
            assert(longer[i + 1] == path[i + 1]);
        } else {
            assert(longer[i] == path.last());
        }
    }
    match l {
        Some(c) => {
            assert(read(more_labels) =~= read(labels) + seq![c]);
            assert(read(labels) + seq![c] =~= read(labels).push(c));
        },
        None => {},
    }
}

/// A move along an epsilon edge from a reached state reaches its target.
pub proof fn lemma_reaches_eps(m: NfaModel, u: Seq<char>, p: int, q: int)
    requires
        reaches(m, m.entry, u, p),
        0 <= q < m.states.len(),
        eps_edge(m, p, q),
    ensures
        reaches(m, m.entry, u, q),
{
    let (path, labels) = choose|path: Seq<int>, labels: Seq<Option<char>>|
        #[trigger] is_run(m, m.entry, path, labels) && read(labels) == u && path.last() == p;
    lemma_extend(m, m.entry, path, labels, None, q);
    assert(path.push(q).last() == q);
    assert(is_run(m, m.entry, path.push(q), labels.push(None)));
}

/// A move along an edge labelled `c` from a state reached by `u` reaches
/// its target by `u` then `c`.
pub proof fn lemma_reaches_sym(m: NfaModel, u: Seq<char>, p: int, c: char, q: int)
    requires
        reaches(m, m.entry, u, p),
        0 <= q < m.states.len(),
        sym_edge(m, p, c, q),
    ensures
        reaches(m, m.entry, u.push(c), q),
{
    let (path, labels) = choose|path: Seq<int>, labels: Seq<Option<char>>|
        #[trigger] is_run(m, m.entry, path, labels) && read(labels) == u && path.last() == p;
    lemma_extend(m, m.entry, path, labels, Some(c), q);
    assert(path.push(q).last() == q);
    assert(is_run(m, m.entry, path.push(q), labels.push(Some(c))));
}

pub open spec fn count_true(s: Seq<bool>) -> nat
    decreases s.len(),
{
    if s.len() == 0 {
        0
    } else {
        count_true(s.drop_last()) + if s.last() {
            1nat
        } else {
            0nat
        }
    }
}

pub proof fn lemma_count_true(s: Seq<bool>, i: int)
    requires
        0 <= i < s.len(),
        !s[i],
    ensures
        count_true(s.update(i, true)) == count_true(s) + 1,
        count_true(s) <= s.len(),
    decreases s.len(),
{
    let t = s.update(i, true);
    if i < s.len() - 1 {
        assert(t.drop_last() =~= s.drop_last().update(i, true));
        lemma_count_true(s.drop_last(), i);
    } else {
        assert(t.drop_last() =~= s.drop_last());
        lemma_count_le(s.drop_last());
    }
    lemma_count_le(s);
}

pub proof fn lemma_count_le(s: Seq<bool>)
    ensures
        count_true(s) <= s.len(),
    decreases s.len(),
{
    if s.len() > 0 {
        lemma_count_le(s.drop_last());
    }
}

/// The epsilon targets of state `p`.
fn eps_targets(nfa: &NFA, p: usize) -> (r: Option<&Vec<usize>>)
    requires
        nfa.wf(),
        p < nfa.states@.len(),
    ensures
        match r {
            Some(v) => v@ == targets(nfa@.states[p as int].edges, EPSILON),
            None => targets(nfa@.states[p as int].edges, EPSILON).len() == 0,
        },
{
    assert(nfa@.states[p as int] == nfa.states@[p as int]@);
    nfa.states[p].get_transition_for_symbol(&EPSILON)
}

/// Adds to `set` every state reached from its members by epsilon edges.
fn eps_closure(nfa: &NFA, set: &mut Vec<bool>, u: Ghost<Seq<char>>)
    requires
        nfa.wf(),
        old(set)@.len() == nfa.states@.len(),
        sound(nfa@, u@, old(set)@),
    ensures
        final(set)@.len() == old(set)@.len(),
        sound(nfa@, u@, final(set)@),
        forall|q: int| 0 <= q < old(set)@.len() && #[trigger] old(set)@[q] ==> final(set)@[q],
        forall|p: int, q: int|
            0 <= p < final(set)@.len() && 0 <= q < final(set)@.len() && #[trigger] final(set)@[p]
                && #[trigger] eps_edge(nfa@, p, q) ==> final(set)@[q],
{
    let ghost m = nfa@;
    let ghost n = m.states.len();
    let ghost s0 = set@;
    let count = nfa.states.len();
    assert(n == count);
    let mut stack: Vec<usize> = Vec::new();
    let mut i: usize = 0;
    while i < set.len()
        invariant
            set@ == s0,
            i <= set@.len(),
            forall|k: int| 0 <= k < stack@.len() ==> #[trigger] stack@[k] < set@.len() && set@[stack@[k] as int],
            forall|p: int| 0 <= p < i && #[trigger] set@[p] ==> stack@.contains(p as usize),
        decreases set@.len() - i,
    {
        let ghost sb = stack@;
        if set[i] {
            stack.push(i);
            assert(stack@[stack@.len() - 1] == i);
        }
        proof {
            assert forall|p: int| 0 <= p < i + 1 && #[trigger] set@[p] implies stack@.contains(p as usize) by {
                if p < i {
                    let k = choose|k: int| 0 <= k < sb.len() && sb[k] == p as usize;
                    assert(stack@[k] == p as usize);
                } else {
                    assert(stack@[stack@.len() - 1] == i);
                }
            }
        }
        i += 1;
    }
    proof {
        lemma_count_le(set@);
    }
    while stack.len() > 0
        invariant
            nfa.wf(),
            m == nfa@,
            n == m.states.len(),
            set@.len() == n,
            n <= usize::MAX,
            sound(m, u@, set@),
            forall|q: int| 0 <= q < n && #[trigger] s0[q] ==> set@[q],
            forall|k: int| 0 <= k < stack@.len() ==> #[trigger] stack@[k] < n && set@[stack@[k] as int],
            forall|p: int, q: int|
                0 <= p < n && 0 <= q < n && #[trigger] set@[p] && #[trigger] eps_edge(m, p, q)
                    ==> set@[q] || stack@.contains(p as usize),
            count_true(set@) <= n,
        decreases n - count_true(set@), stack@.len(),
    {
        let ghost st0 = stack@;
        let ghost set0 = set@;
        let p = stack.pop().unwrap();
        assert(p == st0.last());
        assert(st0[st0.len() - 1] == p);
        assert(p < n && set@[p as int]);
        let targets_of_p = eps_targets(nfa, p);
        match targets_of_p {
            None => {
                proof {
                    assert forall|a: int, q: int|
                        0 <= a < n && 0 <= q < n && #[trigger] set@[a] && #[trigger] eps_edge(m, a, q)
                            implies set@[q] || stack@.contains(a as usize) by {
                        if !set@[q] && a != p {
                            assert(st0.contains(a as usize));
                            let k = choose|k: int| 0 <= k < st0.len() && st0[k] == a as usize;
                            assert(k != st0.len() - 1);
                            assert(stack@[k] == a as usize);
                        }
                    }
                }
            },
            Some(ts) => {
                let ghost tsv = ts@;
                assert(edges_below(m.states[p as int].edges, n as int));
                proof {
                    if tsv.len() > 0 {
                        assert(has_symbol(m.states[p as int].edges, EPSILON));
                    }
                }
                let mut j: usize = 0;
                while j < ts.len()
                    invariant
                        nfa.wf(),
                        m == nfa@,
                        n == m.states.len(),
                        p < n,
                        n <= usize::MAX,
                        set@.len() == n,
                        ts@ == tsv,
                        tsv == targets(m.states[p as int].edges, EPSILON),
                        forall|b: int| 0 <= b < tsv.len() ==> #[trigger] tsv[b] < n,
                        j <= tsv.len(),
                        set@[p as int],
                        sound(m, u@, set@),
                        forall|q: int| 0 <= q < n && #[trigger] s0[q] ==> set@[q],
                        forall|q: int| 0 <= q < n && #[trigger] set0[q] ==> set@[q],
                        st0.len() >= 1,
                        stack@.len() >= st0.len() - 1,
                        forall|k: int| 0 <= k < st0.len() - 1 ==> #[trigger] stack@[k] == st0[k],
                        forall|k: int| 0 <= k < stack@.len() ==> #[trigger] stack@[k] < n && set@[stack@[k] as int],
                        forall|k: int| st0.len() - 1 <= k < stack@.len() ==> !set0[#[trigger] stack@[k] as int],
                        forall|b: int| 0 <= b < j ==> set@[#[trigger] tsv[b] as int],
                        forall|x: int| 0 <= x < n && #[trigger] set@[x] && !set0[x] ==> stack@.contains(x as usize),
                        count_true(set@) <= n,
                        count_true(set@) >= count_true(set0),
                        count_true(set@) == count_true(set0) ==> stack@.len() == st0.len() - 1,
                    decreases tsv.len() - j,
                {
                    let q = ts[j];
                    proof {
                        if has_symbol(m.states[p as int].edges, EPSILON) {
                            let ps = symbol_pos(m.states[p as int].edges, EPSILON);
                            assert(tsv[j as int] == m.states[p as int].edges[ps].1[j as int]);
                        }
                    }
                    if !set[q] {
                        proof {
                            lemma_count_true(set@, q as int);
                        }
                        let ghost sb = set@;
                        set.set(q, true);
                        proof {
                            lemma_count_le(set@);
                        }
                        proof {
                            assert(eps_edge(m, p as int, q as int)) by {
                                assert(tsv[j as int] == q);
                            }
                            assert forall|x: int| 0 <= x < set@.len() && #[trigger] set@[x] implies reaches(
                                m,
                                m.entry,
                                u@,
                                x,
                            ) by {
                                if x == q {
                                    assert(sb[p as int]);
                                    lemma_reaches_eps(m, u@, p as int, q as int);
                                } else {
                                    assert(sb[x]);
                                }
                            }
                        }
                        let ghost stb = stack@;
                        stack.push(q);
                        proof {
                            assert(stack@ == stb.push(q));
                            assert(stack@[stack@.len() - 1] == q);
                            assert forall|x: int| 0 <= x < n && #[trigger] set@[x] && !set0[x] implies stack@.contains(x as usize) by {
                                if x != q {
                                    let k = choose|k: int| 0 <= k < stb.len() && stb[k] == x as usize;
                                    assert(stack@[k] == x as usize);
                                }
                            }
                            assert(stack@.len() == stb.len() + 1);
                            assert(stb.len() >= st0.len() - 1);
                            assert forall|k: int| 0 <= k < st0.len() - 1 implies #[trigger] stack@[k] == st0[k] by {
                                assert(stack@[k] == stb[k]);
                            }
                            assert(!set0[q as int]);
                            assert forall|k: int| st0.len() - 1 <= k < stack@.len() implies !set0[#[trigger] stack@[k] as int] by {
                                if k < stb.len() {
                                    assert(stack@[k] == stb[k]);
                                }
                            }
                        }
                    }
                    j += 1;
                }
                proof {
                    assert forall|a: int, q: int|
                        0 <= a < n && 0 <= q < n && #[trigger] set@[a] && #[trigger] eps_edge(m, a, q)
                            implies set@[q] || stack@.contains(a as usize) by {
                        if a == p {
                            let b = choose|b: int| 0 <= b < tsv.len() && tsv[b] == q as usize;
                            assert(set@[tsv[b] as int]);
                        } else if set0[a] {
                            if !set@[q] {
                                assert(!set0[q]);
                                assert(st0.contains(a as usize));
                                let k = choose|k: int| 0 <= k < st0.len() && st0[k] == a as usize;
                                assert(k != st0.len() - 1);
                                assert(stack@[k] == a as usize);
                            }
                        } else {
                            assert(stack@.contains(a as usize));
                        }
                    }
                }
            },
        }
    }
}

} // verus!

verus! {

/// `set` is closed under epsilon edges.
pub open spec fn eps_closed(m: NfaModel, set: Seq<bool>) -> bool {
    forall|p: int, q: int|
        0 <= p < set.len() && 0 <= q < set.len() && #[trigger] set[p] && #[trigger] eps_edge(m, p, q)
            ==> set[q]
}

pub proof fn lemma_run_prefix(m: NfaModel, q0: int, path: Seq<int>, labels: Seq<Option<char>>)
    requires
        is_run(m, q0, path, labels),
        labels.len() > 0,
    ensures
        is_run(m, q0, path.drop_last(), labels.drop_last()),
        step_ok(m, path[path.len() - 2], labels.last(), path.last()),
        read(labels) == match labels.last() {
            Some(c) => read(labels.drop_last()).push(c),
            None => read(labels.drop_last()),
        },
{
    let shorter = path.drop_last();
    let fewer_labels = labels.drop_last();
    assert forall|i: int| 0 <= i < fewer_labels.len() implies step_ok(m, shorter[i], #[trigger] fewer_labels[i], shorter[i + 1]) by {
        assert(fewer_labels[i] == labels[i]);
        assert(step_ok(m, path[i], labels[i], path[i + 1]));
    }
    assert(step_ok(m, path[labels.len() - 1], labels[labels.len() - 1], path[labels.len() as int]));
    match labels.last() {
        Some(c) => {
            assert(read(labels) =~= read(fewer_labels) + seq![c]);
            assert(read(fewer_labels) + seq![c] =~= read(fewer_labels).push(c));
        },
        None => {},
    }
}

/// A closed set that holds the entry holds the end of every run that reads
/// nothing.
pub proof fn lemma_complete_start(m: NfaModel, set: Seq<bool>, path: Seq<int>, labels: Seq<Option<char>>)
    requires
        set.len() == m.states.len(),
        set[m.entry],
        eps_closed(m, set),
        is_run(m, m.entry, path, labels),
        read(labels) == Seq::<char>::empty(),
    ensures
        set[path.last()],
    decreases labels.len(),
{
    if labels.len() > 0 {
        lemma_run_prefix(m, m.entry, path, labels);
        match labels.last() {
            Some(c) => {
                assert(read(labels).len() > 0);
            },
            None => {
                lemma_complete_start(m, set, path.drop_last(), labels.drop_last());
                assert(path.drop_last().last() == path[path.len() - 2]);
                assert(0 <= path[path.len() - 2] < set.len());
                assert(0 <= path.last() < set.len()) by {
                    assert(path[path.len() - 1] == path.last());
                }
            },
        }
    }
}

/// A closed set that holds the targets on `c` of the members of a set
/// complete for `u` is complete for `u` then `c`.
pub proof fn lemma_complete_step(
    m: NfaModel,
    u: Seq<char>,
    c: char,
    prev: Seq<bool>,
    set: Seq<bool>,
    path: Seq<int>,
    labels: Seq<Option<char>>,
)
    requires
        prev.len() == m.states.len(),
        set.len() == m.states.len(),
        complete(m, u, prev),
        forall|p: int, q: int|
            0 <= p < prev.len() && 0 <= q < set.len() && #[trigger] prev[p] && #[trigger] sym_edge(m, p, c, q)
                ==> set[q],
        eps_closed(m, set),
        is_run(m, m.entry, path, labels),
        read(labels) == u.push(c),
    ensures
        set[path.last()],
    decreases labels.len(),
{
    if labels.len() == 0 {
        assert(read(labels).len() == 0);
        assert(u.push(c).len() > 0);
    } else {
        lemma_run_prefix(m, m.entry, path, labels);
        let shorter = path.drop_last();
        let fewer_labels = labels.drop_last();
        assert(shorter.last() == path[path.len() - 2]);
        assert(0 <= path[path.len() - 2] < set.len());
        assert(0 <= path.last() < set.len()) by {
            assert(path[path.len() - 1] == path.last());
        }
        match labels.last() {
            Some(c2) => {
                assert(read(fewer_labels).push(c2) == u.push(c));
                assert(c2 == u.push(c).last());
                assert(read(fewer_labels) =~= u.push(c).drop_last());
                assert(u.push(c).drop_last() =~= u);
                assert(is_run(m, m.entry, shorter, fewer_labels));
                assert(prev[shorter.last()]);
            },
            None => {
                lemma_complete_step(m, u, c, prev, set, shorter, fewer_labels);
            },
        }
    }
}

impl NFA {
    /// Whether the fragment matches `string`: the set of states reached is
    /// followed through the string, closing it under epsilon edges at each
    /// step, and the string matches when an accepting state is reached.
    pub fn test(&self, string: &str) -> (r: bool)
        requires
            self.wf(),
        ensures
            r == nfa_accepts(self@, string@),
    {
        let ghost m = self@;
        let ghost w = string@;
        let n = self.states.len();
        let mut cur: Vec<bool> = Vec::new();
        let mut k: usize = 0;
        while k < n
            invariant
                k <= n,
                cur@.len() == k,
                forall|q: int| 0 <= q < k ==> !#[trigger] cur@[q],
            decreases n - k,
        {
            cur.push(false);
            k += 1;
        }
        cur.set(self.in_state, true);
        proof {
            assert forall|q: int| 0 <= q < cur@.len() && #[trigger] cur@[q] implies reaches(
                m,
                m.entry,
                Seq::<char>::empty(),
                q,
            ) by {
                let path = seq![m.entry];
                let labels = Seq::<Option<char>>::empty();
                assert(read(labels) =~= Seq::<char>::empty());
                assert(is_run(m, m.entry, path, labels));
            }
        }
        let ghost c0 = cur@;
        eps_closure(self, &mut cur, Ghost(Seq::empty()));
        proof {
            assert forall|path: Seq<int>, labels: Seq<Option<char>>|
                #[trigger] is_run(m, m.entry, path, labels) && read(labels) == Seq::<char>::empty()
                implies cur@[path.last()] by {
                assert(c0[m.entry]);
                lemma_complete_start(m, cur@, path, labels);
            }
            assert(w.subrange(0, 0) =~= Seq::<char>::empty());
        }
        let len = string.unicode_len();
        let mut i: usize = 0;
        while i < len
            invariant
                self.wf(),
                m == self@,
                n == m.states.len(),
                len == w.len(),
                w == string@,
                i <= len,
                cur@.len() == n,
                sound(m, w.subrange(0, i as int), cur@),
                complete(m, w.subrange(0, i as int), cur@),
            decreases len - i,
        {
            let c = string.get_char(i);
            let ghost u = w.subrange(0, i as int);
            assert(w.subrange(0, i + 1) =~= u.push(c));
            let mut next: Vec<bool> = Vec::new();
            let mut k: usize = 0;
            while k < n
                invariant
                    k <= n,
                    next@.len() == k,
                    forall|q: int| 0 <= q < k ==> !#[trigger] next@[q],
                decreases n - k,
            {
                next.push(false);
                k += 1;
            }
            let mut p: usize = 0;
            while p < n
                invariant
                    self.wf(),
                    m == self@,
                    n == m.states.len(),
                    p <= n,
                    cur@.len() == n,
                    next@.len() == n,
                    sound(m, u, cur@),
                    sound(m, u.push(c), next@),
                    forall|a: int, q: int|
                        0 <= a < p && 0 <= q < n && #[trigger] cur@[a] && #[trigger] sym_edge(m, a, c, q)
                            ==> next@[q],
                decreases n - p,
            {
                if cur[p] {
                    assert(m.states[p as int] == self.states@[p as int]@);
                    assert(edges_below(m.states[p as int].edges, n as int));
                    match self.states[p].get_transition_for_symbol(&c) {
                        Some(ts) => {
                            let ghost tsv = ts@;
                            proof {
                                let ps = symbol_pos(m.states[p as int].edges, c);
                                assert forall|b: int| 0 <= b < tsv.len() implies #[trigger] tsv[b] < n by {
                                    assert(tsv[b] == m.states[p as int].edges[ps].1[b]);
                                }
                            }
                            let mut j: usize = 0;
                            while j < ts.len()
                                invariant
                                    self.wf(),
                                    m == self@,
                                    n == m.states.len(),
                                    p < n,
                                    cur@.len() == n,
                                    next@.len() == n,
                                    cur@[p as int],
                                    ts@ == tsv,
                                    tsv == targets(m.states[p as int].edges, c),
                                    forall|b: int| 0 <= b < tsv.len() ==> #[trigger] tsv[b] < n,
                                    j <= tsv.len(),
                                    sound(m, u, cur@),
                                    sound(m, u.push(c), next@),
                                    forall|a: int, q: int|
                                        0 <= a < p && 0 <= q < n && #[trigger] cur@[a] && #[trigger] sym_edge(m, a, c, q)
                                            ==> next@[q],
                                    forall|b: int| 0 <= b < j ==> next@[#[trigger] tsv[b] as int],
                                decreases tsv.len() - j,
                            {
                                let t = ts[j];
                                let ghost nb = next@;
                                next.set(t, true);
                                proof {
                                    assert(sym_edge(m, p as int, c, t as int)) by {
                                        assert(tsv[j as int] == t);
                                    }
                                    assert forall|x: int| 0 <= x < next@.len() && #[trigger] next@[x] implies reaches(
                                        m,
                                        m.entry,
                                        u.push(c),
                                        x,
                                    ) by {
                                        if x == t {
                                            lemma_reaches_sym(m, u, p as int, c, t as int);
                                        } else {
                                            assert(nb[x]);
                                        }
                                    }
                                }
                                j += 1;
                            }
                            proof {
                                assert forall|a: int, q: int|
                                    0 <= a < p + 1 && 0 <= q < n && #[trigger] cur@[a] && #[trigger] sym_edge(m, a, c, q)
                                        implies next@[q] by {
                                    if a == p {
                                        let b = choose|b: int| 0 <= b < tsv.len() && tsv[b] == q as usize;
                                        assert(next@[tsv[b] as int]);
                                    }
                                }
                            }
                        },
                        None => {
                            proof {
                                assert forall|a: int, q: int|
                                    0 <= a < p + 1 && 0 <= q < n && #[trigger] cur@[a] && #[trigger] sym_edge(m, a, c, q)
                                        implies next@[q] by {
                                    if a == p {
                                        assert(targets(m.states[p as int].edges, c).len() == 0);
                                    }
                                }
                            }
                        },
                    }
                }
                p += 1;
            }
            let ghost t0 = next@;
            eps_closure(self, &mut next, Ghost(u.push(c)));
            proof {
                assert forall|path: Seq<int>, labels: Seq<Option<char>>|
                    #[trigger] is_run(m, m.entry, path, labels) && read(labels) == u.push(c)
                    implies next@[path.last()] by {
                    lemma_complete_step(m, u, c, cur@, next@, path, labels);
                }
            }
            cur = next;
            i += 1;
        }
        assert(w.subrange(0, len as int) =~= w);
        let mut q: usize = 0;
        while q < n
            invariant
                self.wf(),
                m == self@,
                n == m.states.len(),
                q <= n,
                w == string@,
                cur@.len() == n,
                sound(m, w, cur@),
                complete(m, w, cur@),
                forall|x: int| 0 <= x < q ==> !(#[trigger] cur@[x] && m.states[x].accepting),
            decreases n - q,
        {
            assert(m.states[q as int] == self.states@[q as int]@);
            if cur[q] && self.states[q].accepting {
                assert(reaches(m, m.entry, w, q as int));
                assert(m.states[q as int].accepting);
                assert(nfa_accepts(m, w));
                return true;
            }
            q += 1;
        }
        proof {
            if nfa_accepts(m, w) {
                let x = choose|x: int| 0 <= x < m.states.len() && #[trigger] reaches(m, m.entry, w, x) && m.states[x].accepting;
                let (path, labels) = choose|path: Seq<int>, labels: Seq<Option<char>>|
                    #[trigger] is_run(m, m.entry, path, labels) && read(labels) == w && path.last() == x;
                assert(cur@[x]);
            }
        }
        false
    }
}

} // verus!
