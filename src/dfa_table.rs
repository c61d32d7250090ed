use vstd::prelude::*;

use crate::label::{join_ids, label_lt, label_of_ids, lex_lt};
use crate::nfa_table::{column, ids_in_range, rows_model, NFARowModel, NFATable};
use crate::nfa::NFA;
use crate::state::EPSILON;

verus! {

/// One row of a DFA table, as a mathematical value.
pub struct DfaRowModel {
    pub label: Seq<char>,
    pub accepting: bool,
    pub transitions: Seq<(char, Seq<char>)>,
}

/// A DFA table as a mathematical value: the starting label and the rows.
pub struct DfaModel {
    pub start: Seq<char>,
    pub rows: Seq<DfaRowModel>,
}

pub open spec fn has_label(rows: Seq<DfaRowModel>, l: Seq<char>) -> bool {
    exists|i: int| 0 <= i < rows.len() && #[trigger] rows[i].label == l
}

pub open spec fn label_index(rows: Seq<DfaRowModel>, l: Seq<char>) -> int {
    choose|i: int| 0 <= i < rows.len() && #[trigger] rows[i].label == l
}

/// The target of the transition on `c`, if there is one.
pub open spec fn step(ts: Seq<(char, Seq<char>)>, c: char) -> Option<Seq<char>> {
    if exists|i: int| 0 <= i < ts.len() && #[trigger] ts[i].0 == c {
        Some(ts[choose|i: int| 0 <= i < ts.len() && #[trigger] ts[i].0 == c].1)
    } else {
        None
    }
}

/// Symbols in strictly increasing order.
pub open spec fn symbols_sorted(ts: Seq<(char, Seq<char>)>) -> bool {
    forall|i: int, j: int| 0 <= i < j < ts.len() ==> (ts[i].0 as int) < (ts[j].0 as int)
}

impl DfaModel {
    /// Rows sorted strictly by label, transitions sorted strictly by symbol,
    /// and every target and the start are labels of rows.
    pub open spec fn wf(self) -> bool {
        &&& forall|i: int, j: int|
            0 <= i < j < self.rows.len() ==> lex_lt(self.rows[i].label, self.rows[j].label)
        &&& forall|i: int| 0 <= i < self.rows.len() ==> symbols_sorted(#[trigger] self.rows[i].transitions)
        &&& forall|i: int, j: int|
            0 <= i < self.rows.len() && 0 <= j < self.rows[i].transitions.len() ==> has_label(
                self.rows,
                #[trigger] self.rows[i].transitions[j].1,
            )
        &&& has_label(self.rows, self.start)
    }

    /// Where a walk from label `l` over `w` ends, if it does not get stuck.
    pub open spec fn run(self, l: Seq<char>, w: Seq<char>) -> Option<Seq<char>>
        decreases w.len(),
    {
        if !has_label(self.rows, l) {
            None
        } else if w.len() == 0 {
            Some(l)
        } else {
            match step(self.rows[label_index(self.rows, l)].transitions, w[0]) {
                Some(t) => self.run(t, w.drop_first()),
                None => None,
            }
        }
    }

    /// The table accepts `w`: the walk from the start over `w` ends on an
    /// accepting row.
    pub open spec fn accepts(self, w: Seq<char>) -> bool {
        match self.run(self.start, w) {
            Some(l) => self.rows[label_index(self.rows, l)].accepting,
            None => false,
        }
    }
}

/// A row of a DFA table: its label, whether it accepts, and its transitions
/// sorted by symbol.
#[derive(Debug, Clone)]
pub struct DFARow {
    pub label: String,
    pub accepting: bool,
    pub transitions: Vec<(char, String)>,
}

pub open spec fn transitions_model(ts: Seq<(char, String)>) -> Seq<(char, Seq<char>)> {
    ts.map_values(|e: (char, String)| (e.0, e.1@))
}

impl View for DFARow {
    type V = DfaRowModel;

    open spec fn view(&self) -> DfaRowModel {
        DfaRowModel {
            label: self.label@,
            accepting: self.accepting,
            transitions: transitions_model(self.transitions@),
        }
    }
}

pub open spec fn dfa_rows_model(v: Seq<DFARow>) -> Seq<DfaRowModel> {
    v.map_values(|r: DFARow| r@)
}

/// The transition table of a DFA. Its rows stand in increasing order of
/// label.
#[derive(Debug, Clone)]
pub struct DFATable {
    pub starting_state: String,
    pub table: Vec<DFARow>,
}

impl View for DFATable {
    type V = DfaModel;

    open spec fn view(&self) -> DfaModel {
        DfaModel { start: self.starting_state@, rows: dfa_rows_model(self.table@) }
    }
}

// ---------------------------------------------------------------------------
// The closure search.

/// The search for the successor of a set on symbol `c`: pop an id; if its
/// row has a `c` column, the search turns active and goes on through the
/// targets; an active search stops at the first popped row without a `c`
/// column, whose epsilon column is the result (given here by row index). It
/// gives up after `fuel` pops.
pub open spec fn search(
    rows: Seq<NFARowModel>,
    c: char,
    stack: Seq<usize>,
    active: bool,
    fuel: nat,
) -> Option<int>
    decreases fuel,
{
    if fuel == 0 || stack.len() == 0 {
        None
    } else {
        let id = stack.last() as int;
        let rest = stack.drop_last();
        if 1 <= id <= rows.len() {
            match column(rows[id - 1].symbols, c) {
                Some(ts) => search(rows, c, rest + ts, true, (fuel - 1) as nat),
                None => if active {
                    Some(id - 1)
                } else {
                    search(rows, c, rest, active, (fuel - 1) as nat)
                },
            }
        } else {
            search(rows, c, rest, active, (fuel - 1) as nat)
        }
    }
}

/// How many pops the search may make from `states`: enough for any table
/// built from a fragment, where the search ends one pop after the first step.
pub open spec fn search_fuel(rows: Seq<NFARowModel>, states: Seq<usize>) -> nat {
    (states.len() + rows.len()) as nat
}

/// The row whose epsilon column is the successor of `states` on `c`.
pub open spec fn successor(rows: Seq<NFARowModel>, states: Seq<usize>, c: char) -> Option<int> {
    search(rows, c, states, false, search_fuel(rows, states))
}

pub proof fn lemma_search_in_range(
    rows: Seq<NFARowModel>,
    c: char,
    stack: Seq<usize>,
    active: bool,
    fuel: nat,
)
    ensures
        search(rows, c, stack, active, fuel) matches Some(k) ==> 0 <= k < rows.len(),
    decreases fuel,
{
    if fuel > 0 && stack.len() > 0 {
        let id = stack.last() as int;
        let rest = stack.drop_last();
        if 1 <= id <= rows.len() {
            match column(rows[id - 1].symbols, c) {
                Some(ts) => lemma_search_in_range(rows, c, rest + ts, true, (fuel - 1) as nat),
                None => if !active {
                    lemma_search_in_range(rows, c, rest, active, (fuel - 1) as nat)
                },
            }
        } else {
            lemma_search_in_range(rows, c, rest, active, (fuel - 1) as nat)
        }
    }
}

/// The first column labelled `c`.
fn lookup_column(cols: &Vec<(char, Vec<usize>)>, c: char) -> (r: Option<&Vec<usize>>)
    ensures
        match r {
            Some(v) => column(crate::state::edges_model(cols@), c) == Some(v@),
            None => column(crate::state::edges_model(cols@), c) is None,
        },
{
    let ghost m = crate::state::edges_model(cols@);
    let mut i: usize = 0;
    assert(m.subrange(0, m.len() as int) =~= m);
    while i < cols.len()
        invariant
            i <= cols@.len(),
            m == crate::state::edges_model(cols@),
            column(m, c) == column(m.subrange(i as int, m.len() as int), c),
        decreases cols@.len() - i,
    {
        let ghost rest = m.subrange(i as int, m.len() as int);
        assert(rest[0] == m[i as int]);
        if cols[i].0 == c {
            return Some(&cols[i].1);
        }
        assert(rest.drop_first() =~= m.subrange(i + 1, m.len() as int));
        i += 1;
    }
    None
}

/// Appends the ids of `src`.
fn append_ids(dst: &mut Vec<usize>, src: &Vec<usize>)
    ensures
        final(dst)@ == old(dst)@ + src@,
{
    let mut i: usize = 0;
    while i < src.len()
        invariant
            i <= src@.len(),
            dst@ == old(dst)@ + src@.subrange(0, i as int),
        decreases src@.len() - i,
    {
        dst.push(src[i]);
        assert(dst@ =~= old(dst)@ + src@.subrange(0, i + 1));
        i += 1;
    }
    assert(src@.subrange(0, i as int) =~= src@);
}

/// The successor of `states` on `c`, given as the index of the row whose
/// epsilon column it is.
pub fn find_epsilon_closure(c: char, states: &Vec<usize>, nfa_table: &NFATable) -> (r: Option<
    usize,
>)
    requires
        nfa_table.wf(),
    ensures
        r matches Some(k) ==> k < nfa_table.table@.len(),
        successor(rows_model(nfa_table.table@), states@, c) == (match r {
            Some(k) => Some(k as int),
            None => None,
        }),
{
    let ghost rows = rows_model(nfa_table.table@);
    let mut stack: Vec<usize> = Vec::new();
    append_ids(&mut stack, states);
    assert(stack@ =~= states@);
    let mut active = false;
    let mut fuel_a: usize = states.len();
    let mut fuel_b: usize = nfa_table.table.len();
    proof {
        lemma_search_in_range(rows, c, states@, false, search_fuel(rows, states@));
    }
    while stack.len() > 0 && (fuel_a > 0 || fuel_b > 0)
        invariant
            nfa_table.wf(),
            rows == rows_model(nfa_table.table@),
            successor(rows, states@, c) == search(
                rows,
                c,
                stack@,
                active,
                (fuel_a + fuel_b) as nat,
            ),
        decreases fuel_a + fuel_b,
    {
        let ghost fuel = (fuel_a + fuel_b) as nat;
        let ghost st = stack@;
        let ghost act = active;
        let id = stack.pop().unwrap();
        if fuel_a > 0 {
            fuel_a -= 1;
        } else {
            fuel_b -= 1;
        }
        if id >= 1 && id <= nfa_table.table.len() {
            assert(rows[id - 1] == nfa_table.table@[id - 1]@);
            match lookup_column(&nfa_table.table[id - 1].symbols, c) {
                Some(ts) => {
                    active = true;
                    append_ids(&mut stack, ts);
                    assert(search(rows, c, st, act, fuel) == search(
                        rows,
                        c,
                        stack@,
                        active,
                        (fuel - 1) as nat,
                    ));
                },
                None => {
                    if active {
                        proof {
                            lemma_search_in_range(rows, c, states@, false, search_fuel(rows, states@));
                        }
                        return Some(id - 1);
                    }
                },
            }
        }
    }
    None
}

// ---------------------------------------------------------------------------
// Sets of ids and the alphabet.

/// Strictly increasing.
pub open spec fn sorted_ids(s: Seq<usize>) -> bool {
    forall|i: int, j: int| 0 <= i < j < s.len() ==> s[i] < s[j]
}

pub open spec fn same_ids(a: Seq<usize>, b: Seq<usize>) -> bool {
    forall|x: usize| a.contains(x) <==> b.contains(x)
}

/// The ids of `s` in increasing order, each once.
pub open spec fn canonical(s: Seq<usize>) -> Seq<usize> {
    choose|r: Seq<usize>| sorted_ids(r) && same_ids(r, s)
}

pub proof fn lemma_sorted_unique(a: Seq<usize>, b: Seq<usize>)
    requires
        sorted_ids(a),
        sorted_ids(b),
        same_ids(a, b),
    ensures
        a == b,
    decreases a.len(),
{
    if a.len() == 0 {
        if b.len() > 0 {
            assert(b.contains(b[0]));
        }
        assert(a =~= b);
    } else {
        assert(a.contains(a[0]));
        assert(b.len() > 0);
        assert(b.contains(b[0]));
        let i = choose|i: int| 0 <= i < a.len() && a[i] == b[0];
        let j = choose|j: int| 0 <= j < b.len() && b[j] == a[0];
        assert(a[0] <= a[i]);
        assert(b[0] <= b[j]);
        let a1 = a.drop_first();
        let b1 = b.drop_first();
        assert forall|x: usize| a1.contains(x) <==> b1.contains(x) by {
            if a1.contains(x) {
                let p = choose|p: int| 0 <= p < a1.len() && a1[p] == x;
                assert(a[p + 1] == x);
                assert(b.contains(x));
                let q = choose|q: int| 0 <= q < b.len() && b[q] == x;
                assert(q != 0);
                assert(b1[q - 1] == x);
            }
            if b1.contains(x) {
                let p = choose|p: int| 0 <= p < b1.len() && b1[p] == x;
                assert(b[p + 1] == x);
                assert(a.contains(x));
                let q = choose|q: int| 0 <= q < a.len() && a[q] == x;
                assert(q != 0);
                assert(a1[q - 1] == x);
            }
        }
        lemma_sorted_unique(a1, b1);
        assert(a =~= seq![a[0]] + a1);
        assert(b =~= seq![b[0]] + b1);
    }
}

pub proof fn lemma_canonical(r: Seq<usize>, s: Seq<usize>)
    requires
        sorted_ids(r),
        same_ids(r, s),
    ensures
        canonical(s) == r,
{
    let c = canonical(s);
    assert(sorted_ids(c) && same_ids(c, s));
    lemma_sorted_unique(c, r);
}

/// The ids of `v` in increasing order, each once.
pub fn sorted_unique(v: &Vec<usize>) -> (r: Vec<usize>)
    ensures
        sorted_ids(r@),
        same_ids(r@, v@),
        r@ == canonical(v@),
{
    let mut r: Vec<usize> = Vec::new();
    let mut i: usize = 0;
    while i < v.len()
        invariant
            i <= v@.len(),
            sorted_ids(r@),
            same_ids(r@, v@.subrange(0, i as int)),
        decreases v@.len() - i,
    {
        let x = v[i];
        let mut p: usize = 0;
        while p < r.len() && r[p] < x
            invariant
                p <= r@.len(),
                forall|q: int| 0 <= q < p ==> r@[q] < x,
            decreases r@.len() - p,
        {
            p += 1;
        }
        let ghost old_r = r@;
        if p == r.len() || r[p] != x {
            r.insert(p, x);
            assert forall|a: int, b: int| 0 <= a < b < r@.len() implies r@[a] < r@[b] by {
                if b < p {
                } else if b == p {
                } else if a < p {
                    assert(r@[b] == old_r[b - 1]);
                    if p < old_r.len() {
                        assert(old_r[p as int] > x);
                    }
                } else if a == p {
                    assert(r@[b] == old_r[b - 1]);
                    assert(old_r[p as int] > x);
                    assert(old_r[p as int] <= old_r[b - 1]);
                } else {
                    assert(r@[a] == old_r[a - 1]);
                    assert(r@[b] == old_r[b - 1]);
                }
            }
            assert forall|y: usize| r@.contains(y) <==> v@.subrange(0, i + 1).contains(y) by {
                if r@.contains(y) {
                    let q = choose|q: int| 0 <= q < r@.len() && r@[q] == y;
                    if q < p {
                        assert(old_r[q] == y);
                        assert(old_r.contains(y));
                        let q2 = choose|q2: int| 0 <= q2 < i && #[trigger] v@.subrange(0, i as int)[q2] == y;
                        assert(v@.subrange(0, i + 1)[q2] == y);
                    } else if q > p {
                        assert(old_r[q - 1] == y);
                        assert(old_r.contains(y));
                        let q2 = choose|q2: int| 0 <= q2 < i && #[trigger] v@.subrange(0, i as int)[q2] == y;
                        assert(v@.subrange(0, i + 1)[q2] == y);
                    } else {
                        assert(v@.subrange(0, i + 1)[i as int] == y);
                    }
                }
                if v@.subrange(0, i + 1).contains(y) {
                    let q = choose|q: int| 0 <= q < i + 1 && #[trigger] v@.subrange(0, i + 1)[q] == y;
                    if q < i {
                        assert(v@.subrange(0, i as int)[q] == y);
                        assert(old_r.contains(y));
                        let q2 = choose|q2: int| 0 <= q2 < old_r.len() && old_r[q2] == y;
                        if q2 < p {
                            assert(r@[q2] == y);
                        } else {
                            assert(r@[q2 + 1] == y);
                        }
                    } else {
                        assert(r@[p as int] == y);
                    }
                }
            }
        } else {
            assert forall|y: usize| r@.contains(y) <==> v@.subrange(0, i + 1).contains(y) by {
                if r@.contains(y) {
                    let q = choose|q: int| 0 <= q < r@.len() && r@[q] == y;
                    let q2 = choose|q2: int| 0 <= q2 < i && #[trigger] v@.subrange(0, i as int)[q2] == y;
                    assert(v@.subrange(0, i + 1)[q2] == y);
                }
                if v@.subrange(0, i + 1).contains(y) {
                    let q = choose|q: int| 0 <= q < i + 1 && #[trigger] v@.subrange(0, i + 1)[q] == y;
                    if q < i {
                        assert(v@.subrange(0, i as int)[q] == y);
                    } else {
                        assert(r@[p as int] == y);
                    }
                }
            }
        }
        i += 1;
    }
    assert(v@.subrange(0, i as int) =~= v@);
    proof {
        lemma_canonical(r@, v@);
    }
    r
}

} // verus!

verus! {

// ---------------------------------------------------------------------------
// The alphabet.

/// `c` labels a column of some row, and is not epsilon.
pub open spec fn in_alphabet(rows: Seq<NFARowModel>, c: char) -> bool {
    c != EPSILON && exists|k: int, i: int|
        0 <= k < rows.len() && 0 <= i < rows[k].symbols.len() && #[trigger] rows[k].symbols[i].0
            == c
}

pub open spec fn chars_sorted(a: Seq<char>) -> bool {
    forall|i: int, j: int| 0 <= i < j < a.len() ==> (a[i] as int) < (a[j] as int)
}

/// `a` is the alphabet of the table, in increasing order.
pub open spec fn is_alphabet(rows: Seq<NFARowModel>, a: Seq<char>) -> bool {
    &&& chars_sorted(a)
    &&& forall|c: char| a.contains(c) <==> in_alphabet(rows, c)
}

/// Adds `c` to the sorted `a`, unless it is there.
#[verifier::spinoff_prover]
pub(crate) fn insert_char(a: &mut Vec<char>, c: char)
    requires
        chars_sorted(old(a)@),
    ensures
        chars_sorted(final(a)@),
        forall|x: char| final(a)@.contains(x) <==> (old(a)@.contains(x) || x == c),
{
    let mut p: usize = 0;
    while p < a.len() && a[p] < c
        invariant
            p <= a@.len(),
            a@ == old(a)@,
            forall|q: int| 0 <= q < p ==> (a@[q] as int) < (c as int),
        decreases a@.len() - p,
    {
        p += 1;
    }
    if p < a.len() && a[p] == c {
        assert(a@[p as int] == c);
        assert(a@.contains(c));
        return;
    }
    let ghost o = a@;
    a.insert(p, c);
    assert(a@ == o.insert(p as int, c));
    assert forall|i: int, j: int| 0 <= i < j < a@.len() implies (a@[i] as int) < (a@[j] as int) by {
        if j < p {
        } else if j == p {
        } else if i < p {
            assert(a@[j] == o[j - 1]);
            assert((o[p as int] as int) > (c as int));
        } else if i == p {
            assert(a@[j] == o[j - 1]);
            assert((o[p as int] as int) > (c as int));
        } else {
            assert(a@[i] == o[i - 1]);
            assert(a@[j] == o[j - 1]);
        }
    }
    assert forall|x: char| a@.contains(x) implies (o.contains(x) || x == c) by {
        let q = choose|q: int| 0 <= q < a@.len() && a@[q] == x;
        if q < p {
            assert(o[q] == x);
            assert(o.contains(x));
        } else if q > p {
            assert(o[q - 1] == x);
            assert(o.contains(x));
        }
    }
    assert forall|x: char| (o.contains(x) || x == c) implies a@.contains(x) by {
        if x == c {
            assert(a@[p as int] == x);
        } else {
            let q = choose|q: int| 0 <= q < o.len() && o[q] == x;
            if q < p {
                assert(a@[q] == x);
            } else {
                assert(a@[q + 1] == x);
            }
        }
    }
    assert(o == old(a)@);
    assert(forall|x: char| a@.contains(x) <==> (old(a)@.contains(x) || x == c));
}

impl DFATable {
    /// The alphabet of an NFA table: every symbol of its columns but epsilon,
    /// in increasing order.
    pub fn get_alphabet(nfa_table: &NFATable) -> (r: Vec<char>)
        ensures
            is_alphabet(rows_model(nfa_table.table@), r@),
    {
        let ghost rows = rows_model(nfa_table.table@);
        let mut a: Vec<char> = Vec::new();
        let mut k: usize = 0;
        while k < nfa_table.table.len()
            invariant
                k <= rows.len(),
                rows == rows_model(nfa_table.table@),
                chars_sorted(a@),
                forall|c: char|
                    a@.contains(c) <==> (c != EPSILON && exists|k2: int, i: int|
                        0 <= k2 < k && 0 <= i < rows[k2].symbols.len()
                            && #[trigger] rows[k2].symbols[i].0 == c),
            decreases rows.len() - k,
        {
            let cols = &nfa_table.table[k].symbols;
            assert(rows[k as int] == nfa_table.table@[k as int]@);
            let mut i: usize = 0;
            while i < cols.len()
                invariant
                    k < rows.len(),
                    rows == rows_model(nfa_table.table@),
                    cols@ == nfa_table.table@[k as int].symbols@,
                    rows[k as int].symbols == crate::state::edges_model(cols@),
                    i <= cols@.len(),
                    chars_sorted(a@),
                    forall|c: char|
                        a@.contains(c) <==> (c != EPSILON && ((exists|k2: int, i2: int|
                            0 <= k2 < k && 0 <= i2 < rows[k2].symbols.len()
                                && #[trigger] rows[k2].symbols[i2].0 == c) || exists|i2: int|
                            0 <= i2 < i && #[trigger] rows[k as int].symbols[i2].0 == c)),
                decreases cols@.len() - i,
            {
                let c = cols[i].0;
                assert(rows[k as int].symbols[i as int].0 == c);
                if c != EPSILON {
                    insert_char(&mut a, c);
                }
                i += 1;
            }
            proof {
                assert forall|c: char|
                    a@.contains(c) <==> (c != EPSILON && exists|k2: int, i2: int|
                        0 <= k2 < k + 1 && 0 <= i2 < rows[k2].symbols.len()
                            && #[trigger] rows[k2].symbols[i2].0 == c) by {
                    if c != EPSILON && exists|k2: int, i2: int|
                        0 <= k2 < k + 1 && 0 <= i2 < rows[k2].symbols.len()
                            && #[trigger] rows[k2].symbols[i2].0 == c {
                        let (k2, i2) = choose|k2: int, i2: int|
                            0 <= k2 < k + 1 && 0 <= i2 < rows[k2].symbols.len()
                                && #[trigger] rows[k2].symbols[i2].0 == c;
                        if k2 == k {
                            assert(rows[k as int].symbols[i2].0 == c);
                        }
                    }
                }
            }
            k += 1;
        }
        a
    }
}

} // verus!

verus! {

// ---------------------------------------------------------------------------
// Subset construction.

/// The composite state that the epsilon column of row `k` stands for.
pub open spec fn set_of(rows: Seq<NFARowModel>, k: int) -> Seq<usize> {
    canonical(rows[k].epsilon)
}

/// Some id of the set is an accepting state of the NFA.
pub open spec fn set_accepting(rows: Seq<NFARowModel>, s: Seq<usize>) -> bool {
    exists|i: int| 0 <= i < s.len() && 1 <= #[trigger] s[i] <= rows.len() && rows[s[i] - 1].accepting
}

pub open spec fn transition_of(rows: Seq<NFARowModel>, s: Seq<usize>, c: char) -> Option<
    (char, Seq<char>),
> {
    match successor(rows, s, c) {
        Some(k) => Some((c, join_ids(set_of(rows, k)))),
        None => None,
    }
}

/// The transitions of `s`, one for each symbol of `alpha` on which it has a
/// successor, in the order of `alpha`.
pub open spec fn row_transitions(rows: Seq<NFARowModel>, s: Seq<usize>, alpha: Seq<char>) -> Seq<
    (char, Seq<char>),
> {
    alpha.filter_map(|c: char| transition_of(rows, s, c))
}

/// The row of the composite state `s`: labelled by its ids; an accepting set
/// has no transitions, another one a transition for each symbol of the
/// alphabet on which it has a successor.
pub open spec fn dfa_row_of(rows: Seq<NFARowModel>, alpha: Seq<char>, s: Seq<usize>) -> DfaRowModel {
    DfaRowModel {
        label: join_ids(s),
        accepting: set_accepting(rows, s),
        transitions: if set_accepting(rows, s) {
            Seq::empty()
        } else {
            row_transitions(rows, s, alpha)
        },
    }
}

/// Row `i` stands for the start set, or for the successor of an earlier,
/// non-accepting row on a symbol of the alphabet.
pub open spec fn reached_before(
    rows: Seq<NFARowModel>,
    alpha: Seq<char>,
    origins: Seq<usize>,
    ranks: Seq<int>,
    i: int,
) -> bool {
    ||| (origins[i] == 0 && ranks[i] == 0)
    ||| exists|j: int, c: char|
        0 <= j < origins.len() && ranks[j] < ranks[i] && !set_accepting(
            rows,
            set_of(rows, origins[j] as int),
        ) && alpha.contains(c) && #[trigger] successor(rows, set_of(rows, origins[j] as int), c)
            == Some(origins[i] as int)
}

/// `d` is the subset construction of the NFA table whose rows are `rows`:
/// row `i` is the row of the set of the epsilon column of NFA row
/// `origins[i]`, reached in the order given by `ranks`, and the start is the
/// set of the first row's epsilon column.
pub open spec fn subset_table(
    rows: Seq<NFARowModel>,
    alpha: Seq<char>,
    d: DfaModel,
    origins: Seq<usize>,
    ranks: Seq<int>,
) -> bool {
    &&& origins.len() == d.rows.len()
    &&& ranks.len() == d.rows.len()
    &&& d.start == join_ids(set_of(rows, 0))
    &&& forall|i: int|
        0 <= i < d.rows.len() ==> origins[i] < rows.len() && #[trigger] d.rows[i] == dfa_row_of(
            rows,
            alpha,
            set_of(rows, origins[i] as int),
        )
    &&& forall|i: int| 0 <= i < d.rows.len() ==> #[trigger] reached_before(rows, alpha, origins, ranks, i)
}

/// Whether some id of `s` is accepting.
fn set_is_accepting(nfa_table: &NFATable, s: &Vec<usize>) -> (r: bool)
    ensures
        r == set_accepting(rows_model(nfa_table.table@), s@),
{
    let ghost rows = rows_model(nfa_table.table@);
    let mut i: usize = 0;
    while i < s.len()
        invariant
            i <= s@.len(),
            rows == rows_model(nfa_table.table@),
            forall|q: int|
                0 <= q < i ==> !(1 <= #[trigger] s@[q] <= rows.len() && rows[s@[q] - 1].accepting),
        decreases s@.len() - i,
    {
        let id = s[i];
        if id >= 1 && id <= nfa_table.table.len() {
            assert(rows[id - 1] == nfa_table.table@[id - 1]@);
            if nfa_table.table[id - 1].accepting {
                assert(s@[i as int] == id);
                return true;
            }
        }
        i += 1;
    }
    false
}

/// The index of the row labelled `l`, if there is one.
fn find_label(rows: &Vec<DFARow>, l: &String) -> (r: Option<usize>)
    ensures
        match r {
            Some(i) => i < rows@.len() && rows@[i as int].label@ == l@,
            None => !has_label(dfa_rows_model(rows@), l@),
        },
{
    let mut i: usize = 0;
    while i < rows.len()
        invariant
            i <= rows@.len(),
            forall|q: int| 0 <= q < i ==> #[trigger] rows@[q].label@ != l@,
        decreases rows@.len() - i,
    {
        if rows[i].label == *l {
            return Some(i);
        }
        i += 1;
    }
    proof {
        assert forall|q: int| 0 <= q < rows@.len() implies #[trigger] dfa_rows_model(rows@)[q].label
            != l@ by {
            assert(dfa_rows_model(rows@)[q] == rows@[q]@);
        }
    }
    None
}

} // verus!

verus! {

/// Rows of the subset construction in order of discovery: each row after the
/// first is reached from an earlier one.
pub open spec fn discovery_rows(
    rows: Seq<NFARowModel>,
    alpha: Seq<char>,
    d: Seq<DfaRowModel>,
    origins: Seq<usize>,
) -> bool {
    &&& origins.len() == d.len()
    &&& forall|i: int|
        0 <= i < d.len() ==> origins[i] < rows.len() && #[trigger] d[i] == dfa_row_of(
            rows,
            alpha,
            set_of(rows, origins[i] as int),
        )
    &&& forall|i: int, j: int| 0 <= i < d.len() && 0 <= j < d.len() && i != j ==> d[i].label != d[j].label
    &&& forall|i: int| 0 < i < d.len() ==> #[trigger] found_before(rows, alpha, origins, i)
    &&& d.len() > 0 ==> origins[0] == 0
}

/// Row `i` stands for the successor of an earlier, non-accepting row on a
/// symbol of the alphabet.
pub open spec fn found_before(rows: Seq<NFARowModel>, alpha: Seq<char>, origins: Seq<usize>, i: int) -> bool {
    exists|j: int, c: char|
        0 <= j < i && !set_accepting(rows, set_of(rows, origins[j] as int)) && alpha.contains(c)
            && #[trigger] successor(rows, set_of(rows, origins[j] as int), c) == Some(
            origins[i] as int,
        )
}

/// A pending entry: the successor of a row on a symbol of the alphabet.
pub open spec fn pending(
    rows: Seq<NFARowModel>,
    alpha: Seq<char>,
    d: Seq<DfaRowModel>,
    origins: Seq<usize>,
    w: usize,
) -> bool {
    exists|j: int, c: char|
        0 <= j < d.len() && !set_accepting(rows, set_of(rows, origins[j] as int)) && alpha.contains(
            c,
        ) && #[trigger] successor(rows, set_of(rows, origins[j] as int), c) == Some(w as int)
}

impl DFATable {
    /// The rows of the subset construction, in order of discovery, with the
    /// NFA row of each.
    #[verifier::spinoff_prover]
    #[verifier::rlimit(80)]
    fn discover_rows(
        nfa_table: &NFATable,
        alpha: &Vec<char>,
        sets: &Vec<Vec<usize>>,
        labels: &Vec<String>,
    ) -> (r: (Vec<DFARow>, Ghost<Seq<usize>>))
        requires
            nfa_table.wf(),
            is_alphabet(rows_model(nfa_table.table@), alpha@),
            sets@.len() == nfa_table.table@.len(),
            labels@.len() == nfa_table.table@.len(),
            forall|k: int|
                0 <= k < sets@.len() ==> #[trigger] sets@[k]@ == set_of(
                    rows_model(nfa_table.table@),
                    k,
                ),
            forall|k: int|
                0 <= k < labels@.len() ==> #[trigger] labels@[k]@ == join_ids(
                    set_of(rows_model(nfa_table.table@), k),
                ),
        ensures
            discovery_rows(rows_model(nfa_table.table@), alpha@, dfa_rows_model(r.0@), r.1@),
            r.0@.len() > 0,
            forall|i: int, j: int|
                0 <= i < r.0@.len() && 0 <= j < r.0@[i].transitions@.len() ==> has_label(
                    dfa_rows_model(r.0@),
                    #[trigger] dfa_rows_model(r.0@)[i].transitions[j].1,
                ),
    {
        let ghost rows = rows_model(nfa_table.table@);
        let ghost al = alpha@;
        let n = nfa_table.table.len();
        let mut out: Vec<DFARow> = Vec::new();
        let ghost mut origins: Seq<usize> = Seq::empty();
        let mut work: Vec<usize> = Vec::new();
        work.push(0);
        while work.len() > 0
            invariant
                nfa_table.wf(),
                rows == rows_model(nfa_table.table@),
                n == rows.len(),
                n >= 1,
                al == alpha@,
                is_alphabet(rows, al),
                sets@.len() == n,
                labels@.len() == n,
                forall|k: int| 0 <= k < n ==> #[trigger] sets@[k]@ == set_of(rows, k),
                forall|k: int| 0 <= k < n ==> #[trigger] labels@[k]@ == join_ids(set_of(rows, k)),
                discovery_rows(rows, al, dfa_rows_model(out@), origins),
                out@.len() == 0 ==> work@ == seq![0usize],
                out@.len() > 0 ==> forall|q: int|
                    0 <= q < work@.len() ==> #[trigger] work@[q] < n && pending(
                        rows,
                        al,
                        dfa_rows_model(out@),
                        origins,
                        work@[q],
                    ),
                forall|i: int, j: int|
                    0 <= i < out@.len() && 0 <= j < out@[i].transitions@.len() ==> has_label(
                        dfa_rows_model(out@),
                        #[trigger] dfa_rows_model(out@)[i].transitions[j].1,
                    ) || exists|q: int|
                        0 <= q < work@.len() && #[trigger] labels@[work@[q] as int]@
                            == dfa_rows_model(out@)[i].transitions[j].1,
            decreases n - out@.len(), work@.len(),
        {
            let ghost d0 = dfa_rows_model(out@);
            let ghost w0 = work@;
            proof {
                assert forall|i: int| 0 <= i < origins.len() implies #[trigger] origins[i] < n by {
                    assert(d0[i] == dfa_row_of(rows, al, set_of(rows, origins[i] as int)));
                }
                assert(origins.no_duplicates()) by {
                    assert forall|i: int, j: int|
                        0 <= i < origins.len() && 0 <= j < origins.len() && i != j implies origins[i]
                        != origins[j] by {
                        assert(d0[i].label != d0[j].label);
                    }
                }
                crate::nfa_table::lemma_distinct_below(origins, n as int);
            }
            let k = work.pop().unwrap();
            assert(k == w0.last());
            assert(k < n) by {
                if out@.len() > 0 {
                    assert(w0[w0.len() - 1] < n);
                }
            }
            match find_label(&out, &labels[k]) {
                Some(_) => {
                    proof {
                        assert forall|i: int, j: int|
                            0 <= i < out@.len() && 0 <= j < out@[i].transitions@.len() implies has_label(
                            dfa_rows_model(out@),
                            #[trigger] dfa_rows_model(out@)[i].transitions[j].1,
                        ) || exists|q: int|
                            0 <= q < work@.len() && #[trigger] labels@[work@[q] as int]@
                                == dfa_rows_model(out@)[i].transitions[j].1 by {
                            let tl = dfa_rows_model(out@)[i].transitions[j].1;
                            if !has_label(d0, tl) {
                                let q = choose|q: int|
                                    0 <= q < w0.len() && #[trigger] labels@[w0[q] as int]@ == tl;
                                if q < w0.len() - 1 {
                                    assert(work@[q] == w0[q]);
                                } else {
                                    let fi = choose|fi: int| 0 <= fi < out@.len() && out@[fi].label@ == labels@[k as int]@;
                                    assert(d0[fi].label == tl);
                                }
                            }
                        }
                        assert forall|q: int| 0 <= q < work@.len() implies #[trigger] work@[q] < n && pending(
                            rows,
                            al,
                            dfa_rows_model(out@),
                            origins,
                            work@[q],
                        ) by {
                            assert(work@[q] == w0[q]);
                        }
                    }
                },
                None => {
                    proof {
                        assert forall|i: int| 0 <= i < origins.len() implies #[trigger] origins[i] != k by {
                            assert(d0[i] == dfa_row_of(rows, al, set_of(rows, origins[i] as int)));
                            if origins[i] == k {
                                assert(sets@[k as int]@ == set_of(rows, k as int));
                                assert(d0[i].label == labels@[k as int]@);
                            }
                        }
                        let o2 = origins.push(k);
                        assert forall|i: int| 0 <= i < o2.len() implies #[trigger] o2[i] < n by {
                            if i < origins.len() {
                                assert(d0[i] == dfa_row_of(rows, al, set_of(rows, origins[i] as int)));
                            }
                        }
                        assert(o2.no_duplicates()) by {
                            assert forall|i: int, j: int|
                                0 <= i < o2.len() && 0 <= j < o2.len() && i != j implies o2[i] != o2[j] by {
                                if i < origins.len() && j < origins.len() {
                                    assert(d0[i].label != d0[j].label);
                                }
                            }
                        }
                        crate::nfa_table::lemma_distinct_below(o2, n as int);
                    }
                    let s = &sets[k];
                    let acc = set_is_accepting(nfa_table, s);
                    let mut trans: Vec<(char, String)> = Vec::new();
                    let ghost wk = work@;
                    let idx = out.len();
                    if !acc {
                        let mut ci: usize = 0;
                        while ci < alpha.len()
                            invariant
                                nfa_table.wf(),
                                rows == rows_model(nfa_table.table@),
                                n == rows.len(),
                                al == alpha@,
                                k < n,
                                s@ == set_of(rows, k as int),
                                !set_accepting(rows, s@),
                                sets@.len() == n,
                                labels@.len() == n,
                                forall|kk: int|
                                    0 <= kk < n ==> #[trigger] labels@[kk]@ == join_ids(set_of(rows, kk)),
                                ci <= al.len(),
                                transitions_model(trans@) == row_transitions(
                                    rows,
                                    s@,
                                    al.subrange(0, ci as int),
                                ),
                                work@.len() == wk.len() + trans@.len(),
                                work@.subrange(0, wk.len() as int) == wk,
                                forall|j: int|
                                    0 <= j < trans@.len() ==> work@[wk.len() + j] < n
                                        && labels@[work@[wk.len() + j] as int]@ == (#[trigger] trans@[j]).1@
                                        && al.contains(trans@[j].0) && successor(
                                        rows,
                                        s@,
                                        trans@[j].0,
                                    ) == Some(work@[wk.len() + j] as int),
                            decreases al.len() - ci,
                        {
                            let c = alpha[ci];
                            let ghost pre = al.subrange(0, ci + 1);
                            assert(pre.drop_last() =~= al.subrange(0, ci as int));
                            assert(pre.last() == c);
                            let ghost t0 = trans@;
                            let ghost wb = work@;
                            match find_epsilon_closure(c, s, nfa_table) {
                                Some(k2) => {
                                    let target = labels[k2].clone();
                                    trans.push((c, target));
                                    work.push(k2);
                                    proof {
                                        assert(transitions_model(trans@) =~= transitions_model(t0).push(
                                            (c, labels@[k2 as int]@),
                                        ));
                                        assert(al.contains(c)) by {
                                            assert(al[ci as int] == c);
                                        }
                                        assert(work@.subrange(0, wk.len() as int) =~= wk) by {
                                            assert forall|q: int| 0 <= q < wk.len() implies work@[q] == wk[q] by {
                                                assert(wb.subrange(0, wk.len() as int)[q] == wk[q]);
                                            }
                                        }
                                        assert forall|j: int| 0 <= j < trans@.len() implies work@[wk.len() + j] < n
                                            && labels@[work@[wk.len() + j] as int]@ == (#[trigger] trans@[j]).1@
                                            && al.contains(trans@[j].0) && successor(
                                            rows,
                                            s@,
                                            trans@[j].0,
                                        ) == Some(work@[wk.len() + j] as int) by {
                                            if j < t0.len() {
                                                assert(trans@[j] == t0[j]);
                                                assert(work@[wk.len() + j] == wb[wk.len() + j]);
                                            } else {
                                                assert(work@[wk.len() + j] == k2);
                                            }
                                        }
                                        assert(labels@[k2 as int]@ == join_ids(set_of(rows, k2 as int)));
                                        assert(transition_of(rows, s@, c) == Some((c, labels@[k2 as int]@)));
                                        assert(row_transitions(rows, s@, pre) == row_transitions(
                                            rows,
                                            s@,
                                            pre.drop_last(),
                                        ) + seq![(c, labels@[k2 as int]@)]);
                                    }
                                },
                                None => {
                                    assert(transition_of(rows, s@, c) is None);
                                    assert(row_transitions(rows, s@, pre) == row_transitions(
                                        rows,
                                        s@,
                                        pre.drop_last(),
                                    ));
                                },
                            }
                            assert(transitions_model(trans@) =~= row_transitions(rows, s@, pre));
                            ci += 1;
                        }
                        assert(al.subrange(0, ci as int) =~= al);
                    } else {
                        assert(transitions_model(trans@) =~= Seq::empty());
                        assert(work@.subrange(0, wk.len() as int) =~= wk);
                    }
                    let ghost tr = trans@;
                    assert(work@.len() == wk.len() + tr.len());
                    assert(work@.subrange(0, wk.len() as int) == wk);
                    assert(forall|j: int|
                        0 <= j < tr.len() ==> work@[wk.len() + j] < n && labels@[work@[wk.len() + j] as int]@
                            == (#[trigger] tr[j]).1@ && al.contains(tr[j].0) && successor(
                            rows,
                            s@,
                            tr[j].0,
                        ) == Some(work@[wk.len() + j] as int));
                    let row = DFARow { label: labels[k].clone(), accepting: acc, transitions: trans };
                    let ghost o0 = origins;
                    out.push(row);
                    proof {
                        origins = origins.push(k);
                        let d1 = dfa_rows_model(out@);
                        assert(d1 =~= d0.push(row@));
                        assert(row@ == dfa_row_of(rows, al, set_of(rows, k as int)));
                        // discovery rows
                        assert forall|i: int, j: int|
                            0 <= i < d1.len() && 0 <= j < d1.len() && i != j implies d1[i].label
                            != d1[j].label by {
                            if i == idx {
                                assert(d0[j] == d1[j]);
                            } else if j == idx {
                                assert(d0[i] == d1[i]);
                            }
                        }
                        assert forall|i: int|
                            0 <= i < d1.len() implies origins[i] < rows.len() && #[trigger] d1[i]
                            == dfa_row_of(rows, al, set_of(rows, origins[i] as int)) by {
                            if i < idx {
                                assert(d1[i] == d0[i]);
                                assert(origins[i] == o0[i]);
                            }
                        }
                        assert forall|i: int|
                            0 < i < d1.len() implies #[trigger] found_before(rows, al, origins, i) by {
                            if i < idx {
                                assert(found_before(rows, al, o0, i));
                                assert(origins[i] == o0[i]);
                                let (j, c) = choose|j: int, c: char|
                                    0 <= j < i && !set_accepting(rows, set_of(rows, o0[j] as int))
                                        && al.contains(c) && #[trigger] successor(
                                        rows,
                                        set_of(rows, o0[j] as int),
                                        c,
                                    ) == Some(o0[i] as int);
                                assert(origins[j] == o0[j]);
                            } else {
                                assert(origins[i] == k);
                                assert(w0[w0.len() - 1] == k);
                                assert(pending(rows, al, d0, o0, w0[w0.len() - 1]));
                                let (j, c) = choose|j: int, c: char|
                                    0 <= j < d0.len() && !set_accepting(rows, set_of(rows, o0[j] as int))
                                        && al.contains(c) && #[trigger] successor(
                                        rows,
                                        set_of(rows, o0[j] as int),
                                        c,
                                    ) == Some(k as int);
                                assert(origins[j] == o0[j]);
                            }
                        }
                        assert(discovery_rows(rows, al, d1, origins));
                        // pending
                        assert forall|q: int| 0 <= q < work@.len() implies #[trigger] work@[q] < n && pending(
                            rows,
                            al,
                            d1,
                            origins,
                            work@[q],
                        ) by {
                            if q < wk.len() {
                                assert(work@.subrange(0, wk.len() as int)[q] == wk[q]);
                                assert(wk[q] == w0[q]);
                                assert(pending(rows, al, d0, o0, w0[q]));
                                let (j, c) = choose|j: int, c: char|
                                    0 <= j < d0.len() && !set_accepting(rows, set_of(rows, o0[j] as int))
                                        && al.contains(c) && #[trigger] successor(
                                        rows,
                                        set_of(rows, o0[j] as int),
                                        c,
                                    ) == Some(w0[q] as int);
                                assert(origins[j] == o0[j]);
                            } else {
                                let j = q - wk.len();
                                assert(tr[j] == tr[j]);
                                let c = tr[j].0;
                                assert(successor(rows, s@, c) == Some(work@[q] as int));
                                assert(origins[idx as int] == k);
                                assert(successor(rows, set_of(rows, origins[idx as int] as int), c) == Some(work@[q] as int));
                            }
                        }
                        // closure
                        assert forall|i: int, j: int|
                            0 <= i < out@.len() && 0 <= j < out@[i].transitions@.len() implies has_label(
                            d1,
                            #[trigger] d1[i].transitions[j].1,
                        ) || exists|q: int|
                            0 <= q < work@.len() && #[trigger] labels@[work@[q] as int]@
                                == d1[i].transitions[j].1 by {
                            let tl = d1[i].transitions[j].1;
                            if i < idx {
                                assert(d1[i] == d0[i]);
                                if !has_label(d0, tl) {
                                    let q = choose|q: int|
                                        0 <= q < w0.len() && #[trigger] labels@[w0[q] as int]@ == tl;
                                    if q < w0.len() - 1 {
                                        assert(work@.subrange(0, wk.len() as int)[q] == wk[q]);
                                        assert(work@[q] == w0[q]);
                                    } else {
                                        assert(d1[idx as int].label == tl);
                                    }
                                } else {
                                    let fi = choose|fi: int| 0 <= fi < d0.len() && #[trigger] d0[fi].label == tl;
                                    assert(d1[fi].label == tl);
                                }
                            } else {
                                assert(out@[i].transitions@[j].1@ == tl);
                            }
                        }
                    }
                },
            }
        }
        (out, Ghost(origins))
    }
}

} // verus!

verus! {

pub open spec fn labels_distinct(d: Seq<DfaRowModel>) -> bool {
    forall|i: int, j: int| 0 <= i < d.len() && 0 <= j < d.len() && i != j ==> d[i].label != d[j].label
}

pub open spec fn labels_sorted(d: Seq<DfaRowModel>) -> bool {
    forall|i: int, j: int| 0 <= i < j < d.len() ==> lex_lt(d[i].label, d[j].label)
}

/// `r[i]` is `v[perm[i]]`, and `perm` is a bijection onto the indices of `v`.
pub open spec fn permuted(r: Seq<DfaRowModel>, v: Seq<DfaRowModel>, perm: Seq<int>) -> bool {
    &&& r.len() == v.len()
    &&& perm.len() == r.len()
    &&& perm.no_duplicates()
    &&& forall|i: int| 0 <= i < r.len() ==> 0 <= #[trigger] perm[i] < v.len() && r[i] == v[perm[i]]
    &&& forall|j: int| 0 <= j < v.len() ==> #[trigger] covered(perm, j)
}

/// Some index maps to `j`.
pub open spec fn covered(perm: Seq<int>, j: int) -> bool {
    exists|i: int| 0 <= i < perm.len() && perm[i] == j
}

/// The rows in increasing order of label.
fn sort_rows(v: Vec<DFARow>) -> (r: (Vec<DFARow>, Ghost<Seq<int>>))
    requires
        labels_distinct(dfa_rows_model(v@)),
    ensures
        permuted(dfa_rows_model(r.0@), dfa_rows_model(v@), r.1@),
        labels_sorted(dfa_rows_model(r.0@)),
{
    let ghost orig = dfa_rows_model(v@);
    let mut rest = v;
    let mut out: Vec<DFARow> = Vec::new();
    let ghost mut perm: Seq<int> = Seq::empty();
    while rest.len() > 0
        invariant
            orig.len() == rest@.len() + out@.len(),
            labels_distinct(orig),
            dfa_rows_model(rest@) == orig.subrange(0, rest@.len() as int),
            perm.len() == out@.len(),
            perm.no_duplicates(),
            labels_sorted(dfa_rows_model(out@)),
            forall|i: int|
                0 <= i < out@.len() ==> rest@.len() <= #[trigger] perm[i] < orig.len()
                    && dfa_rows_model(out@)[i] == orig[perm[i]],
            forall|j: int| rest@.len() <= j < orig.len() ==> #[trigger] covered(perm, j),
        decreases rest@.len(),
    {
        let ghost d = dfa_rows_model(out@);
        let ghost pos = rest@.len() - 1;
        let ghost pr = perm;
        let ghost rb = rest@;
        let x = rest.pop().unwrap();
        assert(x@ == orig[pos]) by {
            assert(dfa_rows_model(rb)[pos] == rb[pos]@);
        }
        let mut p: usize = 0;
        while p < out.len() && label_lt(&out[p].label, &x.label)
            invariant
                p <= out@.len(),
                d == dfa_rows_model(out@),
                forall|q: int| 0 <= q < p ==> lex_lt(#[trigger] d[q].label, x@.label),
            decreases out@.len() - p,
        {
            assert(d[p as int] == out@[p as int]@);
            p += 1;
        }
        proof {
            if p < out@.len() {
                assert(d[p as int] == out@[p as int]@);
                assert(!lex_lt(d[p as int].label, x@.label));
                let op = pr[p as int];
                assert(d[p as int] == orig[op]);
                assert(op != pos);
                assert(d[p as int].label != x@.label);
                crate::label::lemma_lex_total(d[p as int].label, x@.label);
            }
        }
        out.insert(p, x);
        proof {
            perm = pr.insert(p as int, pos);
            assert forall|a: int, b: int| 0 <= a < perm.len() && 0 <= b < perm.len() && a != b implies perm[a]
                != perm[b] by {
                let fa = if a < p { a } else { a - 1 };
                let fb = if b < p { b } else { b - 1 };
                if a != p && b != p {
                    assert(perm[a] == pr[fa]);
                    assert(perm[b] == pr[fb]);
                } else if a == p {
                    assert(perm[b] == pr[fb]);
                    assert(pr[fb] >= rest@.len() + 1);
                } else {
                    assert(perm[a] == pr[fa]);
                    assert(pr[fa] >= rest@.len() + 1);
                }
            }
            let d2 = dfa_rows_model(out@);
            assert(d2 =~= d.insert(p as int, x@));
            assert forall|i: int, j: int| 0 <= i < j < d2.len() implies lex_lt(d2[i].label, d2[j].label) by {
                if j < p {
                } else if j == p {
                } else if i < p {
                    assert(d2[j] == d[j - 1]);
                    if j - 1 > p {
                        crate::label::lemma_lex_transitive(x@.label, d[p as int].label, d[j - 1].label);
                    }
                    crate::label::lemma_lex_transitive(d[i].label, x@.label, d[j - 1].label);
                } else if i == p {
                    assert(d2[j] == d[j - 1]);
                    if j - 1 > p {
                        crate::label::lemma_lex_transitive(x@.label, d[p as int].label, d[j - 1].label);
                    }
                } else {
                    assert(d2[i] == d[i - 1]);
                    assert(d2[j] == d[j - 1]);
                }
            }
            assert forall|i: int|
                0 <= i < out@.len() implies rest@.len() <= #[trigger] perm[i] < orig.len()
                && dfa_rows_model(out@)[i] == orig[perm[i]] by {
                if i < p {
                    assert(perm[i] == pr[i]);
                } else if i > p {
                    assert(perm[i] == pr[i - 1]);
                    assert(d2[i] == d[i - 1]);
                }
            }
            assert forall|j: int| rest@.len() <= j < orig.len() implies #[trigger] covered(perm, j) by {
                if j == pos {
                    assert(perm[p as int] == j);
                } else {
                    assert(covered(pr, j));
                    let i0 = choose|i0: int| 0 <= i0 < pr.len() && pr[i0] == j;
                    if i0 < p {
                        assert(perm[i0] == j);
                    } else {
                        assert(perm[i0 + 1] == j);
                    }
                }
            }
            assert(dfa_rows_model(rest@) =~= orig.subrange(0, rest@.len() as int));
        }
    }
    (out, Ghost(perm))
}

} // verus!

verus! {

pub proof fn lemma_row_transitions_sorted(rows: Seq<NFARowModel>, s: Seq<usize>, alpha: Seq<char>)
    requires
        chars_sorted(alpha),
    ensures
        symbols_sorted(row_transitions(rows, s, alpha)),
        forall|j: int|
            0 <= j < row_transitions(rows, s, alpha).len() ==> exists|i: int|
                0 <= i < alpha.len() && alpha[i] == #[trigger] row_transitions(rows, s, alpha)[j].0,
    decreases alpha.len(),
{
    if alpha.len() > 0 {
        let pre = alpha.drop_last();
        assert(chars_sorted(pre));
        lemma_row_transitions_sorted(rows, s, pre);
        let rt = row_transitions(rows, s, alpha);
        let rp = row_transitions(rows, s, pre);
        assert forall|j: int| 0 <= j < rp.len() implies (rp[j].0 as int) < (alpha.last() as int) by {
            let i = choose|i: int| 0 <= i < pre.len() && pre[i] == rp[j].0;
            assert(alpha[i] == pre[i]);
        }
        match transition_of(rows, s, alpha.last()) {
            Some(x) => {
                assert(rt == rp + seq![x]);
                assert(forall|j: int| 0 <= j < rp.len() ==> rt[j] == rp[j]);
                assert forall|j: int| 0 <= j < rt.len() implies exists|i: int|
                    0 <= i < alpha.len() && alpha[i] == #[trigger] rt[j].0 by {
                    if j < rp.len() {
                        let i = choose|i: int| 0 <= i < pre.len() && pre[i] == rp[j].0;
                        assert(alpha[i] == pre[i]);
                    } else {
                        assert(rt[j].0 == alpha[alpha.len() - 1]);
                    }
                }
            },
            None => {
                assert(rt == rp);
                assert forall|j: int| 0 <= j < rt.len() implies exists|i: int|
                    0 <= i < alpha.len() && alpha[i] == #[trigger] rt[j].0 by {
                    let i = choose|i: int| 0 <= i < pre.len() && pre[i] == rp[j].0;
                    assert(alpha[i] == pre[i]);
                }
            },
        }
    }
}

impl DFATable {
    /// The table is the subset construction of the NFA table `t`.
    pub open spec fn built_from(&self, t: &NFATable) -> bool {
        exists|alpha: Seq<char>, origins: Seq<usize>, ranks: Seq<int>|
            is_alphabet(rows_model(t.table@), alpha) && subset_table(
                rows_model(t.table@),
                alpha,
                self@,
                origins,
                ranks,
            )
    }

    /// An empty table.
    pub fn new() -> (r: DFATable)
        ensures
            r@.start.len() == 0,
            r@.rows.len() == 0,
    {
        let r = DFATable { starting_state: String::new(), table: Vec::new() };
        assert(r@.rows =~= Seq::empty());
        r
    }

    /// The subset construction of an NFA table.
    pub fn from_nfa_table(nfa_table: &NFATable) -> (r: DFATable)
        requires
            nfa_table.wf(),
        ensures
            r@.wf(),
            r.built_from(nfa_table),
    {
        let ghost rows = rows_model(nfa_table.table@);
        let alpha = DFATable::get_alphabet(nfa_table);
        let n = nfa_table.table.len();
        let mut sets: Vec<Vec<usize>> = Vec::new();
        let mut labels: Vec<String> = Vec::new();
        let mut k: usize = 0;
        while k < n
            invariant
                n == rows.len(),
                rows == rows_model(nfa_table.table@),
                k <= n,
                sets@.len() == k,
                labels@.len() == k,
                forall|q: int| 0 <= q < k ==> #[trigger] sets@[q]@ == set_of(rows, q),
                forall|q: int| 0 <= q < k ==> #[trigger] labels@[q]@ == join_ids(set_of(rows, q)),
            decreases n - k,
        {
            assert(rows[k as int] == nfa_table.table@[k as int]@);
            let s = sorted_unique(&nfa_table.table[k].epsilon);
            labels.push(label_of_ids(&s));
            sets.push(s);
            k += 1;
        }
        let (found, origins) = DFATable::discover_rows(nfa_table, &alpha, &sets, &labels);
        let start = labels[0].clone();
        let ghost d = dfa_rows_model(found@);
        let (sorted, perm) = sort_rows(found);
        let r = DFATable { starting_state: start, table: sorted };
        proof {
            let al = alpha@;
            let o = origins@;
            let p = perm@;
            let e = r@.rows;
            let o2 = Seq::new(e.len(), |i: int| o[p[i]]);
            let ranks = p;
            assert forall|i: int|
                0 <= i < e.len() implies o2[i] < rows.len() && #[trigger] e[i] == dfa_row_of(
                rows,
                al,
                set_of(rows, o2[i] as int),
            ) by {
                assert(e[i] == d[p[i]]);
                assert(d[p[i]] == dfa_row_of(rows, al, set_of(rows, o[p[i]] as int)));
            }
            assert forall|i: int| 0 <= i < e.len() implies #[trigger] reached_before(
                rows,
                al,
                o2,
                ranks,
                i,
            ) by {
                let oi = p[i];
                if oi == 0 {
                    assert(o[0] == 0);
                } else {
                    assert(found_before(rows, al, o, oi));
                    let (j, c) = choose|j: int, c: char|
                        0 <= j < oi && !set_accepting(rows, set_of(rows, o[j] as int)) && al.contains(c)
                            && #[trigger] successor(rows, set_of(rows, o[j] as int), c) == Some(
                            o[oi] as int,
                        );
                    assert(covered(p, j));
                    let i2 = choose|i2: int| 0 <= i2 < p.len() && p[i2] == j;
                    assert(o2[i2] == o[j]);
                    assert(successor(rows, set_of(rows, o2[i2] as int), c) == Some(o2[i] as int));
                }
            }
            assert(subset_table(rows, al, r@, o2, ranks));
            // well-formedness
            assert forall|i: int| 0 <= i < e.len() implies symbols_sorted(#[trigger] e[i].transitions) by {
                lemma_row_transitions_sorted(rows, set_of(rows, o2[i] as int), al);
            }
            assert forall|i: int, j: int|
                0 <= i < e.len() && 0 <= j < e[i].transitions.len() implies has_label(
                e,
                #[trigger] e[i].transitions[j].1,
            ) by {
                let pi = p[i];
                assert(e[i] == d[pi]);
                assert(found@[pi]@ == d[pi]);
                assert(has_label(d, d[pi].transitions[j].1));
                let q = choose|q: int| 0 <= q < d.len() && #[trigger] d[q].label == d[pi].transitions[j].1;
                assert(covered(p, q));
                let i2 = choose|i2: int| 0 <= i2 < p.len() && p[i2] == q;
                assert(e[i2] == d[q]);
            }
            assert(has_label(e, r@.start)) by {
                assert(covered(p, 0));
                let i2 = choose|i2: int| 0 <= i2 < p.len() && p[i2] == 0;
                assert(e[i2] == d[0]);
                assert(o[0] == 0);
                assert(d[0] == dfa_row_of(rows, al, set_of(rows, o[0] as int)));
                assert(labels@[0]@ == join_ids(set_of(rows, 0)));
                assert(e[i2].label == r@.start);
            }
            assert(labels@[0]@ == join_ids(set_of(rows, 0)));
        }
        r
    }

    /// The DFA table of a fragment: its NFA table is extracted, then the
    /// subset construction is applied to it. The extracted table is unique
    /// (see `lemma_extraction_unique`), so it is the table that
    /// `NFATable::from` gives for the same fragment.
    pub fn from(nfa: &NFA) -> (r: DFATable)
        requires
            nfa.wf(),
        ensures
            r@.wf(),
            exists|t: NFATable| t.extracted_from(nfa@) && t.wf() && r.built_from(&t),
            forall|t: NFATable| #[trigger] t.extracted_from(nfa@) ==> r.built_from(&t),
    {
        let t = NFATable::from(nfa);
        let r = DFATable::from_nfa_table(&t);
        assert(t.extracted_from(nfa@) && t.wf() && r.built_from(&t));
        assert forall|t2: NFATable| #[trigger] t2.extracted_from(nfa@) implies r.built_from(&t2) by {
            crate::nfa_table::lemma_extraction_unique(t, t2, nfa@);
        }
        r
    }
}

} // verus!

verus! {

// ---------------------------------------------------------------------------
// Label simplification.

/// The labels met by a walk over the rows in order: each row's label, then
/// the targets of its transitions.
pub open spec fn encounter(rows: Seq<DfaRowModel>) -> Seq<Seq<char>>
    decreases rows.len(),
{
    if rows.len() == 0 {
        Seq::empty()
    } else {
        encounter(rows.drop_last()) + seq![rows.last().label] + rows.last().transitions.map_values(
            |t: (char, Seq<char>)| t.1,
        )
    }
}

/// The items of `s`, each once, in order of first appearance.
pub open spec fn first_seen(s: Seq<Seq<char>>) -> Seq<Seq<char>>
    decreases s.len(),
{
    if s.len() == 0 {
        Seq::empty()
    } else if first_seen(s.drop_last()).contains(s.last()) {
        first_seen(s.drop_last())
    } else {
        first_seen(s.drop_last()).push(s.last())
    }
}

pub open spec fn position(names: Seq<Seq<char>>, l: Seq<char>) -> int {
    choose|i: int| 0 <= i < names.len() && names[i] == l
}

/// The new label of `l`: the rank, from 1, of its first appearance.
pub open spec fn renamed(names: Seq<Seq<char>>, l: Seq<char>) -> Seq<char> {
    crate::label::decimal((position(names, l) + 1) as nat)
}

pub open spec fn renamed_transitions(names: Seq<Seq<char>>, ts: Seq<(char, Seq<char>)>) -> Seq<
    (char, Seq<char>),
> {
    ts.map_values(|t: (char, Seq<char>)| (t.0, renamed(names, t.1)))
}

pub open spec fn renamed_row(names: Seq<Seq<char>>, r: DfaRowModel) -> DfaRowModel {
    DfaRowModel {
        label: renamed(names, r.label),
        accepting: r.accepting,
        transitions: renamed_transitions(names, r.transitions),
    }
}

pub open spec fn renamed_rows(names: Seq<Seq<char>>, rows: Seq<DfaRowModel>) -> Seq<DfaRowModel> {
    rows.map_values(|r: DfaRowModel| renamed_row(names, r))
}

/// `e` is `d` relabelled: each label becomes the rank, from 1, of its first
/// appearance in the walk over `d`, and the rows are kept in order of their
/// new labels.
pub open spec fn simplified(d: DfaModel, e: DfaModel) -> bool {
    let names = first_seen(encounter(d.rows));
    &&& e.start == renamed(names, d.start)
    &&& exists|perm: Seq<int>| #[trigger] permuted(e.rows, renamed_rows(names, d.rows), perm)
}

pub proof fn lemma_first_seen(s: Seq<Seq<char>>)
    ensures
        first_seen(s).no_duplicates(),
        forall|x: Seq<char>| first_seen(s).contains(x) <==> s.contains(x),
    decreases s.len(),
{
    if s.len() > 0 {
        let s0 = s.drop_last();
        let y = s.last();
        lemma_first_seen(s0);
        let p = first_seen(s0);
        assert(s =~= s0.push(y));
        assert forall|x: Seq<char>| first_seen(s).contains(x) <==> s.contains(x) by {
            assert(s0.contains(x) ==> s.contains(x)) by {
                if s0.contains(x) {
                    let i = choose|i: int| 0 <= i < s0.len() && s0[i] == x;
                    assert(s[i] == x);
                }
            }
            assert(s.contains(x) ==> (s0.contains(x) || x == y)) by {
                if s.contains(x) {
                    let i = choose|i: int| 0 <= i < s.len() && s[i] == x;
                    if i < s0.len() {
                        assert(s0[i] == x);
                    }
                }
            }
            assert(s.contains(y)) by {
                assert(s[s.len() - 1] == y);
            }
            if p.contains(y) {
                assert(first_seen(s) == p);
            } else {
                assert(first_seen(s) == p.push(y));
                assert(p.push(y)[p.len() as int] == y);
                assert(p.contains(x) ==> p.push(y).contains(x)) by {
                    if p.contains(x) {
                        let i = choose|i: int| 0 <= i < p.len() && p[i] == x;
                        assert(p.push(y)[i] == x);
                    }
                }
                assert(p.push(y).contains(x) ==> (p.contains(x) || x == y)) by {
                    if p.push(y).contains(x) {
                        let i = choose|i: int| 0 <= i < p.len() + 1 && p.push(y)[i] == x;
                        if i < p.len() {
                            assert(p[i] == x);
                        }
                    }
                }
            }
        }
        if !p.contains(y) {
            let q = p.push(y);
            assert forall|i: int, j: int| 0 <= i < q.len() && 0 <= j < q.len() && i != j implies q[i] != q[j] by {
                if i < p.len() && j < p.len() {
                } else if i < p.len() {
                    assert(p.contains(p[i]));
                } else if j < p.len() {
                    assert(p.contains(p[j]));
                }
            }
        }
    }
}

pub proof fn lemma_encounter_contains(rows: Seq<DfaRowModel>, i: int)
    requires
        0 <= i < rows.len(),
    ensures
        encounter(rows).contains(rows[i].label),
        forall|j: int|
            0 <= j < rows[i].transitions.len() ==> encounter(rows).contains(
                #[trigger] rows[i].transitions[j].1,
            ),
    decreases rows.len(),
{
    let r0 = rows.drop_last();
    let last = rows.last();
    let tail = last.transitions.map_values(|t: (char, Seq<char>)| t.1);
    let e = encounter(rows);
    assert(e == encounter(r0) + seq![last.label] + tail);
    let n0 = encounter(r0).len() as int;
    if i < rows.len() - 1 {
        lemma_encounter_contains(r0, i);
        assert(r0[i] == rows[i]);
        let k = choose|k: int| 0 <= k < encounter(r0).len() && encounter(r0)[k] == rows[i].label;
        assert(e[k] == rows[i].label);
        assert forall|j: int| 0 <= j < rows[i].transitions.len() implies e.contains(
            #[trigger] rows[i].transitions[j].1,
        ) by {
            assert(encounter(r0).contains(r0[i].transitions[j].1));
            let k2 = choose|k2: int| 0 <= k2 < encounter(r0).len() && encounter(r0)[k2] == rows[i].transitions[j].1;
            assert(e[k2] == rows[i].transitions[j].1);
        }
    } else {
        assert(e[n0] == rows[i].label);
        assert forall|j: int| 0 <= j < rows[i].transitions.len() implies e.contains(
            #[trigger] rows[i].transitions[j].1,
        ) by {
            assert(e[n0 + 1 + j] == tail[j]);
        }
    }
}

pub proof fn lemma_position(names: Seq<Seq<char>>, i: int)
    requires
        names.no_duplicates(),
        0 <= i < names.len(),
    ensures
        position(names, names[i]) == i,
{
    let j = position(names, names[i]);
    assert(0 <= j < names.len() && names[j] == names[i]);
}

/// Adds `l` to `names` unless it is there.
fn see(names: &mut Vec<String>, l: &String)
    ensures
        names_model(final(names)@) == if names_model(old(names)@).contains(l@) {
            names_model(old(names)@)
        } else {
            names_model(old(names)@).push(l@)
        },
{
    let mut i: usize = 0;
    while i < names.len()
        invariant
            i <= names@.len(),
            names@ == old(names)@,
            forall|q: int| 0 <= q < i ==> #[trigger] names@[q]@ != l@,
        decreases names@.len() - i,
    {
        if names[i] == *l {
            assert(names_model(names@)[i as int] == l@);
            return;
        }
        i += 1;
    }
    assert(!names_model(names@).contains(l@)) by {
        if names_model(names@).contains(l@) {
            let q = choose|q: int| 0 <= q < names@.len() && names_model(names@)[q] == l@;
            assert(names_model(names@)[q] == names@[q]@);
        }
    }
    let ghost before = names@;
    names.push(l.clone());
    assert(names_model(names@) =~= names_model(before).push(l@));
}

pub open spec fn names_model(v: Seq<String>) -> Seq<Seq<char>> {
    v.map_values(|s: String| s@)
}

/// The new label of `l`, given the names in order of first appearance.
fn rename(names: &Vec<String>, l: &String) -> (r: String)
    requires
        names_model(names@).no_duplicates(),
        names_model(names@).contains(l@),
    ensures
        r@ == renamed(names_model(names@), l@),
{
    let ghost nm = names_model(names@);
    let mut i: usize = 0;
    while i < names.len()
        invariant
            i <= names@.len(),
            nm == names_model(names@),
            nm.no_duplicates(),
            nm.contains(l@),
            forall|q: int| 0 <= q < i ==> #[trigger] nm[q] != l@,
        decreases names@.len() - i,
    {
        assert(nm[i as int] == names@[i as int]@);
        if names[i] == *l {
            proof {
                lemma_position(nm, i as int);
            }
            return crate::label::decimal_string(i + 1);
        }
        i += 1;
    }
    assert(false);
    String::new()
}

impl DFATable {
    /// Relabels the states by small sequential numbers: walking the rows in
    /// order, each label (a row's, then its targets') gets the next number
    /// when first met. Rows are then kept in order of their new labels.
    pub fn simplify_notations(&mut self)
        requires
            old(self)@.wf(),
        ensures
            final(self)@.wf(),
            simplified(old(self)@, final(self)@),
    {
        let ghost d = self@;
        let mut names: Vec<String> = Vec::new();
        let ghost mut walked: Seq<Seq<char>> = Seq::empty();
        let mut i: usize = 0;
        while i < self.table.len()
            invariant
                d == self@,
                i <= d.rows.len(),
                walked == encounter(d.rows.subrange(0, i as int)),
                names_model(names@) == first_seen(walked),
            decreases d.rows.len() - i,
        {
            let ghost pre = d.rows.subrange(0, i + 1);
            assert(pre.drop_last() =~= d.rows.subrange(0, i as int));
            assert(d.rows[i as int] == self.table@[i as int]@);
            let row = &self.table[i];
            let ghost w_before = walked;
            see(&mut names, &row.label);
            proof {
                walked = walked.push(row.label@);
                assert(walked.drop_last() == w_before);
                assert(walked =~= encounter(d.rows.subrange(0, i as int)) + seq![row@.label]
                    + row@.transitions.map_values(|t: (char, Seq<char>)| t.1).subrange(0, 0));
            }
            let mut j: usize = 0;
            while j < row.transitions.len()
                invariant
                    d == self@,
                    i < d.rows.len(),
                    row@ == d.rows[i as int],
                    j <= row.transitions@.len(),
                    walked == encounter(d.rows.subrange(0, i as int)) + seq![row@.label]
                        + row@.transitions.map_values(|t: (char, Seq<char>)| t.1).subrange(0, j as int),
                    names_model(names@) == first_seen(walked),
                decreases row.transitions@.len() - j,
            {
                let ghost w0 = walked;
                see(&mut names, &row.transitions[j].1);
                proof {
                    walked = walked.push(row.transitions@[j as int].1@);
                    assert(walked.drop_last() == w0);
                    assert(walked.last() == row.transitions@[j as int].1@);
                    assert(row@.transitions[j as int].1 == row.transitions@[j as int].1@);
                    assert(walked =~= encounter(d.rows.subrange(0, i as int)) + seq![row@.label]
                        + row@.transitions.map_values(|t: (char, Seq<char>)| t.1).subrange(0, j + 1));
                }
                j += 1;
            }
            proof {
                assert(row@.transitions.map_values(|t: (char, Seq<char>)| t.1).subrange(0, j as int)
                    =~= row@.transitions.map_values(|t: (char, Seq<char>)| t.1));
                assert(pre.last() == row@);
            }
            i += 1;
        }
        assert(d.rows.subrange(0, i as int) =~= d.rows);
        let ghost nm = names_model(names@);
        let ghost all = encounter(d.rows);
        proof {
            lemma_first_seen(all);
        }
        let mut fresh: Vec<DFARow> = Vec::new();
        let mut i: usize = 0;
        while i < self.table.len()
            invariant
                d == self@,
                d.wf(),
                i <= d.rows.len(),
                nm == names_model(names@),
                nm == first_seen(encounter(d.rows)),
                nm.no_duplicates(),
                forall|x: Seq<char>| nm.contains(x) <==> encounter(d.rows).contains(x),
                dfa_rows_model(fresh@) == renamed_rows(nm, d.rows.subrange(0, i as int)),
            decreases d.rows.len() - i,
        {
            assert(d.rows[i as int] == self.table@[i as int]@);
            let row = &self.table[i];
            proof {
                lemma_encounter_contains(d.rows, i as int);
            }
            let label = rename(&names, &row.label);
            let mut trans: Vec<(char, String)> = Vec::new();
            let mut j: usize = 0;
            while j < row.transitions.len()
                invariant
                    i < d.rows.len(),
                    row@ == d.rows[i as int],
                    nm == names_model(names@),
                    nm.no_duplicates(),
                    forall|q: int|
                        0 <= q < row@.transitions.len() ==> nm.contains(
                            #[trigger] row@.transitions[q].1,
                        ),
                    j <= row.transitions@.len(),
                    transitions_model(trans@) == renamed_transitions(nm, row@.transitions).subrange(
                        0,
                        j as int,
                    ),
                decreases row.transitions@.len() - j,
            {
                assert(row@.transitions[j as int] == (row.transitions@[j as int].0, row.transitions@[j as int].1@));
                assert(nm.contains(row@.transitions[j as int].1));
                let target = rename(&names, &row.transitions[j].1);
                let ghost t0 = trans@;
                trans.push((row.transitions[j].0, target));
                assert(transitions_model(trans@) =~= transitions_model(t0).push(
                    (row.transitions@[j as int].0, target@),
                ));
                assert(renamed_transitions(nm, row@.transitions)[j as int] == (
                    row.transitions@[j as int].0,
                    target@,
                ));
                assert(transitions_model(trans@) =~= renamed_transitions(nm, row@.transitions).subrange(
                    0,
                    j + 1,
                ));
                j += 1;
            }
            let ghost f0 = fresh@;
            let nr = DFARow { label, accepting: row.accepting, transitions: trans };
            assert(nr@.transitions =~= renamed_transitions(nm, row@.transitions));
            assert(nr@ == renamed_row(nm, d.rows[i as int]));
            fresh.push(nr);
            assert(dfa_rows_model(fresh@) =~= dfa_rows_model(f0).push(renamed_row(nm, d.rows[i as int])));
            assert(dfa_rows_model(fresh@) =~= renamed_rows(nm, d.rows.subrange(0, i + 1)));
            i += 1;
        }
        assert(d.rows.subrange(0, i as int) =~= d.rows);
        let ghost f = dfa_rows_model(fresh@);
        proof {
            assert forall|a: int, b: int| 0 <= a < f.len() && 0 <= b < f.len() && a != b implies f[a].label != f[b].label by {
                lemma_encounter_contains(d.rows, a);
                lemma_encounter_contains(d.rows, b);
                let la = d.rows[a].label;
                let lb = d.rows[b].label;
                if a < b {
                    assert(lex_lt(la, lb));
                } else {
                    assert(lex_lt(lb, la));
                }
                crate::label::lemma_lex_irreflexive(la);
                assert(la != lb);
                let pa = position(nm, la);
                let pb = position(nm, lb);
                assert(nm[pa] == la);
                assert(nm[pb] == lb);
                if f[a].label == f[b].label {
                    crate::label::lemma_decimal_injective((pa + 1) as nat, (pb + 1) as nat);
                }
            }
        }
        let (sorted, perm) = sort_rows(fresh);
        let ghost e = dfa_rows_model(sorted@);
        proof {
            lemma_encounter_contains(d.rows, label_index(d.rows, d.start));
        }
        let start = rename(&names, &self.starting_state);
        self.starting_state = start;
        self.table = sorted;
        proof {
            assert(self@.rows == e);
            assert(permuted(e, renamed_rows(nm, d.rows), perm@));
            assert forall|a: int| 0 <= a < e.len() implies symbols_sorted(#[trigger] e[a].transitions) by {
                let pa = perm@[a];
                assert(e[a] == f[pa]);
                assert(symbols_sorted(d.rows[pa].transitions));
            }
            assert forall|a: int, b: int|
                0 <= a < e.len() && 0 <= b < e[a].transitions.len() implies has_label(
                e,
                #[trigger] e[a].transitions[b].1,
            ) by {
                let pa = perm@[a];
                assert(e[a] == f[pa]);
                assert(f[pa] == renamed_row(nm, d.rows[pa]));
                let t = d.rows[pa].transitions[b].1;
                assert(e[a].transitions[b].1 == renamed(nm, t));
                assert(has_label(d.rows, t));
                let k = choose|k: int| 0 <= k < d.rows.len() && #[trigger] d.rows[k].label == t;
                assert(covered(perm@, k));
                let a2 = choose|a2: int| 0 <= a2 < perm@.len() && perm@[a2] == k;
                assert(e[a2] == f[k]);
                assert(f[k] == renamed_row(nm, d.rows[k]));
                assert(e[a2].label == e[a].transitions[b].1);
            }
            assert(has_label(e, self@.start)) by {
                let k = label_index(d.rows, d.start);
                assert(has_label(d.rows, d.start));
                assert(d.rows[k].label == d.start);
                assert(f[k] == renamed_row(nm, d.rows[k]));
                assert(covered(perm@, k));
                let a2 = choose|a2: int| 0 <= a2 < perm@.len() && perm@[a2] == k;
                assert(e[a2] == f[k]);
                assert(e[a2].label == self@.start);
            }
        }
    }
}

} // verus!

verus! {

// ---------------------------------------------------------------------------
// Rewriting a table by a partition of its labels.

pub open spec fn groups_model(gs: Seq<Vec<String>>) -> Seq<Seq<Seq<char>>> {
    gs.map_values(|g: Vec<String>| names_model(g@))
}

/// The new label of `l`: the members of the last group that holds it, in
/// increasing order, joined by commas.
pub open spec fn group_label(gs: Seq<Seq<Seq<char>>>, l: Seq<char>) -> Seq<char>
    decreases gs.len(),
{
    if gs.len() == 0 {
        l
    } else if gs.last().contains(l) {
        crate::label::join_labels(sorted_members(gs.last()))
    } else {
        group_label(gs.drop_last(), l)
    }
}

/// The members of a group in strictly increasing order of label.
pub open spec fn labels_increasing(g: Seq<Seq<char>>) -> bool {
    forall|a: int, b: int| 0 <= a < b < g.len() ==> lex_lt(g[a], g[b])
}

/// Every group lists its members in strictly increasing order, so that its
/// joined label is the sorted join.
pub open spec fn groups_sorted(gs: Seq<Seq<Seq<char>>>) -> bool {
    forall|i: int| 0 <= i < gs.len() ==> labels_increasing(#[trigger] gs[i])
}

pub open spec fn in_some_group(gs: Seq<Seq<Seq<char>>>, l: Seq<char>) -> bool {
    exists|i: int| 0 <= i < gs.len() && #[trigger] gs[i].contains(l)
}

/// Every label of the table (the start, each row's label and each target)
/// is a member of some group.
pub open spec fn groups_cover(gs: Seq<Seq<Seq<char>>>, d: DfaModel) -> bool {
    &&& in_some_group(gs, d.start)
    &&& forall|i: int| 0 <= i < d.rows.len() ==> in_some_group(gs, #[trigger] d.rows[i].label)
    &&& forall|i: int, j: int|
        0 <= i < d.rows.len() && 0 <= j < d.rows[i].transitions.len() ==> in_some_group(
            gs,
            #[trigger] d.rows[i].transitions[j].1,
        )
}

pub open spec fn regrouped_transitions(gs: Seq<Seq<Seq<char>>>, ts: Seq<(char, Seq<char>)>) -> Seq<
    (char, Seq<char>),
> {
    ts.map_values(|t: (char, Seq<char>)| (t.0, group_label(gs, t.1)))
}

/// Adds the row of `r`, relabelled, to `acc`: a row of the same new label
/// takes its transitions and accepts if either accepts.
pub open spec fn upsert(acc: Seq<DfaRowModel>, gs: Seq<Seq<Seq<char>>>, r: DfaRowModel) -> Seq<
    DfaRowModel,
> {
    let l = group_label(gs, r.label);
    let nr = DfaRowModel {
        label: l,
        accepting: r.accepting,
        transitions: regrouped_transitions(gs, r.transitions),
    };
    if has_label(acc, l) {
        let p = label_index(acc, l);
        acc.update(p, DfaRowModel { accepting: acc[p].accepting || r.accepting, ..nr })
    } else {
        acc.push(nr)
    }
}

/// The rows merged by group, in order of first appearance.
pub open spec fn merge_rows(gs: Seq<Seq<Seq<char>>>, rows: Seq<DfaRowModel>) -> Seq<DfaRowModel>
    decreases rows.len(),
{
    if rows.len() == 0 {
        Seq::empty()
    } else {
        upsert(merge_rows(gs, rows.drop_last()), gs, rows.last())
    }
}

/// The members of `g` in strictly increasing order, each once.
pub open spec fn sorted_members(g: Seq<Seq<char>>) -> Seq<Seq<char>> {
    choose|r: Seq<Seq<char>>| labels_increasing(r) && forall|x: Seq<char>| r.contains(x) <==> g.contains(x)
}

/// Two strictly increasing sequences with the same members are equal.
pub proof fn lemma_increasing_unique(a: Seq<Seq<char>>, b: Seq<Seq<char>>)
    requires
        labels_increasing(a),
        labels_increasing(b),
        forall|x: Seq<char>| a.contains(x) <==> b.contains(x),
    ensures
        a == b,
    decreases a.len(),
{
    if a.len() == 0 {
        if b.len() > 0 {
            assert(b.contains(b[0]));
        }
        assert(a =~= b);
    } else {
        assert(a.contains(a[0]));
        assert(b.contains(a[0]));
        assert(b.len() > 0);
        assert(b.contains(b[0]));
        let i = choose|i: int| 0 <= i < a.len() && a[i] == b[0];
        let j = choose|j: int| 0 <= j < b.len() && b[j] == a[0];
        if i > 0 {
            assert(lex_lt(a[0], b[0]));
            if j > 0 {
                assert(lex_lt(b[0], a[0]));
                crate::label::lemma_lex_transitive(a[0], b[0], a[0]);
                crate::label::lemma_lex_irreflexive(a[0]);
            } else {
                crate::label::lemma_lex_irreflexive(a[0]);
            }
        } else if j > 0 {
            assert(lex_lt(b[0], b[j]));
            crate::label::lemma_lex_irreflexive(b[0]);
        }
        assert(a[0] == b[0]);
        let a1 = a.drop_first();
        let b1 = b.drop_first();
        assert forall|x: Seq<char>| a1.contains(x) <==> b1.contains(x) by {
            if a1.contains(x) {
                let p = choose|p: int| 0 <= p < a1.len() && a1[p] == x;
                assert(a[p + 1] == x);
                assert(lex_lt(a[0], x));
                crate::label::lemma_lex_irreflexive(x);
                assert(a.contains(x));
                assert(b.contains(x));
                let q = choose|q: int| 0 <= q < b.len() && b[q] == x;
                assert(q != 0);
                assert(b1[q - 1] == x);
            }
            if b1.contains(x) {
                let p = choose|p: int| 0 <= p < b1.len() && b1[p] == x;
                assert(b[p + 1] == x);
                assert(lex_lt(b[0], x));
                crate::label::lemma_lex_irreflexive(x);
                assert(b.contains(x));
                assert(a.contains(x));
                let q = choose|q: int| 0 <= q < a.len() && a[q] == x;
                assert(q != 0);
                assert(a1[q - 1] == x);
            }
        }
        assert(labels_increasing(a1)) by {
            assert forall|p: int, q: int| 0 <= p < q < a1.len() implies lex_lt(a1[p], a1[q]) by {
                assert(a1[p] == a[p + 1] && a1[q] == a[q + 1]);
            }
        }
        assert(labels_increasing(b1)) by {
            assert forall|p: int, q: int| 0 <= p < q < b1.len() implies lex_lt(b1[p], b1[q]) by {
                assert(b1[p] == b[p + 1] && b1[q] == b[q + 1]);
            }
        }
        lemma_increasing_unique(a1, b1);
        assert(a =~= seq![a[0]] + a1);
        assert(b =~= seq![b[0]] + b1);
    }
}

/// The members of `g` in strictly increasing order, each once.
fn sort_labels(g: &Vec<String>) -> (r: Vec<String>)
    ensures
        names_model(r@) == sorted_members(names_model(g@)),
{
    let ghost gm = names_model(g@);
    let mut r: Vec<String> = Vec::new();
    let mut i: usize = 0;
    assert(names_model(r@) =~= Seq::<Seq<char>>::empty());
    while i < g.len()
        invariant
            i <= g@.len(),
            gm == names_model(g@),
            labels_increasing(names_model(r@)),
            forall|y: Seq<char>| names_model(r@).contains(y) <==> gm.subrange(0, i as int).contains(y),
        decreases g@.len() - i,
    {
        let ghost rm = names_model(r@);
        let ghost x = g@[i as int]@;
        assert(gm[i as int] == x);
        let mut p: usize = 0;
        while p < r.len() && label_lt(&r[p], &g[i])
            invariant
                p <= r@.len(),
                rm == names_model(r@),
                x == g@[i as int]@,
                i < g@.len(),
                forall|q: int| 0 <= q < p ==> lex_lt(#[trigger] rm[q], x),
            decreases r@.len() - p,
        {
            assert(rm[p as int] == r@[p as int]@);
            p += 1;
        }
        let same = p < r.len() && r[p] == g[i];
        proof {
            if p < rm.len() {
                assert(rm[p as int] == r@[p as int]@);
            }
        }
        let ghost pre = gm.subrange(0, i as int);
        let ghost pre1 = gm.subrange(0, i + 1);
        assert(pre1 =~= pre.push(x));
        if same {
            assert(rm[p as int] == x);
            assert forall|y: Seq<char>| names_model(r@).contains(y) <==> pre1.contains(y) by {
                if pre1.contains(y) && !pre.contains(y) {
                    let q = choose|q: int| 0 <= q < pre1.len() && pre1[q] == y;
                    if q < pre.len() {
                        assert(pre[q] == y);
                    }
                    assert(y == x);
                    assert(rm.contains(y));
                }
                if pre.contains(y) {
                    let q = choose|q: int| 0 <= q < pre.len() && pre[q] == y;
                    assert(pre1[q] == y);
                }
            }
        } else {
            proof {
                if p < rm.len() {
                    assert(!lex_lt(rm[p as int], x));
                    assert(rm[p as int] != x);
                    crate::label::lemma_lex_total(rm[p as int], x);
                }
            }
            let c = g[i].clone();
            r.insert(p, c);
            let ghost r2 = names_model(r@);
            assert(r2 =~= rm.insert(p as int, x));
            assert forall|a: int, b: int| 0 <= a < b < r2.len() implies lex_lt(r2[a], r2[b]) by {
                if b < p {
                } else if b == p {
                } else if a < p {
                    assert(r2[b] == rm[b - 1]);
                    if b - 1 > p {
                        crate::label::lemma_lex_transitive(x, rm[p as int], rm[b - 1]);
                    }
                    crate::label::lemma_lex_transitive(rm[a], x, rm[b - 1]);
                } else if a == p {
                    assert(r2[b] == rm[b - 1]);
                    if b - 1 > p {
                        crate::label::lemma_lex_transitive(x, rm[p as int], rm[b - 1]);
                    }
                } else {
                    assert(r2[a] == rm[a - 1]);
                    assert(r2[b] == rm[b - 1]);
                }
            }
            assert forall|y: Seq<char>| r2.contains(y) <==> pre1.contains(y) by {
                if r2.contains(y) {
                    let q = choose|q: int| 0 <= q < r2.len() && r2[q] == y;
                    if q == p {
                        assert(pre1[i as int] == y);
                    } else {
                        let q2 = if q < p { q } else { q - 1 };
                        assert(rm[q2] == y);
                        assert(rm.contains(y));
                        let q3 = choose|q3: int| 0 <= q3 < pre.len() && pre[q3] == y;
                        assert(pre1[q3] == y);
                    }
                }
                if pre1.contains(y) {
                    let q = choose|q: int| 0 <= q < pre1.len() && pre1[q] == y;
                    if q == i {
                        assert(r2[p as int] == y);
                    } else {
                        assert(pre[q] == y);
                        assert(rm.contains(y));
                        let q2 = choose|q2: int| 0 <= q2 < rm.len() && rm[q2] == y;
                        if q2 < p {
                            assert(r2[q2] == y);
                        } else {
                            assert(r2[q2 + 1] == y);
                        }
                    }
                }
            }
        }
        i += 1;
    }
    assert(gm.subrange(0, i as int) =~= gm);
    proof {
        let rm = names_model(r@);
        let s = sorted_members(gm);
        assert(labels_increasing(s) && forall|y: Seq<char>| s.contains(y) <==> gm.contains(y));
        lemma_increasing_unique(rm, s);
    }
    r
}

/// The new label of `l` under the groups.
fn group_label_of(gs: &Vec<Vec<String>>, l: &String) -> (r: String)
    ensures
        r@ == group_label(groups_model(gs@), l@),
{
    let ghost m = groups_model(gs@);
    let mut i: usize = gs.len();
    assert(m.subrange(0, i as int) =~= m);
    while i > 0
        invariant
            i <= gs@.len(),
            m == groups_model(gs@),
            group_label(m, l@) == group_label(m.subrange(0, i as int), l@),
        decreases i,
    {
        let ghost sub = m.subrange(0, i as int);
        assert(sub.drop_last() =~= m.subrange(0, i - 1));
        assert(sub.last() == names_model(gs@[i - 1]@));
        let g = &gs[i - 1];
        let mut j: usize = 0;
        while j < g.len()
            invariant
                0 < i <= gs@.len(),
                m == groups_model(gs@),
                g@ == gs@[i - 1]@,
                group_label(m, l@) == group_label(m.subrange(0, i as int), l@),
                sub == m.subrange(0, i as int),
                sub.last() == names_model(g@),
                j <= g@.len(),
                forall|q: int| 0 <= q < j ==> #[trigger] g@[q]@ != l@,
            decreases g@.len() - j,
        {
            if g[j] == *l {
                assert(names_model(g@)[j as int] == l@);
                assert(names_model(g@).contains(l@));
                let sorted = sort_labels(g);
                assert(names_model(sorted@) =~= sorted@.map_values(|l: String| l@));
                return crate::label::join_label_list(&sorted);
            }
            j += 1;
        }
        assert(!names_model(g@).contains(l@)) by {
            if names_model(g@).contains(l@) {
                let q = choose|q: int| 0 <= q < g@.len() && names_model(g@)[q] == l@;
                assert(names_model(g@)[q] == g@[q]@);
            }
        }
        i -= 1;
    }
    assert(m.subrange(0, 0) =~= Seq::<Seq<Seq<char>>>::empty());
    l.clone()
}

impl DFATable {
    /// Rewrites the table by a partition of its labels: each label becomes
    /// its group's members joined by commas in increasing order, and rows of
    /// one group merge into one row. Every label of the table must be in a
    /// group; a group may list its members in any order.
    pub fn apply_minimization(&mut self, groups: &Vec<Vec<String>>)
        requires
            old(self)@.wf(),
            groups_cover(groups_model(groups@), old(self)@),
        ensures
            final(self)@.start == group_label(groups_model(groups@), old(self)@.start),
            exists|perm: Seq<int>|
                #[trigger] permuted(
                    final(self)@.rows,
                    merge_rows(groups_model(groups@), old(self)@.rows),
                    perm,
                ),
            final(self)@.wf(),
            final(self)@.rows.len() <= old(self)@.rows.len(),
    {
        let ghost d = self@;
        let ghost gm = groups_model(groups@);
        let mut out: Vec<DFARow> = Vec::new();
        let mut i: usize = 0;
        while i < self.table.len()
            invariant
                d == self@,
                i <= d.rows.len(),
                gm == groups_model(groups@),
                dfa_rows_model(out@) == merge_rows(gm, d.rows.subrange(0, i as int)),
                labels_distinct(dfa_rows_model(out@)),
            decreases d.rows.len() - i,
        {
            let ghost pre = d.rows.subrange(0, i + 1);
            assert(pre.drop_last() =~= d.rows.subrange(0, i as int));
            assert(d.rows[i as int] == self.table@[i as int]@);
            let row = &self.table[i];
            let label = group_label_of(groups, &row.label);
            let mut trans: Vec<(char, String)> = Vec::new();
            let mut j: usize = 0;
            while j < row.transitions.len()
                invariant
                    gm == groups_model(groups@),
                    j <= row.transitions@.len(),
                    transitions_model(trans@) == regrouped_transitions(gm, row@.transitions).subrange(
                        0,
                        j as int,
                    ),
                decreases row.transitions@.len() - j,
            {
                assert(row@.transitions[j as int] == (row.transitions@[j as int].0, row.transitions@[j as int].1@));
                let target = group_label_of(groups, &row.transitions[j].1);
                let ghost t0 = trans@;
                trans.push((row.transitions[j].0, target));
                assert(transitions_model(trans@) =~= transitions_model(t0).push(
                    (row.transitions@[j as int].0, target@),
                ));
                assert(regrouped_transitions(gm, row@.transitions)[j as int] == (
                    row.transitions@[j as int].0,
                    target@,
                ));
                assert(transitions_model(trans@) =~= regrouped_transitions(gm, row@.transitions).subrange(
                    0,
                    j + 1,
                ));
                j += 1;
            }
            assert(regrouped_transitions(gm, row@.transitions).subrange(0, j as int)
                =~= regrouped_transitions(gm, row@.transitions));
            let ghost before = dfa_rows_model(out@);
            match find_label(&out, &label) {
                Some(p) => {
                    proof {
                        assert(before[p as int] == out@[p as int]@);
                        assert(before[p as int].label == label@);
                        assert(has_label(before, label@));
                        let q = label_index(before, label@);
                        assert(before[q].label == label@);
                        assert(q == p);
                    }
                    let acc = out[p].accepting || row.accepting;
                    out.set(p, DFARow { label, accepting: acc, transitions: trans });
                    proof {
                        assert(dfa_rows_model(out@) =~= upsert(before, gm, d.rows[i as int]));
                        assert forall|a: int, b: int|
                            0 <= a < out@.len() && 0 <= b < out@.len() && a != b implies dfa_rows_model(out@)[a].label
                            != dfa_rows_model(out@)[b].label by {
                            assert(dfa_rows_model(out@)[a].label == before[a].label);
                            assert(dfa_rows_model(out@)[b].label == before[b].label);
                        }
                    }
                },
                None => {
                    out.push(DFARow { label, accepting: row.accepting, transitions: trans });
                    proof {
                        assert(dfa_rows_model(out@) =~= upsert(before, gm, d.rows[i as int]));
                        assert forall|a: int, b: int|
                            0 <= a < out@.len() && 0 <= b < out@.len() && a != b implies dfa_rows_model(out@)[a].label
                            != dfa_rows_model(out@)[b].label by {
                            if a < before.len() && b < before.len() {
                                assert(dfa_rows_model(out@)[a] == before[a]);
                                assert(dfa_rows_model(out@)[b] == before[b]);
                            } else if a < before.len() {
                                assert(dfa_rows_model(out@)[a] == before[a]);
                            } else {
                                assert(dfa_rows_model(out@)[b] == before[b]);
                            }
                        }
                    }
                },
            }
            i += 1;
        }
        assert(d.rows.subrange(0, i as int) =~= d.rows);
        let (sorted, perm) = sort_rows(out);
        let start = group_label_of(groups, &self.starting_state);
        self.starting_state = start;
        self.table = sorted;
        proof {
            let mr = merge_rows(gm, d.rows);
            let e = self@.rows;
            let pm = perm@;
            assert(permuted(e, mr, pm));
            lemma_merge_rows(gm, d.rows);
            assert forall|a: int| 0 <= a < e.len() implies symbols_sorted(#[trigger] e[a].transitions) by {
                assert(e[a] == mr[pm[a]]);
                assert(merged_from(gm, d.rows, mr[pm[a]]));
                let k = choose|k: int|
                    0 <= k < d.rows.len() && mr[pm[a]].label == group_label(gm, #[trigger] d.rows[k].label)
                        && mr[pm[a]].transitions == regrouped_transitions(gm, d.rows[k].transitions);
                assert(symbols_sorted(d.rows[k].transitions));
            }
            assert forall|a: int, b: int|
                0 <= a < e.len() && 0 <= b < e[a].transitions.len() implies has_label(
                e,
                #[trigger] e[a].transitions[b].1,
            ) by {
                assert(e[a] == mr[pm[a]]);
                assert(merged_from(gm, d.rows, mr[pm[a]]));
                let k = choose|k: int|
                    0 <= k < d.rows.len() && mr[pm[a]].label == group_label(gm, #[trigger] d.rows[k].label)
                        && mr[pm[a]].transitions == regrouped_transitions(gm, d.rows[k].transitions);
                let t = d.rows[k].transitions[b].1;
                assert(e[a].transitions[b].1 == group_label(gm, t));
                assert(has_label(d.rows, t));
                let k2 = choose|k2: int| 0 <= k2 < d.rows.len() && #[trigger] d.rows[k2].label == t;
                assert(has_label(mr, group_label(gm, d.rows[k2].label)));
                let q = choose|q: int| 0 <= q < mr.len() && #[trigger] mr[q].label == group_label(gm, t);
                assert(covered(pm, q));
                let a2 = choose|a2: int| 0 <= a2 < pm.len() && pm[a2] == q;
                assert(e[a2].label == group_label(gm, t));
            }
            assert(has_label(e, self@.start)) by {
                let k2 = label_index(d.rows, d.start);
                assert(has_label(d.rows, d.start));
                assert(has_label(mr, group_label(gm, d.rows[k2].label)));
                let q = choose|q: int| 0 <= q < mr.len() && #[trigger] mr[q].label == group_label(gm, d.start);
                assert(covered(pm, q));
                let a2 = choose|a2: int| 0 <= a2 < pm.len() && pm[a2] == q;
                assert(e[a2].label == self@.start);
            }
        }
    }
}

} // verus!

verus! {

pub open spec fn merged_from(gs: Seq<Seq<Seq<char>>>, rows: Seq<DfaRowModel>, m: DfaRowModel) -> bool {
    exists|k: int|
        0 <= k < rows.len() && m.label == group_label(gs, #[trigger] rows[k].label) && m.transitions
            == regrouped_transitions(gs, rows[k].transitions)
}

pub proof fn lemma_merge_rows(gs: Seq<Seq<Seq<char>>>, rows: Seq<DfaRowModel>)
    ensures
        merge_rows(gs, rows).len() <= rows.len(),
        forall|k: int|
            0 <= k < rows.len() ==> has_label(
                merge_rows(gs, rows),
                group_label(gs, #[trigger] rows[k].label),
            ),
        forall|p: int|
            0 <= p < merge_rows(gs, rows).len() ==> merged_from(
                gs,
                rows,
                #[trigger] merge_rows(gs, rows)[p],
            ),
    decreases rows.len(),
{
    if rows.len() > 0 {
        let r0 = rows.drop_last();
        let last = rows.last();
        lemma_merge_rows(gs, r0);
        let acc = merge_rows(gs, r0);
        let res = merge_rows(gs, rows);
        let l = group_label(gs, last.label);
        assert(res == upsert(acc, gs, last));
        assert forall|k: int| 0 <= k < rows.len() implies has_label(
            res,
            group_label(gs, #[trigger] rows[k].label),
        ) by {
            if k < rows.len() - 1 {
                assert(r0[k] == rows[k]);
                assert(has_label(acc, group_label(gs, r0[k].label)));
                let q = choose|q: int| 0 <= q < acc.len() && #[trigger] acc[q].label == group_label(gs, r0[k].label);
                assert(res[q].label == acc[q].label);
            } else {
                if has_label(acc, l) {
                    let p = label_index(acc, l);
                    assert(res[p].label == l);
                } else {
                    assert(res[acc.len() as int].label == l);
                }
            }
        }
        assert forall|p: int| 0 <= p < res.len() implies merged_from(gs, rows, #[trigger] res[p]) by {
            if has_label(acc, l) && p == label_index(acc, l) {
                assert(rows[rows.len() - 1] == last);
                assert(res[p].label == l);
            } else if p < acc.len() {
                assert(res[p] == acc[p]);
                assert(merged_from(gs, r0, acc[p]));
                let k = choose|k: int|
                    0 <= k < r0.len() && acc[p].label == group_label(gs, #[trigger] r0[k].label)
                        && acc[p].transitions == regrouped_transitions(gs, r0[k].transitions);
                assert(rows[k] == r0[k]);
            } else {
                assert(rows[rows.len() - 1] == last);
            }
        }
    }
}

} // verus!

verus! {

/// The indices of the accepting rows.
pub open spec fn accepting_indices(rows: Seq<DfaRowModel>) -> Set<int> {
    Set::new(|i: int| 0 <= i < rows.len() && rows[i].accepting)
}

pub proof fn lemma_accepting_count(rows: Seq<DfaRowModel>)
    ensures
        accepting_indices(rows).finite(),
        accepting_indices(rows).len() == crate::dfa::labels_where(rows, true).len(),
    decreases rows.len(),
{
    if rows.len() == 0 {
        assert(accepting_indices(rows) =~= Set::<int>::empty());
    } else {
        let r0 = rows.drop_last();
        lemma_accepting_count(r0);
        let n = rows.len() - 1;
        if rows.last().accepting {
            assert(accepting_indices(rows) =~= accepting_indices(r0).insert(n));
            assert(!accepting_indices(r0).contains(n));
        } else {
            assert(accepting_indices(rows) =~= accepting_indices(r0));
        }
    }
}

/// Reordering rows keeps the number of accepting rows.
pub proof fn lemma_permuted_accepting_count(e: Seq<DfaRowModel>, v: Seq<DfaRowModel>, perm: Seq<int>)
    requires
        permuted(e, v, perm),
    ensures
        crate::dfa::labels_where(e, true).len() == crate::dfa::labels_where(v, true).len(),
{
    lemma_accepting_count(e);
    lemma_accepting_count(v);
    let f = |i: int| perm[i];
    let x = accepting_indices(e);
    let y = accepting_indices(v);
    assert(vstd::relations::injective_on(f, x)) by {
        assert forall|a: int, b: int| x.contains(a) && x.contains(b) && #[trigger] f(a) == #[trigger] f(b) implies a == b by {}
    }
    assert(x.map(f) =~= y) by {
        assert forall|j: int| y.contains(j) implies x.map(f).contains(j) by {
            assert(covered(perm, j));
            let i = choose|i: int| 0 <= i < perm.len() && perm[i] == j;
            assert(e[i] == v[perm[i]]);
            assert(x.contains(i));
            assert(f(i) == j);
        }
        assert forall|j: int| x.map(f).contains(j) implies y.contains(j) by {
            let i = choose|i: int| x.contains(i) && f(i) == j;
            assert(e[i] == v[perm[i]]);
        }
    }
    vstd::set_lib::lemma_map_size(x, y, f);
}

} // verus!
