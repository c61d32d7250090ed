use vstd::prelude::*;

use crate::ast::{byte_len, parsed, Error, AST};
use crate::dfa::DFA;
use crate::nfa::{char_model, concat_all, empty_model, models, or_all, total_states, NfaModel, NFA};
use crate::nfa_table::NFATable;
use crate::parser::Parser;

verus! {

/// Every concatenation and alternation of the tree has two operands or more.
pub open spec fn ast_wf(ast: AST) -> bool
    decreases ast,
{
    match ast {
        AST::Empty(_) => true,
        AST::Literal(_) => true,
        AST::Concat(c) => c.asts@.len() >= 2 && list_wf(c.asts@),
        AST::Alternation(a) => a.asts@.len() >= 2 && list_wf(a.asts@),
    }
}

pub open spec fn list_wf(asts: Seq<AST>) -> bool
    decreases asts,
{
    if asts.len() == 0 {
        true
    } else {
        list_wf(asts.subrange(0, asts.len() - 1)) && ast_wf(asts[asts.len() - 1])
    }
}

/// The fragment that a tree translates to.
pub open spec fn nfa_of(ast: AST) -> NfaModel
    decreases ast,
{
    match ast {
        AST::Empty(_) => empty_model(),
        AST::Literal(l) => char_model(l.c),
        AST::Concat(c) => concat_all(nfa_list(c.asts@)),
        AST::Alternation(a) => or_all(nfa_list(a.asts@)),
    }
}

pub open spec fn nfa_list(asts: Seq<AST>) -> Seq<NfaModel>
    decreases asts,
{
    if asts.len() == 0 {
        Seq::empty()
    } else {
        nfa_list(asts.subrange(0, asts.len() - 1)).push(nfa_of(asts[asts.len() - 1]))
    }
}

/// The number of states of the fragment of a tree.
pub open spec fn ast_size(ast: AST) -> int
    decreases ast,
{
    match ast {
        AST::Empty(_) => 2,
        AST::Literal(_) => 2,
        AST::Concat(c) => size_list(c.asts@),
        AST::Alternation(a) => if a.asts@.len() == 0 {
            0
        } else {
            size_list(a.asts@) + 2 * (a.asts@.len() - 1)
        },
    }
}

pub open spec fn size_list(asts: Seq<AST>) -> int
    decreases asts,
{
    if asts.len() == 0 {
        0
    } else {
        size_list(asts.subrange(0, asts.len() - 1)) + ast_size(asts[asts.len() - 1])
    }
}

pub proof fn lemma_size_positive(ast: AST)
    ensures
        ast_size(ast) >= 0,
    decreases ast,
{
    match ast {
        AST::Concat(c) => {
            assert(decreases_to!(ast => c.asts@));
            lemma_size_list_positive(c.asts@);
            assert(ast_size(ast) == size_list(c.asts@));
        },
        AST::Alternation(a) => {
            assert(decreases_to!(ast => a.asts@));
            lemma_size_list_positive(a.asts@);
        },
        _ => {},
    }
}

pub proof fn lemma_size_list_positive(asts: Seq<AST>)
    ensures
        size_list(asts) >= 0,
        forall|i: int| 0 <= i < asts.len() ==> ast_size(#[trigger] asts[i]) <= size_list(asts),
    decreases asts,
{
    if asts.len() > 0 {
        let pre = asts.subrange(0, asts.len() - 1);
        lemma_size_list_positive(pre);
        lemma_size_positive(asts[asts.len() - 1]);
        assert forall|i: int| 0 <= i < asts.len() implies ast_size(#[trigger] asts[i]) <= size_list(asts) by {
            if i < asts.len() - 1 {
                assert(pre[i] == asts[i]);
            }
        }
    }
}

/// The fragments of the operands, in order.
fn operands_to_nfa(asts: &Vec<AST>) -> (r: Vec<NFA>)
    requires
        list_wf(asts@),
        size_list(asts@) <= usize::MAX,
    ensures
        r@.len() == asts@.len(),
        forall|i: int| 0 <= i < r@.len() ==> (#[trigger] r@[i]).wf(),
        models(r@) == nfa_list(asts@),
        total_states(models(r@)) == size_list(asts@),
    decreases asts@, 0int,
{
    let mut out: Vec<NFA> = Vec::new();
    let mut i: usize = 0;
    proof {
        lemma_size_list_positive(asts@);
    }
    while i < asts.len()
        invariant
            i <= asts@.len(),
            list_wf(asts@),
            size_list(asts@) <= usize::MAX,
            forall|q: int| 0 <= q < asts@.len() ==> ast_size(#[trigger] asts@[q]) <= size_list(asts@),
            out@.len() == i,
            forall|q: int| 0 <= q < i ==> (#[trigger] out@[q]).wf(),
            models(out@) == nfa_list(asts@.subrange(0, i as int)),
            total_states(models(out@)) == size_list(asts@.subrange(0, i as int)),
        decreases asts@.len() - i,
    {
        proof {
            lemma_list_wf_index(asts@, i as int);
        }
        assert(decreases_to!(asts@ => asts@[i as int]));
        let a = ast_to_nfa(&asts[i]);
        let ghost o0 = out@;
        out.push(a);
        proof {
            let pre = asts@.subrange(0, i + 1);
            assert(pre.subrange(0, pre.len() - 1) =~= asts@.subrange(0, i as int));
            assert(pre[pre.len() - 1] == asts@[i as int]);
            assert(models(out@) =~= models(o0).push(a@));
            assert(models(out@).drop_last() =~= models(o0));
        }
        i += 1;
    }
    assert(asts@.subrange(0, i as int) =~= asts@);
    out
}

pub proof fn lemma_list_wf_index(asts: Seq<AST>, i: int)
    requires
        list_wf(asts),
        0 <= i < asts.len(),
    ensures
        ast_wf(asts[i]),
    decreases asts.len(),
{
    let pre = asts.subrange(0, asts.len() - 1);
    if i < asts.len() - 1 {
        lemma_list_wf_index(pre, i);
        assert(pre[i] == asts[i]);
    }
}

/// Translates a tree to a fragment: a literal to the fragment of its
/// character, a concatenation or an alternation to the fold of its operands.
pub fn ast_to_nfa(ast: &AST) -> (r: NFA)
    requires
        ast_wf(*ast),
        ast_size(*ast) <= usize::MAX,
    ensures
        r.wf(),
        r@ == nfa_of(*ast),
        r.states@.len() == ast_size(*ast),
    decreases *ast, 1int,
{
    match ast {
        AST::Empty(_) => NFA::empty(),
        AST::Literal(l) => NFA::char(l.c),
        AST::Concat(c) => {
            assert(decreases_to!(*ast => c.asts@));
            let nfas = operands_to_nfa(&c.asts);
            NFA::concat(nfas)
        },
        AST::Alternation(a) => {
            assert(decreases_to!(*ast => a.asts@));
            let nfas = operands_to_nfa(&a.asts);
            NFA::or(nfas)
        },
    }
}

/// The number of states of the fragment of a tree, if `usize` can count it.
pub fn tree_size(ast: &AST) -> (r: Option<usize>)
    ensures
        match r {
            Some(n) => n == ast_size(*ast),
            None => ast_size(*ast) > usize::MAX,
        },
    decreases *ast, 1int,
{
    match ast {
        AST::Empty(_) => {
            assert(ast_size(*ast) == 2);
            Some(2)
        },
        AST::Literal(_) => {
            assert(ast_size(*ast) == 2);
            Some(2)
        },
        AST::Concat(c) => {
            assert(decreases_to!(*ast => c.asts@));
            list_size(&c.asts)
        },
        AST::Alternation(a) => {
            assert(decreases_to!(*ast => a.asts@));
            match list_size(&a.asts) {
                Some(n) => {
                    let k = a.asts.len();
                    if k == 0 {
                        Some(0)
                    } else if k - 1 > usize::MAX / 2 {
                        None
                    } else if n > usize::MAX - 2 * (k - 1) {
                        None
                    } else {
                        Some(n + 2 * (k - 1))
                    }
                },
                None => None,
            }
        },
    }
}

fn list_size(asts: &Vec<AST>) -> (r: Option<usize>)
    ensures
        match r {
            Some(n) => n == size_list(asts@),
            None => size_list(asts@) > usize::MAX,
        },
    decreases asts@, 0int,
{
    let mut total: usize = 0;
    let mut i: usize = 0;
    proof {
        lemma_size_list_positive(asts@);
    }
    while i < asts.len()
        invariant
            i <= asts@.len(),
            total == size_list(asts@.subrange(0, i as int)),
            size_list(asts@.subrange(0, i as int)) <= size_list(asts@),
        decreases asts@.len() - i,
    {
        let ghost pre = asts@.subrange(0, i + 1);
        assert(pre.subrange(0, pre.len() - 1) =~= asts@.subrange(0, i as int));
        assert(pre[pre.len() - 1] == asts@[i as int]);
        assert(decreases_to!(asts@ => asts@[i as int]));
        let s = tree_size(&asts[i]);
        proof {
            lemma_size_positive(asts@[i as int]);
            lemma_size_list_prefix(asts@, i + 1);
        }
        match s {
            Some(n) => {
                if n > usize::MAX - total {
                    return None;
                }
                total = total + n;
            },
            None => {
                return None;
            },
        }
        i += 1;
    }
    assert(asts@.subrange(0, i as int) =~= asts@);
    Some(total)
}

pub proof fn lemma_size_list_prefix(asts: Seq<AST>, i: int)
    requires
        0 <= i <= asts.len(),
    ensures
        size_list(asts.subrange(0, i)) <= size_list(asts),
    decreases asts.len(),
{
    if i < asts.len() {
        let pre = asts.subrange(0, asts.len() - 1);
        lemma_size_list_prefix(pre, i);
        assert(pre.subrange(0, i) =~= asts.subrange(0, i));
        lemma_size_positive(asts[asts.len() - 1]);
    } else {
        assert(asts.subrange(0, i) =~= asts);
    }
}

pub proof fn lemma_literals_wf(asts: Seq<AST>)
    requires
        forall|i: int| 0 <= i < asts.len() ==> (#[trigger] asts[i]) is Literal,
    ensures
        list_wf(asts),
    decreases asts.len(),
{
    if asts.len() > 0 {
        let pre = asts.subrange(0, asts.len() - 1);
        assert forall|i: int| 0 <= i < pre.len() implies (#[trigger] pre[i]) is Literal by {
            assert(pre[i] == asts[i]);
        }
        lemma_literals_wf(pre);
        assert(asts[asts.len() - 1] is Literal);
        assert(ast_wf(asts[asts.len() - 1]));
    }
}

pub proof fn lemma_branch_wf(ast: AST, seg: Seq<char>, start: int)
    requires
        crate::ast::branch_at(ast, seg, start),
    ensures
        ast_wf(ast),
{
    if seg.len() >= 2 {
        match ast {
            AST::Concat(c) => {
                assert forall|i: int| 0 <= i < c.asts@.len() implies (#[trigger] c.asts@[i]) is Literal by {
                    assert(crate::ast::literal_at(c.asts@[i], seg[i], start + byte_len(seg.subrange(0, i))));
                }
                lemma_literals_wf(c.asts@);
            },
            _ => {},
        }
    }
}

pub proof fn lemma_branches_wf(asts: Seq<AST>)
    requires
        forall|i: int| 0 <= i < asts.len() ==> ast_wf(#[trigger] asts[i]),
    ensures
        list_wf(asts),
    decreases asts.len(),
{
    if asts.len() > 0 {
        let pre = asts.subrange(0, asts.len() - 1);
        assert forall|i: int| 0 <= i < pre.len() implies ast_wf(#[trigger] pre[i]) by {
            assert(pre[i] == asts[i]);
        }
        lemma_branches_wf(pre);
        assert(ast_wf(asts[asts.len() - 1]));
    }
}

/// A parsed pattern is a well-formed tree.
pub proof fn lemma_parsed_wf(ast: AST, s: Seq<char>)
    requires
        parsed(ast, s),
    ensures
        ast_wf(ast),
{
    let b = crate::ast::bars(s);
    if b.len() == 0 {
        lemma_branch_wf(ast, s, 0);
    } else {
        match ast {
            AST::Alternation(alt) => {
                assert forall|k: int| 0 <= k < alt.asts@.len() implies ast_wf(#[trigger] alt.asts@[k]) by {
                    lemma_branch_wf(
                        alt.asts@[k],
                        s.subrange(crate::ast::branch_start(b, k), crate::ast::branch_end(s, b, k)),
                        byte_len(s.subrange(0, crate::ast::branch_start(b, k))) as int,
                    );
                }
                lemma_branches_wf(alt.asts@);
            },
            _ => {},
        }
    }
}

/// Translates a fragment to a DFA.
pub fn nfa_to_dfa(nfa: &NFA) -> (r: DFA)
    requires
        nfa.wf(),
    ensures
        r.table@.wf(),
        exists|t: NFATable| t.extracted_from(nfa@) && t.wf() && r.table.built_from(&t),
        forall|t: NFATable| #[trigger] t.extracted_from(nfa@) ==> r.table.built_from(&t),
{
    DFA::from(nfa)
}

/// A compiled pattern.
pub struct Regex {
    pub dfa: DFA,
}

impl Regex {
    /// Compiles a pattern: parse, translate to a fragment, then to a DFA.
    /// Fails only on a pattern whose automaton would have more states than
    /// `usize` can count.
    pub fn new(input: &str) -> (r: Result<Regex, Error>)
        requires
            byte_len(input@) <= usize::MAX,
        ensures
            match r {
                Ok(re) => re.dfa.table@.wf() && exists|ast: AST, t: NFATable|
                    parsed(ast, input@) && t.extracted_from(nfa_of(ast)) && t.wf()
                        && re.dfa.table.built_from(&t),
                Err(_) => exists|ast: AST| parsed(ast, input@) && ast_size(ast) > usize::MAX,
            },
    {
        let mut p = Parser::new();
        let ast = match p.parse(input) {
            Ok(ast) => ast,
            Err(e) => {
                return Err(e);
            },
        };
        proof {
            lemma_parsed_wf(ast, input@);
        }
        if tree_size(&ast).is_none() {
            return Err(Error::Syntax("pattern too large".to_string()));
        }
        let nfa = ast_to_nfa(&ast);
        let dfa = nfa_to_dfa(&nfa);
        let r = Regex { dfa };
        assert(parsed(ast, input@));
        Ok(r)
    }

    /// Whether the text matches the pattern.
    pub fn test(&self, text: &str) -> (r: bool)
        requires
            self.dfa.table@.wf(),
        ensures
            r == self.dfa.table@.accepts(text@),
    {
        self.dfa.test(text)
    }
}

} // verus!
