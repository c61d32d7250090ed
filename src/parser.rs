use vstd::prelude::*;

use crate::ast::{
    bars, branch_at, branch_end, branch_start, byte_len, literal_at, parsed, utf8_len, Alternation,
    Concat, Error, Literal, LiteralKind, Position, Span, AST,
};

verus! {

pub proof fn lemma_byte_len_split(s: Seq<char>, a: int, b: int, c: int)
    requires
        0 <= a <= b <= c <= s.len(),
    ensures
        byte_len(s.subrange(a, c)) == byte_len(s.subrange(a, b)) + byte_len(s.subrange(b, c)),
    decreases c - b,
{
    if c > b {
        lemma_byte_len_split(s, a, b, c - 1);
        assert(s.subrange(a, c).drop_last() =~= s.subrange(a, c - 1));
        assert(s.subrange(b, c).drop_last() =~= s.subrange(b, c - 1));
    } else {
        assert(s.subrange(b, c).len() == 0);
    }
}

/// The number of bytes of `c` in UTF-8.
fn char_len(c: char) -> (r: usize)
    ensures
        r == utf8_len(c),
{
    let v = c as u32;
    if v < 0x80 {
        1
    } else if v < 0x800 {
        2
    } else if v < 0x10000 {
        3
    } else {
        4
    }
}

/// The branch of the literals `lits`: nothing, the one literal, or their
/// concatenation.
fn finish_branch(lits: Vec<AST>, start: usize, end: usize, seg: Ghost<Seq<char>>) -> (r: AST)
    requires
        lits@.len() == seg@.len(),
        end == start + byte_len(seg@),
        forall|j: int|
            0 <= j < lits@.len() ==> literal_at(
                #[trigger] lits@[j],
                seg@[j],
                start + byte_len(seg@.subrange(0, j)),
            ),
    ensures
        branch_at(r, seg@, start as int),
{
    let mut lits = lits;
    if lits.len() == 0 {
        AST::Empty(Span::splat(Position::new(start)))
    } else if lits.len() == 1 {
        assert(seg@.subrange(0, 0).len() == 0);
        lits.remove(0)
    } else {
        AST::Concat(Concat { span: Span::new(Position::new(start), Position::new(end)), asts: lits })
    }
}

/// A parser of patterns: characters, concatenation, and alternation by `|`.
pub struct Parser {}

impl Parser {
    pub fn new() -> Parser {
        Parser {  }
    }

    /// Parses `pattern`: the runs of characters between bars become
    /// branches, and a pattern with a bar becomes their alternation.
    pub fn parse(&mut self, pattern: &str) -> (r: Result<AST, Error>)
        requires
            byte_len(pattern@) <= usize::MAX,
        ensures
            r matches Ok(ast) && parsed(ast, pattern@),
    {
        let ghost s = pattern@;
        let n = pattern.unicode_len();
        let mut alts: Vec<AST> = Vec::new();
        let mut cur: Vec<AST> = Vec::new();
        let ghost mut cs: int = 0;
        let mut cur_start: usize = 0;
        let mut pos: usize = 0;
        let mut i: usize = 0;
        assert(s.subrange(0, 0).len() == 0);
        while i < n
            invariant
                s == pattern@,
                n == s.len(),
                byte_len(s) <= usize::MAX,
                i <= n,
                0 <= cs <= i,
                alts@.len() == bars(s.subrange(0, i as int)).len(),
                cs == branch_start(bars(s.subrange(0, i as int)), alts@.len() as int),
                cur_start == byte_len(s.subrange(0, cs)),
                pos == byte_len(s.subrange(0, i as int)),
                cur@.len() == i - cs,
                forall|j: int|
                    0 <= j < cur@.len() ==> literal_at(
                        #[trigger] cur@[j],
                        s[cs + j],
                        cur_start + byte_len(s.subrange(cs, cs + j)),
                    ),
                forall|k: int|
                    0 <= k < alts@.len() ==> branch_at(
                        #[trigger] alts@[k],
                        s.subrange(
                            branch_start(bars(s.subrange(0, i as int)), k),
                            bars(s.subrange(0, i as int))[k],
                        ),
                        byte_len(s.subrange(0, branch_start(bars(s.subrange(0, i as int)), k))) as int,
                    ),
            decreases n - i,
        {
            let c = pattern.get_char(i);
            let ghost p = s.subrange(0, i as int);
            let ghost next_prefix = s.subrange(0, i + 1);
            let ghost b = bars(p);
            assert(next_prefix.drop_last() =~= p);
            assert(next_prefix.last() == c);
            proof {
                lemma_byte_len_split(s, 0, i + 1, n as int);
                assert(s.subrange(0, n as int) =~= s);
                lemma_byte_len_split(s, 0, cs, i as int);
            }
            if c == '|' {
                let ghost seg = s.subrange(cs, i as int);
                proof {
                    assert forall|j: int| 0 <= j < cur@.len() implies literal_at(
                        #[trigger] cur@[j],
                        seg[j],
                        cur_start + byte_len(seg.subrange(0, j)),
                    ) by {
                        assert(seg.subrange(0, j) =~= s.subrange(cs, cs + j));
                    }
                }
                let mut lits: Vec<AST> = Vec::new();
                std::mem::swap(&mut lits, &mut cur);
                assert(lits@.len() == seg.len());
                let branch = finish_branch(lits, cur_start, pos, Ghost(seg));
                let ghost a0 = alts@;
                alts.push(branch);
                proof {
                    let next_bars = bars(next_prefix);
                    assert(next_bars == b.push(i as int));
                    assert forall|k: int| 0 <= k < alts@.len() implies branch_at(
                        #[trigger] alts@[k],
                        s.subrange(branch_start(next_bars, k), next_bars[k]),
                        byte_len(s.subrange(0, branch_start(next_bars, k))) as int,
                    ) by {
                        if k < a0.len() {
                            assert(alts@[k] == a0[k]);
                            assert(branch_start(next_bars, k) == branch_start(b, k));
                            assert(next_bars[k] == b[k]);
                        } else {
                            assert(branch_start(next_bars, k) == cs);
                        }
                    }
                    assert(s.subrange(0, i + 1).drop_last() =~= s.subrange(0, i as int));
                }
                pos = pos + 1;
                cur_start = pos;
                proof {
                    cs = i + 1;
                }
            } else {
                let len = char_len(c);
                let lit = AST::Literal(
                    Literal {
                        span: Span::new(Position::new(pos), Position::new(pos + len)),
                        kind: LiteralKind::Verbatim,
                        c,
                    },
                );
                proof {
                    assert(s.subrange(cs, i + 1).drop_last() =~= s.subrange(cs, i as int));
                    assert(s[cs + (i - cs)] == c);
                    assert(s.subrange(cs, cs + (i - cs)) =~= s.subrange(cs, i as int));
                }
                let ghost c0 = cur@;
                cur.push(lit);
                proof {
                    assert(bars(next_prefix) == b);
                    assert forall|j: int| 0 <= j < cur@.len() implies literal_at(
                        #[trigger] cur@[j],
                        s[cs + j],
                        cur_start + byte_len(s.subrange(cs, cs + j)),
                    ) by {
                        if j < c0.len() {
                            assert(cur@[j] == c0[j]);
                        }
                    }
                }
                pos = pos + len;
            }
            i += 1;
        }
        let ghost b = bars(s);
        assert(s.subrange(0, n as int) =~= s);
        let ghost seg = s.subrange(cs, n as int);
        proof {
            lemma_byte_len_split(s, 0, cs, n as int);
            assert forall|j: int| 0 <= j < cur@.len() implies literal_at(
                #[trigger] cur@[j],
                seg[j],
                cur_start + byte_len(seg.subrange(0, j)),
            ) by {
                assert(seg.subrange(0, j) =~= s.subrange(cs, cs + j));
            }
        }
        let last = finish_branch(cur, cur_start, pos, Ghost(seg));
        if alts.len() == 0 {
            assert(cs == 0);
            assert(seg =~= s);
            Ok(last)
        } else {
            let ghost a0 = alts@;
            alts.push(last);
            proof {
                assert forall|k: int| 0 <= k <= b.len() implies branch_at(
                    #[trigger] alts@[k],
                    s.subrange(branch_start(b, k), branch_end(s, b, k)),
                    byte_len(s.subrange(0, branch_start(b, k))) as int,
                ) by {
                    if k < b.len() {
                        assert(alts@[k] == a0[k]);
                    }
                }
            }
            Ok(AST::Alternation(Alternation { span: Span::new(Position::new(0), Position::new(pos)), asts: alts }))
        }
    }
}

/// Parses a pattern.
pub fn parse(input: &str) -> (r: AST)
    requires
        byte_len(input@) <= usize::MAX,
    ensures
        parsed(r, input@),
{
    let mut p = Parser::new();
    match p.parse(input) {
        Ok(ast) => ast,
        Err(_) => {
            assert(false);
            AST::Empty(Span::splat(Position::new(0)))
        },
    }
}

} // verus!
