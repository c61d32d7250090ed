use vstd::prelude::*;

verus! {

/// A byte offset into the pattern.
#[derive(Debug, Clone, Copy, PartialEq, Eq)]
pub struct Position {
    pub offset: usize,
}

impl Position {
    pub fn new(offset: usize) -> (r: Position)
        ensures
            r.offset == offset,
    {
        Position { offset }
    }
}

/// The bytes `start..end` of the pattern.
#[derive(Debug, Clone, Copy, PartialEq, Eq)]
pub struct Span {
    pub start: Position,
    pub end: Position,
}

impl Span {
    pub fn new(start: Position, end: Position) -> (r: Span)
        ensures
            r.start == start,
            r.end == end,
    {
        Span { start, end }
    }

    /// The empty span at `pos`.
    pub fn splat(pos: Position) -> (r: Span)
        ensures
            r.start == pos,
            r.end == pos,
    {
        Span { start: pos, end: pos }
    }
}

#[derive(Debug, Clone, Copy, PartialEq, Eq)]
pub enum LiteralKind {
    Verbatim,
}

/// One character of the pattern, matched as it is.
#[derive(Debug, Clone, Copy, PartialEq, Eq)]
pub struct Literal {
    pub span: Span,
    pub kind: LiteralKind,
    pub c: char,
}

/// Expressions matched one after the other.
#[derive(Debug, PartialEq, Eq)]
pub struct Concat {
    pub span: Span,
    pub asts: Vec<AST>,
}

/// Expressions of which one is matched.
#[derive(Debug, PartialEq, Eq)]
pub struct Alternation {
    pub span: Span,
    pub asts: Vec<AST>,
}

/// The syntax tree of a pattern.
#[derive(Debug, PartialEq, Eq)]
pub enum AST {
    Empty(Span),
    Literal(Literal),
    Concat(Concat),
    Alternation(Alternation),
}

impl AST {
    /// The tree of the empty pattern.
    pub fn new() -> (r: AST)
        ensures
            r == AST::Empty(Span { start: Position { offset: 0 }, end: Position { offset: 0 } }),
    {
        AST::Empty(Span::splat(Position::new(0)))
    }

    pub fn empty(span: Span) -> (r: AST)
        ensures
            r == AST::Empty(span),
    {
        AST::Empty(span)
    }

    pub fn literal(lit: Literal) -> (r: AST)
        ensures
            r == AST::Literal(lit),
    {
        AST::Literal(lit)
    }

    pub fn concat(concat: Concat) -> (r: AST)
        ensures
            r == AST::Concat(concat),
    {
        AST::Concat(concat)
    }

    pub fn alternation(alt: Alternation) -> (r: AST)
        ensures
            r == AST::Alternation(alt),
    {
        AST::Alternation(alt)
    }
}

/// An error that occurred while parsing or compiling a pattern.
#[derive(Debug, Clone, PartialEq, Eq)]
pub enum Error {
    /// A syntax error.
    Syntax(String),
}

// ---------------------------------------------------------------------------
// What a pattern parses to.

/// The number of bytes of `c` in UTF-8.
pub open spec fn utf8_len(c: char) -> nat {
    if (c as u32) < 0x80 {
        1
    } else if (c as u32) < 0x800 {
        2
    } else if (c as u32) < 0x10000 {
        3
    } else {
        4
    }
}

/// The number of bytes of `s` in UTF-8.
pub open spec fn byte_len(s: Seq<char>) -> nat
    decreases s.len(),
{
    if s.len() == 0 {
        0
    } else {
        byte_len(s.drop_last()) + utf8_len(s.last())
    }
}

/// The indices of the bars `|` of `s`, in increasing order.
pub open spec fn bars(s: Seq<char>) -> Seq<int>
    decreases s.len(),
{
    if s.len() == 0 {
        Seq::empty()
    } else if s.last() == '|' {
        bars(s.drop_last()).push(s.len() - 1)
    } else {
        bars(s.drop_last())
    }
}

pub open spec fn span_is(span: Span, start: int, end: int) -> bool {
    span.start.offset == start && span.end.offset == end
}

/// `ast` is the literal `c` that starts at byte `start`.
pub open spec fn literal_at(ast: AST, c: char, start: int) -> bool {
    match ast {
        AST::Literal(l) => l.c == c && l.kind == LiteralKind::Verbatim && span_is(
            l.span,
            start,
            start + utf8_len(c),
        ),
        _ => false,
    }
}

/// `ast` is the branch `seg`, a run of characters without bars, that starts
/// at byte `start`: nothing, one literal, or the concatenation of its
/// literals.
pub open spec fn branch_at(ast: AST, seg: Seq<char>, start: int) -> bool {
    if seg.len() == 0 {
        ast == AST::Empty(Span { start: Position { offset: start as usize }, end: Position { offset: start as usize } })
            && 0 <= start <= usize::MAX
    } else if seg.len() == 1 {
        literal_at(ast, seg[0], start)
    } else {
        match ast {
            AST::Concat(c) => span_is(c.span, start, start + byte_len(seg)) && c.asts@.len()
                == seg.len() && forall|i: int|
                0 <= i < seg.len() ==> literal_at(
                    #[trigger] c.asts@[i],
                    seg[i],
                    start + byte_len(seg.subrange(0, i)),
                ),
            _ => false,
        }
    }
}

pub open spec fn branch_start(b: Seq<int>, k: int) -> int {
    if k == 0 {
        0
    } else {
        b[k - 1] + 1
    }
}

pub open spec fn branch_end(s: Seq<char>, b: Seq<int>, k: int) -> int {
    if k == b.len() {
        s.len() as int
    } else {
        b[k]
    }
}

/// `ast` is the parse of the pattern `s`: the branches between bars, and,
/// when there is a bar, their alternation over the whole pattern.
pub open spec fn parsed(ast: AST, s: Seq<char>) -> bool {
    let b = bars(s);
    if b.len() == 0 {
        branch_at(ast, s, 0)
    } else {
        match ast {
            AST::Alternation(alt) => span_is(alt.span, 0, byte_len(s) as int)
                && alt.asts@.len() == b.len() + 1 && forall|k: int|
                0 <= k <= b.len() ==> branch_at(
                    #[trigger] alt.asts@[k],
                    s.subrange(branch_start(b, k), branch_end(s, b, k)),
                    byte_len(s.subrange(0, branch_start(b, k))) as int,
                ),
            _ => false,
        }
    }
}

} // verus!
