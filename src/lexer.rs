use vstd::prelude::*;

verus! {

#[derive(Debug, Clone, Copy, PartialEq, Eq)]
pub enum TokenKind {
    EOF,
    Char,
    Unknown,
    Whitespace,
    Bar,
}

/// The characters `start..end` of the input, and their text.
#[derive(Debug, Clone, PartialEq, Eq)]
pub struct TextSpan {
    pub start: usize,
    pub end: usize,
    pub literal: String,
}

impl TextSpan {
    pub fn new(start: usize, end: usize, literal: String) -> (r: TextSpan)
        ensures
            r.start == start,
            r.end == end,
            r.literal@ == literal@,
    {
        TextSpan { start, end, literal }
    }
}

#[derive(Debug, Clone, PartialEq, Eq)]
pub struct Token {
    pub kind: TokenKind,
    pub span: TextSpan,
}

impl Token {
    pub fn new(kind: TokenKind, span: TextSpan) -> (r: Token)
        ensures
            r.kind == kind,
            r.span == span,
    {
        Token { kind, span }
    }
}

/// Whether `c` is white space: the code points of Unicode's `White_Space`
/// property.
pub open spec fn white_space(c: char) -> bool {
    let v = c as u32;
    (0x9 <= v && v <= 0xD) || v == 0x20 || v == 0x85 || v == 0xA0 || v == 0x1680 || (0x2000 <= v
        && v <= 0x200A) || v == 0x2028 || v == 0x2029 || v == 0x202F || v == 0x205F || v == 0x3000
}

/// Whether `c` is alphabetic, as Unicode's `Alphabetic` property says.
pub uninterp spec fn alphabetic(c: char) -> bool;

/// Whether `c` is white space.
fn char_is_whitespace(c: char) -> (r: bool)
    ensures
        r == white_space(c),
{
    let v = c as u32;
    (0x9 <= v && v <= 0xD) || v == 0x20 || v == 0x85 || v == 0xA0 || v == 0x1680 || (0x2000 <= v
        && v <= 0x200A) || v == 0x2028 || v == 0x2029 || v == 0x202F || v == 0x205F || v == 0x3000
}

/// Relies on char::is_alphabetic, which reads the Unicode `Alphabetic`
/// property of the character.
#[verifier::external_body]
fn char_is_alphabetic(c: char) -> (r: bool)
    ensures
        r == alphabetic(c),
{
    c.is_alphabetic()
}

/// The kind of the token of character `c`.
pub open spec fn kind_of(c: char) -> TokenKind {
    if white_space(c) {
        TokenKind::Whitespace
    } else if alphabetic(c) {
        TokenKind::Char
    } else if c == '|' {
        TokenKind::Bar
    } else {
        TokenKind::Unknown
    }
}

/// Splits a pattern into tokens of one character each, then an end token.
pub struct Lexer {
    pub input: Vec<char>,
    pub current_pos: usize,
}

impl Lexer {
    pub fn new(input: &str) -> (r: Lexer)
        ensures
            r.input@ == input@,
            r.current_pos == 0,
    {
        let n = input.unicode_len();
        let mut chars: Vec<char> = Vec::new();
        let mut i: usize = 0;
        while i < n
            invariant
                n == input@.len(),
                i <= n,
                chars@ == input@.subrange(0, i as int),
            decreases n - i,
        {
            chars.push(input.get_char(i));
            assert(chars@ =~= input@.subrange(0, i + 1));
            i += 1;
        }
        assert(input@.subrange(0, n as int) =~= input@);
        Lexer { input: chars, current_pos: 0 }
    }

    /// The character at the current position, if there is one.
    pub fn current_char(&self) -> (r: Option<char>)
        ensures
            r == (if self.current_pos < self.input@.len() {
                Some(self.input@[self.current_pos as int])
            } else {
                None
            }),
    {
        if self.current_pos < self.input.len() {
            Some(self.input[self.current_pos])
        } else {
            None
        }
    }

    pub fn is_whitespace(c: &char) -> (r: bool)
        ensures
            r == white_space(*c),
    {
        char_is_whitespace(*c)
    }

    /// Moves past the current character, if there is one, and returns it.
    fn consume(&mut self) -> (r: Option<char>)
        ensures
            old(self).current_pos < old(self).input@.len() ==> r == Some(
                old(self).input@[old(self).current_pos as int],
            ) && final(self).current_pos == old(self).current_pos + 1,
            old(self).current_pos >= old(self).input@.len() ==> r is None && final(self).current_pos
                == old(self).current_pos,
            final(self).input == old(self).input,
    {
        if self.current_pos >= self.input.len() {
            return None;
        }
        let c = self.current_char();
        self.current_pos += 1;
        c
    }

    /// The next token: at the end of the input one end token, after it
    /// none; else the token of the current character, which it moves past.
    pub fn next_token(&mut self) -> (r: Option<Token>)
        requires
            old(self).input@.len() < usize::MAX,
        ensures
            final(self).input == old(self).input,
            old(self).current_pos == old(self).input@.len() ==> (r matches Some(t) && t.kind
                == TokenKind::EOF && final(self).current_pos == old(self).current_pos + 1),
            old(self).current_pos > old(self).input@.len() ==> r is None && final(self).current_pos
                == old(self).current_pos,
            old(self).current_pos < old(self).input@.len() ==> (r matches Some(t) && t.kind
                == kind_of(old(self).input@[old(self).current_pos as int]) && t.span.start
                == old(self).current_pos && t.span.end == old(self).current_pos + 1
                && t.span.literal@ == seq![old(self).input@[old(self).current_pos as int]]
                && final(self).current_pos == old(self).current_pos + 1),
    {
        if self.current_pos == self.input.len() {
            self.current_pos += 1;
            let mut eof = String::new();
            crate::label::push_char(&mut eof, '\0');
            return Some(Token::new(TokenKind::EOF, TextSpan::new(0, 0, eof)));
        }
        match self.current_char() {
            None => None,
            Some(c) => {
                let start = self.current_pos;
                let kind = if Self::is_whitespace(&c) {
                    TokenKind::Whitespace
                } else if char_is_alphabetic(c) {
                    TokenKind::Char
                } else if c == '|' {
                    TokenKind::Bar
                } else {
                    TokenKind::Unknown
                };
                self.consume();
                let end = self.current_pos;
                let mut literal = String::new();
                crate::label::push_char(&mut literal, c);
                assert(literal@ =~= seq![c]);
                Some(Token::new(kind, TextSpan::new(start, end, literal)))
            },
        }
    }
}

/// The tokens of `input`: one per character, then the end token.
pub fn tokens(input: &str) -> (r: Vec<Token>)
    requires
        input@.len() < usize::MAX,
    ensures
        r@.len() == input@.len() + 1,
        forall|i: int|
            0 <= i < input@.len() ==> (#[trigger] r@[i]).kind == kind_of(input@[i])
                && r@[i].span.start == i && r@[i].span.literal@ == seq![input@[i]],
        r@[input@.len() as int].kind == TokenKind::EOF,
{
    let mut lexer = Lexer::new(input);
    let mut out: Vec<Token> = Vec::new();
    let n = lexer.input.len();
    while lexer.current_pos <= n
        invariant
            lexer.input@ == input@,
            n == input@.len(),
            input@.len() < usize::MAX,
            lexer.current_pos <= n + 1,
            out@.len() == lexer.current_pos,
            forall|i: int|
                0 <= i < out@.len() && i < n ==> (#[trigger] out@[i]).kind == kind_of(input@[i])
                    && out@[i].span.start == i && out@[i].span.literal@ == seq![input@[i]],
            lexer.current_pos == n + 1 ==> out@[n as int].kind == TokenKind::EOF,
        decreases n + 1 - lexer.current_pos,
    {
        let ghost o0 = out@;
        let next = lexer.next_token();
        if let Some(t) = next {
            out.push(t);
            assert(out@[out@.len() - 1] == t);
            assert(forall|i: int| 0 <= i < o0.len() ==> out@[i] == o0[i]);
        }
    }
    out
}

} // verus!
