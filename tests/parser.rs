use std::ops::Range;

use automata_regex::ast::{Alternation, Concat, Literal, LiteralKind, Position, Span, AST};
use automata_regex::parser::Parser;

fn span(range: Range<usize>) -> Span {
    let start = Position::new(range.start);
    let end = Position::new(range.end);
    Span::new(start, end)
}

fn lit(c: char, start: usize) -> AST {
    lit_with(c, span(start..start + c.len_utf8()))
}

fn lit_with(c: char, span: Span) -> AST {
    AST::literal(Literal { span, kind: LiteralKind::Verbatim, c })
}

fn concat(range: Range<usize>, asts: Vec<AST>) -> AST {
    AST::concat(Concat { span: span(range), asts })
}

fn alt(range: Range<usize>, asts: Vec<AST>) -> AST {
    AST::alternation(Alternation { span: span(range), asts })
}

#[test]
fn empty_pattern() {
    assert_eq!(Parser::new().parse(""), Ok(AST::empty(span(0..0))));
}

#[test]
fn single_char_pattern() {
    assert_eq!(Parser::new().parse("a"), Ok(lit('a', 0)));
}

#[test]
fn multiple_chars_pattern_two() {
    assert_eq!(Parser::new().parse("ab"), Ok(concat(0..2, vec![lit('a', 0), lit('b', 1)])));
}

#[test]
fn multiple_chars_pattern_three() {
    assert_eq!(
        Parser::new().parse("abc"),
        Ok(concat(0..3, vec![lit('a', 0), lit('b', 1), lit('c', 2)]))
    );
}

#[test]
fn alternation_pattern_two_char_options() {
    assert_eq!(Parser::new().parse("a|b"), Ok(alt(0..3, vec![lit('a', 0), lit('b', 2)])));
}

#[test]
fn alternation_pattern_three_char_options() {
    assert_eq!(
        Parser::new().parse("a|b|c"),
        Ok(alt(0..5, vec![lit('a', 0), lit('b', 2), lit('c', 4)]))
    );
}

#[test]
fn alternation_pattern_multiple_char_options() {
    assert_eq!(
        Parser::new().parse("ab|c|de"),
        Ok(alt(
            0..7,
            vec![
                concat(0..2, vec![lit('a', 0), lit('b', 1)]),
                lit('c', 3),
                concat(5..7, vec![lit('d', 5), lit('e', 6)]),
            ]
        ))
    );
}

#[test]
fn empty_branches_and_wide_chars() {
    assert_eq!(
        Parser::new().parse("|é"),
        Ok(alt(0..3, vec![AST::empty(span(0..0)), lit('é', 1)]))
    );
}
