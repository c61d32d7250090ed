use automata_regex::ast::{Error, AST};
use automata_regex::nfa::NFA;
use automata_regex::parser::Parser;
use automata_regex::regex::{ast_to_nfa, Regex};

fn parse_ast(input: &str) -> Result<AST, Error> {
    Parser::new().parse(input)
}

#[test]
fn ast_to_nfa_empty() {
    let ast = parse_ast("").unwrap();
    let nfa = ast_to_nfa(&ast);
    assert_eq!(nfa, NFA::empty());
}

#[test]
fn ast_to_nfa_single_char() {
    let ast = parse_ast("a").unwrap();
    let nfa = ast_to_nfa(&ast);
    assert_eq!(nfa, NFA::char('a'));
}

#[test]
fn ast_to_nfa_multiple_chars() {
    let ast = parse_ast("ab").unwrap();
    let nfa = ast_to_nfa(&ast);
    assert_eq!(nfa, NFA::concat(vec![NFA::char('a'), NFA::char('b')]));
}

#[test]
fn ast_to_nfa_multiple_chars_with_alternation() {
    let ast = parse_ast("ab|c").unwrap();
    let nfa = ast_to_nfa(&ast);
    assert_eq!(
        nfa,
        NFA::or(vec![NFA::concat(vec![NFA::char('a'), NFA::char('b')]), NFA::char('c'),],)
    );
}

#[test]
fn test_single_char() {
    assert_eq!(Regex::new("a").unwrap().test("a"), true);
}

#[test]
fn test_multiple_chars() {}

#[test]
fn test_multiple_chars_with_alternation() {}

#[test]
fn regex_matches_alternatives() {
    let re = Regex::new("ab|c").unwrap();
    assert!(re.test("ab"));
    assert!(re.test("c"));
    assert!(!re.test("a"));
    assert!(!re.test("abc"));
    assert!(!re.test(""));
}
