use automata_regex::lexer::{tokens, Lexer, TokenKind};

#[test]
fn test_tokens() {
    let input = "a|b";
    let tokens = tokens(&input);
    println!("Tokens: {:#?}", tokens);
}

#[test]
fn tokens_of_alternation() {
    let t = tokens("a|b c?");
    let kinds: Vec<TokenKind> = t.iter().map(|t| t.kind.clone()).collect();
    assert_eq!(
        kinds,
        vec![
            TokenKind::Char,
            TokenKind::Bar,
            TokenKind::Char,
            TokenKind::Whitespace,
            TokenKind::Char,
            TokenKind::Unknown,
            TokenKind::EOF,
        ]
    );
    assert_eq!(t[1].span.start, 1);
    assert_eq!(t[1].span.end, 2);
    assert_eq!(t[1].span.literal, "|".to_string());
}

#[test]
fn lexer_ends_after_eof() {
    let mut lexer = Lexer::new("x");
    assert_eq!(lexer.current_char(), Some('x'));
    assert_eq!(lexer.next_token().unwrap().kind, TokenKind::Char);
    assert_eq!(lexer.current_char(), None);
    assert_eq!(lexer.next_token().unwrap().kind, TokenKind::EOF);
    assert!(lexer.next_token().is_none());
}

#[test]
fn white_space_matches_std() {
    for c in ['\t', '\n', ' ', '\u{85}', '\u{a0}', '\u{2003}', '\u{3000}', 'a', '|', '\u{200b}', 'é'] {
        let t = tokens(&c.to_string());
        assert_eq!(t[0].kind == TokenKind::Whitespace, c.is_whitespace(), "{:?}", c);
    }
}
