use parsing_post::{tokenize_iter, tokenize_list, Lexer, Token, TokenSource};

fn tokenize(input: &str) -> Vec<(usize, Token)> {
    let mut lexer = Lexer::new(input);
    let mut tokens = vec![];
    while let Some(t) = lexer.next() {
        tokens.push(t.unwrap());
    }
    tokens
}

#[test]
fn lexer_test_keywords() {
    assert_eq!(
        tokenize("true false null"),
        vec![(0, Token::True), (5, Token::False), (11, Token::Null)]
    );
}

#[test]
fn lexer_test_delimiters() {
    assert_eq!(
        tokenize("{ } [ ]"),
        vec![
            (0, Token::LBrace),
            (2, Token::RBrace),
            (4, Token::LBracket),
            (6, Token::RBracket)
        ]
    );
}

#[test]
fn lexer_test_comments() {
    assert_eq!(
        tokenize("//"),
        vec![(0, Token::Comment { size_in_bytes: 2 })]
    );

    assert_eq!(
        tokenize("//\n"),
        vec![(0, Token::Comment { size_in_bytes: 3 })]
    );

    assert_eq!(
        tokenize("// asdf"),
        vec![(0, Token::Comment { size_in_bytes: 7 })]
    );

    assert_eq!(
        tokenize("// asdf\n"),
        vec![(0, Token::Comment { size_in_bytes: 8 })]
    );
}

#[test]
fn lexer_test_strings() {
    assert_eq!(
        tokenize(r#""""#),
        vec![(1, Token::Str { size_in_bytes: 0 })]
    );

    assert_eq!(
        tokenize(r#""a""#),
        vec![(1, Token::Str { size_in_bytes: 1 })]
    );
}

#[test]
fn list_matches_iterator() {
    let input = r#"{"a":1, "b":[true, false, null]} // done"#;
    assert_eq!(tokenize_list(input), Ok(tokenize(input)));
    let mut lexer = tokenize_iter(input);
    assert_eq!(lexer.next(), Some(Ok((0, Token::LBrace))));
}
