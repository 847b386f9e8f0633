use parsing_post::{tokenize_push, PushToTokens, Token};

fn tokenize_(input: &str) -> Vec<(usize, Token)> {
    let mut listener = PushToTokens::new();
    tokenize_push(input, &mut listener);
    let (tokens, error) = listener.into_tokens();
    assert_eq!(error, None);
    tokens
}

#[test]
fn lexer_push_test_keywords() {
    assert_eq!(
        tokenize_("true false null"),
        vec![(0, Token::True), (5, Token::False), (11, Token::Null)]
    );
}

#[test]
fn lexer_push_test_delimiters() {
    assert_eq!(
        tokenize_("{ } [ ]"),
        vec![
            (0, Token::LBrace),
            (2, Token::RBrace),
            (4, Token::LBracket),
            (6, Token::RBracket)
        ]
    );
}

#[test]
fn lexer_push_test_comments() {
    assert_eq!(
        tokenize_("//"),
        vec![(0, Token::Comment { size_in_bytes: 2 })]
    );

    assert_eq!(
        tokenize_("//\n"),
        vec![(0, Token::Comment { size_in_bytes: 3 })]
    );

    assert_eq!(
        tokenize_("// asdf"),
        vec![(0, Token::Comment { size_in_bytes: 7 })]
    );

    assert_eq!(
        tokenize_("// asdf\n"),
        vec![(0, Token::Comment { size_in_bytes: 8 })]
    );
}

#[test]
fn lexer_push_test_strings() {
    assert_eq!(
        tokenize_(r#""""#),
        vec![(1, Token::Str { size_in_bytes: 0 })]
    );

    assert_eq!(
        tokenize_(r#""a""#),
        vec![(1, Token::Str { size_in_bytes: 1 })]
    );
}

#[test]
fn test_object() {
    assert_eq!(
        tokenize_(r#"{"a":1, "b":2}"#),
        vec![
            (0, Token::LBrace),
            (2, Token::Str { size_in_bytes: 1 }),
            (4, Token::Colon),
            (5, Token::Int(1)),
            (6, Token::Comma),
            (9, Token::Str { size_in_bytes: 1 }),
            (11, Token::Colon),
            (12, Token::Int(2)),
            (13, Token::RBrace),
        ]
    );
}

#[test]
fn push_stops_at_the_first_error() {
    let mut listener = PushToTokens::new();
    tokenize_push("[1, tru, 2]", &mut listener);
    let (tokens, error) = listener.into_tokens();
    assert_eq!(
        tokens,
        vec![(0, Token::LBracket), (1, Token::Int(1)), (2, Token::Comma)]
    );
    assert_eq!(error, Some(4));
}
