use parsing_post::{
    event_to_tree, parse_ast_non_recursive, parse_events_iter_using_lexer_iter,
    parse_events_push_using_lexer_iter, parse_events_push_using_lexer_iter_non_recursive,
    parse_events_push_using_lexer_push, tokenize_iter, tokenize_list, tokenize_push,
    AstBuilderListener, EventList, EventListener, EventSource, Json, Lexer, Machine, ParseError,
    ParseEvent, ParseEventKind, ParserState, PushToEvents, PushToTokens, Token, TokenList,
    TokenSource,
};

type Outcome = (Vec<ParseEvent>, Option<ParseError>);

fn event(byte_offset: usize, kind: ParseEventKind) -> ParseEvent {
    ParseEvent::new(byte_offset, kind)
}

fn error(byte_offset: usize, reason: &'static str) -> ParseError {
    ParseError {
        byte_offset,
        reason,
    }
}

/// What the pull parser yields: the events, and the error that ends them.
fn pull(input: &str) -> Outcome {
    let mut parser = parse_events_iter_using_lexer_iter(tokenize_iter(input), input.len());
    let mut events = vec![];
    let mut failure = None;
    while let Some(result) = parser.next() {
        assert_eq!(failure, None, "nothing follows an error");
        match result {
            Ok(event) => events.push(event),
            Err(error) => failure = Some(error),
        }
    }
    assert_eq!(parser.next(), None);
    (events, failure)
}

fn push_from_push_lexer(input: &str) -> Outcome {
    parse_events_push_using_lexer_push(input, PushToEvents::new()).into_events()
}

fn push_recursive(input: &str) -> Outcome {
    let mut listener = PushToEvents::new();
    parse_events_push_using_lexer_iter(tokenize_iter(input), &mut listener, input.len());
    listener.into_events()
}

fn push_non_recursive(input: &str) -> Outcome {
    let mut listener = PushToEvents::new();
    parse_events_push_using_lexer_iter_non_recursive(
        &mut tokenize_iter(input),
        &mut listener,
        input.len(),
    );
    listener.into_events()
}

fn push_from_list(input: &str) -> Outcome {
    let mut listener = PushToEvents::new();
    match tokenize_list(input) {
        Ok(tokens) => parse_events_push_using_lexer_iter_non_recursive(
            &mut TokenList::new(tokens),
            &mut listener,
            input.len(),
        ),
        Err(_) => panic!("the input does not lex"),
    }
    listener.into_events()
}

/// The outcome of every event parser on `input`, which has to be the same.
fn parse_all(input: &str) -> Outcome {
    let outcome = pull(input);
    assert_eq!(push_from_push_lexer(input), outcome, "{:?}", input);
    assert_eq!(push_recursive(input), outcome, "{:?}", input);
    assert_eq!(push_non_recursive(input), outcome, "{:?}", input);
    outcome
}

fn lex_lazily(input: &str) -> (Vec<(usize, Token)>, Option<usize>) {
    let mut lexer = Lexer::new(input);
    let mut tokens = vec![];
    while let Some(item) = lexer.next() {
        match item {
            Ok(token) => tokens.push(token),
            Err(byte_offset) => return (tokens, Some(byte_offset)),
        }
    }
    (tokens, None)
}

fn lex_by_push(input: &str) -> (Vec<(usize, Token)>, Option<usize>) {
    let mut listener = PushToTokens::new();
    tokenize_push(input, &mut listener);
    listener.into_tokens()
}

const INPUTS: [&str; 40] = [
    "",
    " ",
    "1",
    "1 2",
    "true",
    "tru",
    "nul",
    "falsy",
    "\"open",
    "\"\"",
    "[]",
    "{}",
    "[",
    "]",
    "}",
    "{",
    "[1",
    "[1,",
    "[1,]",
    "[,1]",
    "[1 2]",
    "[1}",
    "[}",
    "{]",
    "{\"a\"}",
    "{\"a\":}",
    "{\"a\":]",
    "{\"a\":1,}",
    "{\"a\":1]",
    "{\"a\":1 \"b\":2}",
    "{1:2}",
    "{\"a\" 1}",
    "{\"a\":1, \"b\":2}",
    "[[[[1,[2,{\"k\":[null]}]]]]] // end\n// more",
    "// hi\n1",
    "/ 1",
    "1 // a\n// b\n 2",
    "[1, @]",
    ":",
    ",",
];

#[test]
fn pull_and_push_yield_the_same() {
    for input in INPUTS {
        parse_all(input);
    }
}

#[test]
fn array_backed_and_lazy_tokens_give_the_same_events() {
    for input in INPUTS {
        if tokenize_list(input).is_ok() {
            assert_eq!(push_from_list(input), pull(input), "{:?}", input);
        }
    }
}

#[test]
fn lexers_agree() {
    for input in INPUTS {
        let (tokens, failure) = lex_lazily(input);
        assert_eq!(lex_by_push(input), (tokens.clone(), failure), "{:?}", input);
        match failure {
            None => assert_eq!(tokenize_list(input), Ok(tokens), "{:?}", input),
            Some(byte_offset) => assert_eq!(tokenize_list(input), Err(byte_offset), "{:?}", input),
        }
    }
}

#[test]
fn offsets_of_an_object() {
    let input = "{\"a\":1, \"b\":2}";
    let (events, failure) = parse_all(input);
    assert_eq!(failure, None);
    assert_eq!(
        events,
        vec![
            event(0, ParseEventKind::StartObject),
            event(2, ParseEventKind::Str { size_in_bytes: 1 }),
            event(5, ParseEventKind::Int(1)),
            event(9, ParseEventKind::Str { size_in_bytes: 1 }),
            event(12, ParseEventKind::Int(2)),
            event(13, ParseEventKind::EndObject),
        ]
    );
    assert_eq!(
        tokenize_list(input).unwrap()[1],
        (2, Token::Str { size_in_bytes: 1 })
    );
    assert_eq!(&input[2..2 + 1], "a");
}

#[test]
fn trailing_comma_in_array_is_unexpected_token() {
    let (events, failure) = parse_all("[1,]");
    assert_eq!(
        events,
        vec![
            event(0, ParseEventKind::StartArray),
            event(1, ParseEventKind::Int(1)),
        ]
    );
    assert_eq!(failure, Some(error(3, "unexpected token")));
}

#[test]
fn trailing_comma_in_object_is_unexpected_token() {
    let (_, failure) = parse_all("{\"a\":1,}");
    assert_eq!(failure, Some(error(7, "unexpected token")));
}

#[test]
fn comments_pass_through() {
    let (events, failure) = parse_all("// hi\n1");
    assert_eq!(failure, None);
    assert_eq!(
        events,
        vec![
            event(0, ParseEventKind::Comment { size_in_bytes: 6 }),
            event(6, ParseEventKind::Int(1)),
        ]
    );
}

#[test]
fn trailing_data_is_detected() {
    let (events, failure) = parse_all("1 2");
    assert_eq!(events, vec![event(0, ParseEventKind::Int(1))]);
    assert_eq!(failure, Some(error(2, "trailing tokens")));
}

#[test]
fn trailing_comments_are_reported() {
    let (events, failure) = parse_all("1 // a\n// b\n 2");
    assert_eq!(
        events,
        vec![
            event(0, ParseEventKind::Int(1)),
            event(2, ParseEventKind::Comment { size_in_bytes: 5 }),
            event(7, ParseEventKind::Comment { size_in_bytes: 5 }),
        ]
    );
    assert_eq!(failure, Some(error(13, "trailing tokens")));
}

#[test]
fn every_error_has_its_input() {
    assert_eq!(parse_all("[1, @]").1, Some(error(4, "invalid token")));
    assert_eq!(parse_all("tru").1, Some(error(0, "invalid token")));
    assert_eq!(parse_all("").1, Some(error(0, "unexpected end of input")));
    assert_eq!(parse_all("[1, ").1, Some(error(4, "unexpected end of input")));
    assert_eq!(parse_all("{\"a\"").1, Some(error(4, "unexpected end of input")));
    assert_eq!(parse_all("[,1]").1, Some(error(1, "unexpected token")));
    assert_eq!(parse_all(":").1, Some(error(0, "unexpected token")));
    assert_eq!(parse_all("{1:2}").1, Some(error(1, "unexpected token")));
    assert_eq!(parse_all("[1 2]").1, Some(error(3, "unexpected token")));
    assert_eq!(parse_all("{\"a\":}").1, Some(error(5, "unexpected token")));
    assert_eq!(parse_all("]").1, Some(error(0, "unexpected ']'")));
    assert_eq!(parse_all("{]").1, Some(error(1, "unexpected ']'")));
    assert_eq!(parse_all("{\"a\":]").1, Some(error(5, "unexpected ']'")));
    assert_eq!(parse_all("{\"a\":1]").1, Some(error(6, "unexpected ']'")));
    assert_eq!(parse_all("}").1, Some(error(0, "unexpected '}'")));
    assert_eq!(parse_all("[}").1, Some(error(1, "unexpected '}'")));
    assert_eq!(parse_all("[1}").1, Some(error(2, "unexpected '}'")));
    assert_eq!(parse_all("[] []").1, Some(error(3, "trailing tokens")));
}

#[test]
fn deep_nesting_needs_no_call_stack() {
    let depth = 100_000;
    let mut input = String::with_capacity(2 * depth);
    for _ in 0..depth {
        input.push('[');
    }
    for _ in 0..depth {
        input.push(']');
    }
    let (events, failure) = push_non_recursive(&input);
    assert_eq!(failure, None);
    assert_eq!(events.len(), 2 * depth);
    assert_eq!(events[depth - 1], event(depth - 1, ParseEventKind::StartArray));
    assert_eq!(events[depth], event(depth, ParseEventKind::EndArray));
    assert_eq!(push_from_push_lexer(&input), (events.clone(), None));
    assert_eq!(pull(&input), (events, None));
    let tree = parse_ast_non_recursive(&input);
    assert!(tree.is_ok());
    // Dropping a tree recurses once per level: leave this one alone.
    std::mem::forget(tree);
}

#[test]
fn lexical_errors_have_exact_offsets() {
    assert_eq!(tokenize_list("tru"), Err(0));
    assert_eq!(tokenize_list("  nulL"), Err(2));
    assert_eq!(tokenize_list("/"), Err(1));
    assert_eq!(tokenize_list("1 /x"), Err(3));
    assert_eq!(tokenize_list("\""), Err(0));
    assert_eq!(tokenize_list("\"abc"), Err(3));
    assert_eq!(tokenize_list("\"ab\u{e9}"), Err(3));
    assert_eq!(tokenize_list("[1, ?]"), Err(4));
    assert_eq!(tokenize_list("\u{e9}"), Err(0));
    assert_eq!(tokenize_list("-1"), Err(0));
    assert_eq!(tokenize_list("1.5"), Err(1));
}

#[test]
fn whitespace_is_skipped() {
    assert_eq!(
        tokenize_list(" \t\n\r\u{c}1\u{c}"),
        Ok(vec![(5, Token::Int(1))])
    );
    assert_eq!(tokenize_list("\u{b}1"), Err(0));
}

#[test]
fn integers_wrap_around() {
    assert_eq!(
        tokenize_list("18446744073709551615"),
        Ok(vec![(0, Token::Int(u64::MAX))])
    );
    assert_eq!(
        tokenize_list("18446744073709551616"),
        Ok(vec![(0, Token::Int(0))])
    );
    assert_eq!(
        tokenize_list("18446744073709551617 007"),
        Ok(vec![(0, Token::Int(1)), (21, Token::Int(7))])
    );
}

#[test]
fn strings_and_comments_are_spans() {
    assert_eq!(
        tokenize_list("\"h\u{e9}\" // \u{e9}"),
        Ok(vec![
            (1, Token::Str { size_in_bytes: 3 }),
            (6, Token::Comment { size_in_bytes: 5 }),
        ])
    );
    assert_eq!(
        tokenize_list("//a\n//b"),
        Ok(vec![
            (0, Token::Comment { size_in_bytes: 4 }),
            (4, Token::Comment { size_in_bytes: 3 }),
        ])
    );
}

#[test]
fn the_lazy_lexer_goes_on_after_an_error() {
    let mut lexer = tokenize_iter("tx 1 /\u{e9}2 \u{e9}3 \"");
    assert_eq!(lexer.next(), Some(Err(0)));
    assert_eq!(lexer.next(), Some(Ok((3, Token::Int(1)))));
    assert_eq!(lexer.next(), Some(Err(6)));
    assert_eq!(lexer.next(), Some(Ok((8, Token::Int(2)))));
    assert_eq!(lexer.next(), Some(Err(10)));
    assert_eq!(lexer.next(), Some(Ok((12, Token::Int(3)))));
    assert_eq!(lexer.next(), Some(Err(14)));
    assert_eq!(lexer.next(), None);
    assert_eq!(lexer.next(), None);
}

#[test]
fn a_token_list_hands_out_its_tokens() {
    let mut list = TokenList::new(vec![(0, Token::LBracket), (1, Token::RBracket)]);
    assert_eq!(list.next(), Some(Ok((0, Token::LBracket))));
    assert_eq!(list.next(), Some(Ok((1, Token::RBracket))));
    assert_eq!(list.next(), None);
}

#[test]
fn collectors_keep_the_last_error() {
    let mut listener = PushToTokens::new();
    tokenize_push("1 ?", &mut listener);
    tokenize_push("2 !", &mut listener);
    assert_eq!(
        listener.into_tokens(),
        (vec![(0, Token::Int(1)), (0, Token::Int(2))], Some(2))
    );
}

#[test]
fn the_push_parser_stops_reading_at_the_error() {
    let mut lexer = tokenize_iter("[1 2 3]");
    let mut listener = PushToEvents::new();
    parse_events_push_using_lexer_iter_non_recursive(&mut lexer, &mut listener, 7);
    assert_eq!(lexer.next(), Some(Ok((5, Token::Int(3)))));
}

fn tree_from_events(events: Vec<ParseEvent>, input: &str) -> Result<Json, ParseError> {
    event_to_tree(&mut EventList::new(events), input)
}

#[test]
fn trees_are_built_from_events() {
    let input = "{\"k\": [\"v\", 7]}";
    let (events, failure) = parse_all(input);
    assert_eq!(failure, None);
    let expected = Json::Object(vec![(
        "k".to_string(),
        Json::Array(vec![Json::String("v".to_string()), Json::Int(7)]),
    )]);
    assert_eq!(tree_from_events(events, input), Ok(expected));
}

#[test]
fn the_tree_is_the_first_complete_value() {
    let mut source = EventList::new(vec![
        event(0, ParseEventKind::Comment { size_in_bytes: 3 }),
        event(3, ParseEventKind::Int(1)),
        event(5, ParseEventKind::Int(2)),
    ]);
    assert_eq!(event_to_tree(&mut source, "//\n1 2"), Ok(Json::Int(1)));
    assert_eq!(source.next(), Some(Ok(event(5, ParseEventKind::Int(2)))));
    assert_eq!(source.next(), None);
}

#[test]
fn events_that_describe_no_tree_fail() {
    let input = "{\"a\"}]x";
    let key_without_value = vec![
        event(0, ParseEventKind::StartObject),
        event(2, ParseEventKind::Str { size_in_bytes: 1 }),
        event(4, ParseEventKind::EndObject),
    ];
    assert_eq!(
        tree_from_events(key_without_value, input),
        Err(error(4, "unexpected '}'"))
    );
    let mismatched = vec![
        event(0, ParseEventKind::StartObject),
        event(5, ParseEventKind::EndArray),
    ];
    assert_eq!(
        tree_from_events(mismatched, input),
        Err(error(5, "unexpected ']'"))
    );
    let unopened = vec![event(4, ParseEventKind::EndObject)];
    assert_eq!(
        tree_from_events(unopened, input),
        Err(error(4, "unexpected '}'"))
    );
    let number_as_key = vec![
        event(0, ParseEventKind::StartObject),
        event(1, ParseEventKind::Int(1)),
    ];
    assert_eq!(
        tree_from_events(number_as_key, input),
        Err(error(1, "unexpected token"))
    );
    let unfinished = vec![event(0, ParseEventKind::StartArray)];
    assert_eq!(
        tree_from_events(unfinished, input),
        Err(error(7, "unexpected end of input"))
    );
    let beyond_the_input = vec![event(2, ParseEventKind::Str { size_in_bytes: 6 })];
    assert_eq!(
        tree_from_events(beyond_the_input, input),
        Err(error(2, "invalid token"))
    );
    let inside_a_character = vec![event(1, ParseEventKind::Str { size_in_bytes: 1 })];
    assert_eq!(
        tree_from_events(inside_a_character, "\"\u{e9}\""),
        Err(error(1, "invalid token"))
    );
}

#[test]
fn an_error_among_the_events_is_the_result() {
    let mut parser = parse_events_iter_using_lexer_iter(tokenize_iter("[1,]"), 4);
    assert_eq!(
        event_to_tree(&mut parser, "[1,]"),
        Err(error(3, "unexpected token"))
    );
    assert_eq!(parser.next(), None);
}

#[test]
fn the_direct_parse_checks_what_trails() {
    assert_eq!(parse_ast_non_recursive("1 // fine\n"), Ok(Json::Int(1)));
    assert_eq!(
        parse_ast_non_recursive("1 2"),
        Err(error(2, "trailing tokens"))
    );
    assert_eq!(
        parse_ast_non_recursive("[] ?"),
        Err(error(3, "invalid token"))
    );
    assert_eq!(
        parse_ast_non_recursive("[1,]"),
        Err(error(3, "unexpected token"))
    );
    assert_eq!(
        parse_ast_non_recursive(""),
        Err(error(0, "unexpected end of input"))
    );
    assert_eq!(
        parse_ast_non_recursive("{\"a\": 1, \"a\": 2}"),
        Ok(Json::Object(vec![
            ("a".to_string(), Json::Int(1)),
            ("a".to_string(), Json::Int(2)),
        ]))
    );
}

#[test]
fn the_direct_parse_succeeds_where_the_events_have_no_error() {
    for input in INPUTS {
        let (_, failure) = pull(input);
        match parse_ast_non_recursive(input) {
            Ok(_) => assert_eq!(failure, None, "{:?}", input),
            Err(error) => assert_eq!(failure, Some(error), "{:?}", input),
        }
    }
}

#[test]
fn the_state_machine_can_be_driven_by_hand() {
    let mut machine = Machine::new();
    assert_eq!(machine.state(), ParserState::TopLevel);
    assert_eq!(
        machine.feed(Ok((0, Token::LBracket))),
        Some(Ok(event(0, ParseEventKind::StartArray)))
    );
    assert_eq!(machine.state(), ParserState::ArrayExpectValueOrClose);
    assert_eq!(machine.depth(), 1);
    assert_eq!(
        machine.feed(Ok((1, Token::LBrace))),
        Some(Ok(event(1, ParseEventKind::StartObject)))
    );
    assert_eq!(machine.state(), ParserState::ObjectExpectKeyOrClose);
    assert_eq!(machine.depth(), 2);
    assert_eq!(
        machine.feed(Ok((2, Token::Str { size_in_bytes: 1 }))),
        Some(Ok(event(2, ParseEventKind::Str { size_in_bytes: 1 })))
    );
    assert_eq!(machine.state(), ParserState::ObjectExpectColon);
    assert_eq!(machine.feed(Ok((4, Token::Colon))), None);
    assert_eq!(machine.state(), ParserState::TopLevel);
    assert_eq!(
        machine.feed(Ok((5, Token::Null))),
        Some(Ok(event(5, ParseEventKind::Null)))
    );
    assert_eq!(machine.state(), ParserState::AfterValueInObject);
    assert_eq!(machine.feed(Ok((9, Token::Comma))), None);
    assert_eq!(machine.state(), ParserState::ObjectExpectKey);
    assert_eq!(
        machine.feed(Ok((10, Token::Str { size_in_bytes: 0 }))),
        Some(Ok(event(10, ParseEventKind::Str { size_in_bytes: 0 })))
    );
    assert_eq!(machine.feed(Ok((12, Token::Colon))), None);
    assert_eq!(
        machine.feed(Ok((13, Token::Int(3)))),
        Some(Ok(event(13, ParseEventKind::Int(3))))
    );
    assert_eq!(
        machine.feed(Ok((14, Token::RBrace))),
        Some(Ok(event(14, ParseEventKind::EndObject)))
    );
    assert_eq!(machine.state(), ParserState::AfterValueInArray);
    assert_eq!(machine.depth(), 1);
    assert_eq!(machine.end_of_input(15), Some(Err(error(15, "unexpected end of input"))));
    assert_eq!(machine.state(), ParserState::Failed);
    assert_eq!(machine.feed(Ok((15, Token::RBracket))), None);
    assert_eq!(machine.end_of_input(16), None);

    let mut machine = Machine::new();
    assert_eq!(
        machine.feed(Ok((0, Token::True))),
        Some(Ok(event(0, ParseEventKind::Bool(true))))
    );
    assert_eq!(machine.state(), ParserState::Done);
    assert_eq!(machine.depth(), 0);
    assert_eq!(machine.end_of_input(4), None);
    assert_eq!(machine.feed(Err(5)), Some(Err(error(5, "invalid token"))));
}

fn push_to_tree(input: &str) -> (Option<Json>, Option<ParseError>) {
    let mut listener = AstBuilderListener::new(input);
    parse_events_push_using_lexer_iter_non_recursive(
        &mut tokenize_iter(input),
        &mut listener,
        input.len(),
    );
    let outcome = listener.into_ast();
    let by_push_lexer =
        parse_events_push_using_lexer_push(input, AstBuilderListener::new(input)).into_ast();
    assert_eq!(by_push_lexer, outcome);
    let mut listener = AstBuilderListener::new(input);
    parse_events_push_using_lexer_iter(tokenize_iter(input), &mut listener, input.len());
    assert_eq!(listener.into_ast(), outcome);
    outcome
}

#[test]
fn a_listener_builds_the_tree() {
    assert_eq!(
        push_to_tree("[1, {\"a\": \"b\"}] // done"),
        (
            Some(Json::Array(vec![
                Json::Int(1),
                Json::Object(vec![("a".to_string(), Json::String("b".to_string()))]),
            ])),
            None
        )
    );
    assert_eq!(
        push_to_tree("[1] 2"),
        (
            Some(Json::Array(vec![Json::Int(1)])),
            Some(error(4, "trailing tokens"))
        )
    );
    assert_eq!(
        push_to_tree("[1, ]"),
        (None, Some(error(4, "unexpected token")))
    );
}

#[test]
fn a_listener_builds_what_the_direct_parse_gives() {
    for input in INPUTS {
        let (ast, failure) = push_to_tree(input);
        match parse_ast_non_recursive(input) {
            Ok(tree) => assert_eq!((ast, failure), (Some(tree), None), "{:?}", input),
            Err(error) => assert_eq!(failure, Some(error), "{:?}", input),
        }
    }
}

#[test]
fn a_tree_building_listener_keeps_the_first_error() {
    let mut listener = AstBuilderListener::new("7");
    listener.handle_error(error(1, "invalid token"));
    listener.handle_int(0, 7);
    listener.handle_error(error(2, "unexpected token"));
    assert_eq!(listener.into_ast(), (None, Some(error(1, "invalid token"))));

    let mut listener = AstBuilderListener::new("7");
    listener.handle_end_array(0);
    listener.handle_int(0, 7);
    assert_eq!(listener.into_ast(), (None, Some(error(0, "unexpected ']'"))));

    let mut listener = AstBuilderListener::new("7 8");
    listener.handle_comment(0, 0);
    listener.handle_int(0, 7);
    listener.handle_int(2, 8);
    assert_eq!(listener.into_ast(), (Some(Json::Int(7)), None));
}

#[test]
fn the_direct_parse_agrees_with_the_events() {
    for input in INPUTS {
        let direct = parse_ast_non_recursive(input);
        let mut parser = parse_events_iter_using_lexer_iter(tokenize_iter(input), input.len());
        let from_events = event_to_tree(&mut parser, input);
        if direct.is_ok() {
            assert_eq!(from_events, direct, "{:?}", input);
        }
        if from_events.is_err() {
            assert_eq!(direct, from_events, "{:?}", input);
        }
    }
}
