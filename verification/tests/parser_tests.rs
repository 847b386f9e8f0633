use parsing_post::direct_non_recursive;
use parsing_post::event_push_parser_2;
use parsing_post::event_push_parser_3;
use parsing_post::event_push_parser_3_non_recursive;
use parsing_post::{
    event_to_tree, parse_events_iter_using_lexer_iter, tokenize_iter, EventList, EventParser,
    EventSource, Json, Lexer, ParseError, ParseEvent, ParseEventKind, PushToEvents,
};

fn s(text: &str) -> Json {
    Json::String(text.to_string())
}

fn member(key: &str, value: Json) -> (String, Json) {
    (key.to_string(), value)
}

/// Inputs with the kinds of the events that they give rise to.
fn event_cases() -> Vec<(String, Vec<ParseEventKind>)> {
    let cases: Vec<(&str, Vec<ParseEventKind>)> = vec![
        ("1", vec![ParseEventKind::Int(1)]),
        ("  123  ", vec![ParseEventKind::Int(123)]),
        ("true", vec![ParseEventKind::Bool(true)]),
        ("false", vec![ParseEventKind::Bool(false)]),
        ("null", vec![ParseEventKind::Null]),
        (r#""""#, vec![ParseEventKind::Str { size_in_bytes: 0 }]),
        (r#""hello""#, vec![ParseEventKind::Str { size_in_bytes: 5 }]),
        ("[]", vec![ParseEventKind::StartArray, ParseEventKind::EndArray]),
        ("{}", vec![ParseEventKind::StartObject, ParseEventKind::EndObject]),
        ("[1]", vec![ParseEventKind::StartArray, ParseEventKind::Int(1), ParseEventKind::EndArray]),
        (
            "[1, 2, 3]",
            vec![
                ParseEventKind::StartArray,
                ParseEventKind::Int(1),
                ParseEventKind::Int(2),
                ParseEventKind::Int(3),
                ParseEventKind::EndArray,
            ],
        ),
        (
            "[[], [[]]]",
            vec![
                ParseEventKind::StartArray,
                ParseEventKind::StartArray,
                ParseEventKind::EndArray,
                ParseEventKind::StartArray,
                ParseEventKind::StartArray,
                ParseEventKind::EndArray,
                ParseEventKind::EndArray,
                ParseEventKind::EndArray,
            ],
        ),
        (
            r#"{"a":1}"#,
            vec![
                ParseEventKind::StartObject,
                ParseEventKind::Str { size_in_bytes: 1 },
                ParseEventKind::Int(1),
                ParseEventKind::EndObject,
            ],
        ),
        (
            r#"{"a":1, "b":2}"#,
            vec![
                ParseEventKind::StartObject,
                ParseEventKind::Str { size_in_bytes: 1 },
                ParseEventKind::Int(1),
                ParseEventKind::Str { size_in_bytes: 1 },
                ParseEventKind::Int(2),
                ParseEventKind::EndObject,
            ],
        ),
        (
            r#"{"key": [true, {"x": null}], "other": "text"}"#,
            vec![
                ParseEventKind::StartObject,
                ParseEventKind::Str { size_in_bytes: 3 },
                ParseEventKind::StartArray,
                ParseEventKind::Bool(true),
                ParseEventKind::StartObject,
                ParseEventKind::Str { size_in_bytes: 1 },
                ParseEventKind::Null,
                ParseEventKind::EndObject,
                ParseEventKind::EndArray,
                ParseEventKind::Str { size_in_bytes: 5 },
                ParseEventKind::Str { size_in_bytes: 4 },
                ParseEventKind::EndObject,
            ],
        ),
        ("// hi\n1", vec![ParseEventKind::Comment { size_in_bytes: 6 }, ParseEventKind::Int(1)]),
        (
            "[ // first\n 1, // second\n 2 ] // last",
            vec![
                ParseEventKind::StartArray,
                ParseEventKind::Comment { size_in_bytes: 9 },
                ParseEventKind::Int(1),
                ParseEventKind::Comment { size_in_bytes: 10 },
                ParseEventKind::Int(2),
                ParseEventKind::EndArray,
                ParseEventKind::Comment { size_in_bytes: 7 },
            ],
        ),
        (
            "{ // c\n \"a\" // c\n : // c\n 1 // c\n }",
            vec![
                ParseEventKind::StartObject,
                ParseEventKind::Comment { size_in_bytes: 5 },
                ParseEventKind::Str { size_in_bytes: 1 },
                ParseEventKind::Comment { size_in_bytes: 5 },
                ParseEventKind::Comment { size_in_bytes: 5 },
                ParseEventKind::Int(1),
                ParseEventKind::Comment { size_in_bytes: 5 },
                ParseEventKind::EndObject,
            ],
        ),
    ];
    cases
        .into_iter()
        .map(|(input, kinds)| (input.to_string(), kinds))
        .collect()
}

/// Inputs with the trees that they stand for.
fn ast_cases() -> Vec<(String, Json)> {
    let cases: Vec<(&str, Json)> = vec![
        ("1", Json::Int(1)),
        (" 42 ", Json::Int(42)),
        ("true", Json::Bool(true)),
        ("false", Json::Bool(false)),
        ("null", Json::Null),
        (r#""""#, s("")),
        (r#""hello world""#, s("hello world")),
        ("[]", Json::Array(vec![])),
        ("{}", Json::Object(vec![])),
        (
            "[1, true, null]",
            Json::Array(vec![Json::Int(1), Json::Bool(true), Json::Null]),
        ),
        (
            "[[], [[1]], {}]",
            Json::Array(vec![
                Json::Array(vec![]),
                Json::Array(vec![Json::Array(vec![Json::Int(1)])]),
                Json::Object(vec![]),
            ]),
        ),
        (
            r#"{"a":1, "b":2}"#,
            Json::Object(vec![member("a", Json::Int(1)), member("b", Json::Int(2))]),
        ),
        (
            r#"{"a": {"b": ["c", {"d": false}]}, "a": null}"#,
            Json::Object(vec![
                member(
                    "a",
                    Json::Object(vec![member(
                        "b",
                        Json::Array(vec![
                            s("c"),
                            Json::Object(vec![member("d", Json::Bool(false))]),
                        ]),
                    )]),
                ),
                member("a", Json::Null),
            ]),
        ),
        (
            "// leading\n[1, // inner\n 2] // trailing",
            Json::Array(vec![Json::Int(1), Json::Int(2)]),
        ),
        (
            "\"h\u{e9}llo \u{4e16}\u{754c}\"",
            s("h\u{e9}llo \u{4e16}\u{754c}"),
        ),
    ];
    cases
        .into_iter()
        .map(|(input, json)| (input.to_string(), json))
        .collect()
}

/// A small deterministic generator of pseudo-random numbers.
struct Rng(u64);

impl Rng {
    fn next(&mut self) -> u64 {
        self.0 = self
            .0
            .wrapping_mul(6364136223846793005)
            .wrapping_add(1442695040888963407);
        self.0 >> 33
    }

    fn below(&mut self, bound: u64) -> u64 {
        self.next() % bound
    }
}

fn gen_space(rng: &mut Rng, out: &mut String) {
    match rng.below(12) {
        0 => out.push(' '),
        1 => out.push('\n'),
        2 => out.push_str("// note\n"),
        3 => out.push('\t'),
        _ => {}
    }
}

fn gen_text(rng: &mut Rng, out: &mut String) {
    out.push('"');
    for _ in 0..rng.below(8) {
        out.push((b'a' + rng.below(26) as u8) as char);
    }
    out.push('"');
}

fn gen_value(rng: &mut Rng, out: &mut String, depth: usize, budget: &mut usize) {
    let kind = if depth >= 40 || *budget == 0 {
        rng.below(5)
    } else {
        rng.below(9)
    };
    *budget = budget.saturating_sub(1);
    match kind {
        0 => out.push_str(&rng.below(1_000_000).to_string()),
        1 => out.push_str("true"),
        2 => out.push_str("false"),
        3 => out.push_str("null"),
        4 => gen_text(rng, out),
        5 | 6 => {
            out.push('[');
            gen_space(rng, out);
            let n = rng.below(6);
            for i in 0..n {
                if i > 0 {
                    out.push(',');
                    gen_space(rng, out);
                }
                gen_value(rng, out, depth + 1, budget);
                gen_space(rng, out);
            }
            out.push(']');
        }
        _ => {
            out.push('{');
            gen_space(rng, out);
            let n = rng.below(6);
            for i in 0..n {
                if i > 0 {
                    out.push(',');
                    gen_space(rng, out);
                }
                gen_text(rng, out);
                gen_space(rng, out);
                out.push(':');
                gen_space(rng, out);
                gen_value(rng, out, depth + 1, budget);
                gen_space(rng, out);
            }
            out.push('}');
        }
    }
}

/// A valid input of about `size` bytes: an array of generated values.
fn gen_input(size: usize) -> String {
    let mut rng = Rng(size as u64 + 17);
    let mut out = String::with_capacity(size + 64);
    out.push('[');
    let mut first = true;
    while out.len() < size {
        if !first {
            out.push(',');
        }
        first = false;
        gen_space(&mut rng, &mut out);
        let mut budget = 200;
        gen_value(&mut rng, &mut out, 1, &mut budget);
    }
    out.push(']');
    out
}

/// A plain recursive-descent parser, to compare with.
struct Reference<'a> {
    input: &'a str,
    bytes: &'a [u8],
    position: usize,
}

impl<'a> Reference<'a> {
    fn skip_trivia(&mut self) {
        loop {
            while self.position < self.bytes.len()
                && self.bytes[self.position].is_ascii_whitespace()
            {
                self.position += 1;
            }
            if self.bytes[self.position..].starts_with(b"//") {
                while self.position < self.bytes.len() && self.bytes[self.position] != b'\n' {
                    self.position += 1;
                }
            } else {
                return;
            }
        }
    }

    fn text(&mut self) -> String {
        assert_eq!(self.bytes[self.position], b'"');
        let start = self.position + 1;
        let mut end = start;
        while self.bytes[end] != b'"' {
            end += 1;
        }
        self.position = end + 1;
        self.input[start..end].to_string()
    }

    fn value(&mut self) -> Json {
        self.skip_trivia();
        match self.bytes[self.position] {
            b'[' => {
                self.position += 1;
                let mut elements = vec![];
                loop {
                    self.skip_trivia();
                    if self.bytes[self.position] == b']' {
                        self.position += 1;
                        return Json::Array(elements);
                    }
                    if !elements.is_empty() {
                        assert_eq!(self.bytes[self.position], b',');
                        self.position += 1;
                    }
                    elements.push(self.value());
                }
            }
            b'{' => {
                self.position += 1;
                let mut members = vec![];
                loop {
                    self.skip_trivia();
                    if self.bytes[self.position] == b'}' {
                        self.position += 1;
                        return Json::Object(members);
                    }
                    if !members.is_empty() {
                        assert_eq!(self.bytes[self.position], b',');
                        self.position += 1;
                        self.skip_trivia();
                    }
                    let key = self.text();
                    self.skip_trivia();
                    assert_eq!(self.bytes[self.position], b':');
                    self.position += 1;
                    members.push((key, self.value()));
                }
            }
            b'"' => Json::String(self.text()),
            b't' => {
                self.position += 4;
                Json::Bool(true)
            }
            b'f' => {
                self.position += 5;
                Json::Bool(false)
            }
            b'n' => {
                self.position += 4;
                Json::Null
            }
            _ => {
                let mut i: u64 = 0;
                while self.position < self.bytes.len()
                    && self.bytes[self.position].is_ascii_digit()
                {
                    i = i
                        .wrapping_mul(10)
                        .wrapping_add(u64::from(self.bytes[self.position] - b'0'));
                    self.position += 1;
                }
                Json::Int(i)
            }
        }
    }
}

fn reference_parse(input: &str) -> Json {
    let mut reference = Reference {
        input,
        bytes: input.as_bytes(),
        position: 0,
    };
    reference.value()
}

fn pull_parser(input: &str) -> EventParser<Lexer<'_>> {
    parse_events_iter_using_lexer_iter(tokenize_iter(input), input.len())
}

fn pull_results(input: &str) -> Vec<Result<ParseEvent, ParseError>> {
    let mut parser = pull_parser(input);
    let mut results = vec![];
    while let Some(result) = parser.next() {
        results.push(result);
    }
    results
}

fn collect_events_pull(input: &str) -> Vec<ParseEventKind> {
    pull_results(input)
        .into_iter()
        .map(|ev| ev.unwrap().kind)
        .collect()
}

fn push_2_outcome(input: &str) -> (Vec<ParseEvent>, Option<ParseError>) {
    event_push_parser_2::parse(input, PushToEvents::new()).into_events()
}

fn collect_events_push_2(input: &str) -> Vec<ParseEvent> {
    let (events, error) = push_2_outcome(input);
    assert_eq!(error, None);
    events
}

fn push_3_non_recursive_outcome(input: &str) -> (Vec<ParseEvent>, Option<ParseError>) {
    let mut listener = PushToEvents::new();
    event_push_parser_3_non_recursive::parse(
        &mut tokenize_iter(input),
        &mut listener,
        input.len(),
    );
    listener.into_events()
}

fn collect_events_push_3_non_recursive(input: &str) -> Vec<ParseEvent> {
    let (events, error) = push_3_non_recursive_outcome(input);
    assert_eq!(error, None);
    events
}

fn collect_events_push_3(input: &str) -> Vec<ParseEvent> {
    let mut listener = PushToEvents::new();
    event_push_parser_3::parse(tokenize_iter(input), &mut listener, input.len());
    let (events, error) = listener.into_events();
    assert_eq!(error, None);
    events
}

fn kinds(events: Vec<ParseEvent>) -> Vec<ParseEventKind> {
    events.into_iter().map(|ev| ev.kind).collect()
}

fn tree_of_events(events: Vec<ParseEvent>, input: &str) -> Json {
    event_to_tree(&mut EventList::new(events), input).unwrap()
}

#[test]
fn event_to_tree_event_to_tree_tests() {
    for (str, ast) in ast_cases() {
        let mut parser = pull_parser(&str);
        let ast_ = event_to_tree(&mut parser, &str).unwrap();
        assert_eq!(ast_, ast);
    }
}

#[test]
fn ast_tests() {
    for (str, ast) in ast_cases() {
        println!("Parsing {:?}", str);
        assert_eq!(direct_non_recursive::parse(&str).unwrap(), ast);
    }
}

#[test]
fn direct_non_recursive_event_to_tree_random_tests() {
    for input_size in [10, 100, 1_000, 2_000, 5_000, 10_000, 10_000_000] {
        let input = gen_input(input_size);
        let ast_1 = reference_parse(&input);
        let ast_2 = direct_non_recursive::parse(&input).unwrap();
        assert_eq!(ast_1, ast_2);
    }
}

#[test]
fn event_parser_2_event_tests() {
    for (str, events) in event_cases() {
        println!("Parsing {:?}", str);
        let events_ = collect_events_pull(&str);
        assert_eq!(events_, events);
    }
}

#[test]
fn event_parser_2_event_to_tree_tests() {
    for (str, ast) in ast_cases() {
        let mut parser = parse_events_iter_using_lexer_iter(tokenize_iter(&str), str.len());
        let ast_ = event_to_tree(&mut parser, &str).unwrap();
        assert_eq!(ast_, ast);
    }
}

#[test]
fn event_parser_2_event_to_tree_random_tests() {
    for input_size in [10, 100, 1_000, 2_000, 5_000, 10_000] {
        let input = gen_input(input_size);
        let event_ast = event_to_tree(
            &mut parse_events_iter_using_lexer_iter(Lexer::new(&input), input.len()),
            &input,
        )
        .unwrap();
        let ast = reference_parse(&input);
        assert_eq!(event_ast, ast);
    }
}

#[test]
fn event_push_parser_2_event_tests() {
    for (str, events) in event_cases() {
        println!("Parsing {:?}", str);
        let events_ = kinds(collect_events_push_2(&str));
        assert_eq!(events_, events);
    }
}

#[test]
fn event_push_parser_2_event_to_tree_tests() {
    for (str, ast) in ast_cases() {
        let events = collect_events_push_2(&str);
        let ast_ = tree_of_events(events, &str);
        assert_eq!(ast_, ast);
    }
}

#[test]
fn event_push_parser_2_event_to_tree_random_tests() {
    for input_size in [10, 100, 1_000, 2_000, 5_000, 10_000, 10_000_000] {
        let input = gen_input(input_size);
        let events = collect_events_push_2(&input);
        let event_ast = tree_of_events(events, &input);
        let ast = reference_parse(&input);
        assert_eq!(event_ast, ast);
    }
}

#[test]
fn event_push_parser_3_event_tests() {
    for (str, events) in event_cases() {
        println!("Parsing {:?}", str);
        let events_ = kinds(collect_events_push_3(&str));
        assert_eq!(events_, events);
    }
}

#[test]
fn event_push_parser_3_event_to_tree_tests() {
    for (str, ast) in ast_cases() {
        let events = collect_events_push_3(&str);
        let ast_ = tree_of_events(events, &str);
        assert_eq!(ast_, ast);
    }
}

#[test]
fn event_push_parser_3_event_to_tree_random_tests() {
    for input_size in [10, 100, 1_000, 2_000, 5_000, 10_000, 10_000_000] {
        let input = gen_input(input_size);
        let events = collect_events_push_3(&input);
        let event_ast = tree_of_events(events, &input);
        let ast = reference_parse(&input);
        assert_eq!(event_ast, ast);
    }
}

#[test]
fn event_push_parser_3_non_recursive_event_tests() {
    for (str, events) in event_cases() {
        println!("Parsing {:?}", str);
        let events_ = kinds(collect_events_push_3_non_recursive(&str));
        assert_eq!(events_, events);
    }
}

#[test]
fn event_push_parser_3_non_recursive_event_to_tree_tests() {
    for (str, ast) in ast_cases() {
        let events = collect_events_push_3_non_recursive(&str);
        let ast_ = tree_of_events(events, &str);
        assert_eq!(ast_, ast);
    }
}

#[test]
fn event_push_parser_3_non_recursive_event_to_tree_random_tests() {
    for input_size in [10, 100, 1_000, 2_000, 5_000, 10_000, 10_000_000] {
        let input = gen_input(input_size);
        let events = collect_events_push_3_non_recursive(&input);
        let event_ast = tree_of_events(events, &input);
        let ast = reference_parse(&input);
        assert_eq!(event_ast, ast);
    }
}
