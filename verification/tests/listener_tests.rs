use parsing_post::{
    parse_events_push_using_lexer_iter_non_recursive, parse_events_push_using_lexer_push,
    tokenize_iter, tokenize_push, EventListener, LexerEventListener, ParseError, ParseEvent, Token,
};

/// A listener that counts what it is handed.
struct Counter {
    values: usize,
    containers: usize,
    comments: usize,
    errors: Vec<ParseError>,
}

impl Counter {
    fn new() -> Counter {
        Counter {
            values: 0,
            containers: 0,
            comments: 0,
            errors: vec![],
        }
    }
}

impl EventListener for Counter {
    fn after_event(&self, _before: &Self, _call: Result<ParseEvent, ParseError>) -> bool {
        true
    }

    fn handle_start_object(&mut self, _byte_offset: usize) {
        self.containers += 1;
    }

    fn handle_end_object(&mut self, _byte_offset: usize) {}

    fn handle_start_array(&mut self, _byte_offset: usize) {
        self.containers += 1;
    }

    fn handle_end_array(&mut self, _byte_offset: usize) {}

    fn handle_int(&mut self, _byte_offset: usize, _i: u64) {
        self.values += 1;
    }

    fn handle_str(&mut self, _byte_offset: usize, _size_in_bytes: usize) {
        self.values += 1;
    }

    fn handle_bool(&mut self, _byte_offset: usize, _b: bool) {
        self.values += 1;
    }

    fn handle_null(&mut self, _byte_offset: usize) {
        self.values += 1;
    }

    fn handle_comment(&mut self, _byte_offset: usize, _size_in_bytes: usize) {
        self.comments += 1;
    }

    fn handle_error(&mut self, error: ParseError) {
        self.errors.push(error);
    }
}

/// A listener that keeps the offsets of the tokens it is handed.
struct Offsets(Vec<usize>);

impl LexerEventListener for Offsets {
    fn after_token(&self, _before: &Self, _item: Result<(usize, Token), usize>) -> bool {
        true
    }

    fn handle_int(&mut self, byte_offset: usize, _i: u64) {
        self.0.push(byte_offset);
    }

    fn handle_str(&mut self, byte_offset: usize, _size_in_bytes: usize) {
        self.0.push(byte_offset);
    }

    fn handle_true(&mut self, byte_offset: usize) {
        self.0.push(byte_offset);
    }

    fn handle_false(&mut self, byte_offset: usize) {
        self.0.push(byte_offset);
    }

    fn handle_null(&mut self, byte_offset: usize) {
        self.0.push(byte_offset);
    }

    fn handle_lbracket(&mut self, byte_offset: usize) {
        self.0.push(byte_offset);
    }

    fn handle_rbracket(&mut self, byte_offset: usize) {
        self.0.push(byte_offset);
    }

    fn handle_lbrace(&mut self, byte_offset: usize) {
        self.0.push(byte_offset);
    }

    fn handle_rbrace(&mut self, byte_offset: usize) {
        self.0.push(byte_offset);
    }

    fn handle_colon(&mut self, byte_offset: usize) {
        self.0.push(byte_offset);
    }

    fn handle_comma(&mut self, byte_offset: usize) {
        self.0.push(byte_offset);
    }

    fn handle_comment(&mut self, byte_offset: usize, _size_in_bytes: usize) {
        self.0.push(byte_offset);
    }

    fn handle_error(&mut self, byte_offset: usize) {
        self.0.push(byte_offset);
    }
}

#[test]
fn a_listener_is_called_once_per_event() {
    let input = "{\"a\": [1, true, null], // c\n \"b\": \"x\"}";
    let mut counter = Counter::new();
    parse_events_push_using_lexer_iter_non_recursive(
        &mut tokenize_iter(input),
        &mut counter,
        input.len(),
    );
    assert_eq!(counter.values, 6);
    assert_eq!(counter.containers, 2);
    assert_eq!(counter.comments, 1);
    assert_eq!(counter.errors, vec![]);
}

#[test]
fn a_listener_is_handed_one_error_at_most() {
    let counter = parse_events_push_using_lexer_push("[1, 2 3, ?, ]]", Counter::new());
    assert_eq!(counter.values, 2);
    assert_eq!(
        counter.errors,
        vec![ParseError {
            byte_offset: 6,
            reason: "unexpected token"
        }]
    );
}

#[test]
fn a_lexer_listener_is_called_once_per_token() {
    let mut offsets = Offsets(vec![]);
    tokenize_push("[1, \"a\" // c\n: nul 7", &mut offsets);
    assert_eq!(offsets.0, vec![0, 1, 2, 5, 8, 13, 15]);
}
