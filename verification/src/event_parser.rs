//! The grammar: what every token does to the parser, as a specification and
//! as the state machine that all the event parsers drive.

use vstd::prelude::*;
use crate::ParseError;
use crate::event::{EventResult, ParseEvent, ParseEventKind};
use crate::event_listener::{
    calls_of, events_delivered, lemma_events_delivered_push, EventListener,
};
use crate::parse_parts::unread;
use crate::token::{Token, TokenResult, TokenSource};

verus! {

/// The kind of a container that is open.
#[derive(Debug, Clone, Copy, PartialEq, Eq, Structural)]
pub enum Container {
    Array,
    Object,
}

/// What the parser expects next.
#[derive(Debug, Clone, Copy, PartialEq, Eq, Structural)]
pub enum ParserState {
    /// Any value: at the start, after a `,` in an array, after a `:`.
    TopLevel,
    /// A value or `]`: right after `[`.
    ArrayExpectValueOrClose,
    /// `,` or `]`: after a value in an array.
    AfterValueInArray,
    /// `,` or `}`: after a value in an object.
    AfterValueInObject,
    /// A key: after a `,` in an object.
    ObjectExpectKey,
    /// A key or `}`: right after `{`.
    ObjectExpectKeyOrClose,
    /// `:`: after a key.
    ObjectExpectColon,
    /// Nothing but comments: the value is complete.
    Done,
    /// Nothing at all: an error was reported.
    Failed,
}

/// The state of the parser together with the containers that are open,
/// outermost first.
pub ghost struct Configuration {
    pub state: ParserState,
    pub stack: Seq<Container>,
}

/// What one token does to the parser: the configuration it leaves, and the
/// event or error it gives rise to, if any.
pub ghost struct Reaction {
    pub next: Configuration,
    pub output: Option<EventResult>,
}

/// The configuration in which every parse starts.
pub open spec fn initial() -> Configuration {
    Configuration { state: ParserState::TopLevel, stack: Seq::empty() }
}

/// The state in which a value leaves the parser: what comes next is decided
/// by the innermost open container.
pub open spec fn after_value(stack: Seq<Container>) -> ParserState {
    if stack.len() == 0 {
        ParserState::Done
    } else {
        match stack.last() {
            Container::Array => ParserState::AfterValueInArray,
            Container::Object => ParserState::AfterValueInObject,
        }
    }
}

/// Whether a value may come next.
pub open spec fn expects_value(state: ParserState) -> bool {
    state is TopLevel || state is ArrayExpectValueOrClose
}

/// Whether a key may come next.
pub open spec fn expects_key(state: ParserState) -> bool {
    state is ObjectExpectKey || state is ObjectExpectKeyOrClose
}

/// Whether a container of the given kind may be closed next.
pub open spec fn expects_close(state: ParserState, kind: Container) -> bool {
    match kind {
        Container::Array => state is ArrayExpectValueOrClose || state is AfterValueInArray,
        Container::Object => state is ObjectExpectKeyOrClose || state is AfterValueInObject,
    }
}

/// The token is passed on as an event; the stack stays as it is.
pub open spec fn emit(
    c: Configuration,
    state: ParserState,
    byte_offset: usize,
    kind: ParseEventKind,
) -> Reaction {
    Reaction {
        next: Configuration { state, stack: c.stack },
        output: Some(Ok(ParseEvent { kind, byte_offset })),
    }
}

/// The token is consumed without an event.
pub open spec fn silent(c: Configuration, state: ParserState) -> Reaction {
    Reaction { next: Configuration { state, stack: c.stack }, output: None }
}

/// The parse ends with an error.
pub open spec fn fail(c: Configuration, error: ParseError) -> Reaction {
    Reaction {
        next: Configuration { state: ParserState::Failed, stack: c.stack },
        output: Some(Err(error)),
    }
}

/// A scalar value: it is passed on, and what comes next is decided by the
/// innermost open container.
pub open spec fn scalar(c: Configuration, byte_offset: usize, kind: ParseEventKind) -> Reaction {
    if expects_value(c.state) {
        emit(c, after_value(c.stack), byte_offset, kind)
    } else {
        fail(c, ParseError::unexpected_token(byte_offset))
    }
}

/// An opening delimiter: a container of the given kind is pushed.
pub open spec fn open_container(c: Configuration, byte_offset: usize, kind: Container) -> Reaction {
    if expects_value(c.state) {
        match kind {
            Container::Array => Reaction {
                next: Configuration {
                    state: ParserState::ArrayExpectValueOrClose,
                    stack: c.stack.push(kind),
                },
                output: Some(Ok(ParseEvent { kind: ParseEventKind::StartArray, byte_offset })),
            },
            Container::Object => Reaction {
                next: Configuration {
                    state: ParserState::ObjectExpectKeyOrClose,
                    stack: c.stack.push(kind),
                },
                output: Some(Ok(ParseEvent { kind: ParseEventKind::StartObject, byte_offset })),
            },
        }
    } else {
        fail(c, ParseError::unexpected_token(byte_offset))
    }
}

/// A closing delimiter for a container of the given kind. Where the
/// innermost open container is of another kind, or none is open, the error
/// names the delimiter. Where it matches, but a value, a key or a colon has
/// to come first, the delimiter is an unexpected token. Otherwise the
/// container is popped.
pub open spec fn close_container(
    c: Configuration,
    byte_offset: usize,
    kind: Container,
) -> Reaction {
    if c.stack.len() > 0 && c.stack.last() == kind {
        if expects_close(c.state, kind) {
            let stack = c.stack.drop_last();
            Reaction {
                next: Configuration { state: after_value(stack), stack },
                output: Some(
                    Ok(
                        ParseEvent {
                            kind: match kind {
                                Container::Array => ParseEventKind::EndArray,
                                Container::Object => ParseEventKind::EndObject,
                            },
                            byte_offset,
                        },
                    ),
                ),
            }
        } else {
            fail(c, ParseError::unexpected_token(byte_offset))
        }
    } else {
        fail(
            c,
            match kind {
                Container::Array => ParseError::unexpected_bracket(byte_offset),
                Container::Object => ParseError::unexpected_brace(byte_offset),
            },
        )
    }
}

/// The grammar: what the token at `byte_offset` does in configuration `c`,
/// which has not failed.
///
/// Comments are passed on in every state. Once the value is complete, any
/// other token is trailing.
pub open spec fn accept(c: Configuration, byte_offset: usize, token: Token) -> Reaction {
    match token {
        Token::Comment { size_in_bytes } => emit(
            c,
            c.state,
            byte_offset,
            ParseEventKind::Comment { size_in_bytes },
        ),
        _ => if c.state is Done {
            fail(c, ParseError::trailing_tokens(byte_offset))
        } else {
            match token {
                Token::LBracket => open_container(c, byte_offset, Container::Array),
                Token::LBrace => open_container(c, byte_offset, Container::Object),
                Token::RBracket => close_container(c, byte_offset, Container::Array),
                Token::RBrace => close_container(c, byte_offset, Container::Object),
                Token::Int(i) => scalar(c, byte_offset, ParseEventKind::Int(i)),
                Token::True => scalar(c, byte_offset, ParseEventKind::Bool(true)),
                Token::False => scalar(c, byte_offset, ParseEventKind::Bool(false)),
                Token::Null => scalar(c, byte_offset, ParseEventKind::Null),
                Token::Str { size_in_bytes } => if expects_key(c.state) {
                    emit(
                        c,
                        ParserState::ObjectExpectColon,
                        byte_offset,
                        ParseEventKind::Str { size_in_bytes },
                    )
                } else {
                    scalar(c, byte_offset, ParseEventKind::Str { size_in_bytes })
                },
                Token::Colon => if c.state is ObjectExpectColon {
                    silent(c, ParserState::TopLevel)
                } else {
                    fail(c, ParseError::unexpected_token(byte_offset))
                },
                Token::Comma => if c.state is AfterValueInArray {
                    silent(c, ParserState::TopLevel)
                } else if c.state is AfterValueInObject {
                    silent(c, ParserState::ObjectExpectKey)
                } else {
                    fail(c, ParseError::unexpected_token(byte_offset))
                },
                Token::Comment { size_in_bytes } => emit(
                    c,
                    c.state,
                    byte_offset,
                    ParseEventKind::Comment { size_in_bytes },
                ),
            }
        },
    }
}

/// What an item of the token source does in configuration `c`. After a
/// failure nothing has any effect; a lexical error is a failure.
pub open spec fn react(c: Configuration, item: TokenResult) -> Reaction {
    if c.state is Failed {
        Reaction { next: c, output: None }
    } else {
        match item {
            Ok((byte_offset, token)) => accept(c, byte_offset, token),
            Err(byte_offset) => fail(c, ParseError::invalid_token(byte_offset)),
        }
    }
}

/// What the end of the input does in configuration `c`: it is an error unless
/// the value is complete. The error is reported at `input_size`.
pub open spec fn finish(c: Configuration, input_size: usize) -> Reaction {
    if c.state is Done || c.state is Failed {
        Reaction { next: c, output: None }
    } else {
        fail(c, ParseError::unexpected_end_of_input(input_size))
    }
}

/// Everything that parsing `items` yields from configuration `c` on: the
/// events in order and, last, the error that ends the parse, if there is one.
pub open spec fn run(c: Configuration, items: Seq<TokenResult>, input_size: usize) -> Seq<
    EventResult,
>
    decreases items.len(),
{
    if c.state is Failed {
        Seq::empty()
    } else if items.len() == 0 {
        calls_of(finish(c, input_size).output)
    } else {
        let reaction = react(c, items[0]);
        calls_of(reaction.output) + run(reaction.next, items.drop_first(), input_size)
    }
}

/// Everything that parsing `items` yields.
pub open spec fn parse_events(items: Seq<TokenResult>, input_size: usize) -> Seq<EventResult> {
    run(initial(), items, input_size)
}

/// The configuration in which a parse is once its value is complete.
pub open spec fn done() -> Configuration {
    Configuration { state: ParserState::Done, stack: Seq::empty() }
}

/// Comments pass through: unless the parse has failed, a comment gives rise
/// to a comment event at its offset and of its size, whatever the parser
/// expects, and leaves the parser as it is.
pub proof fn lemma_comments_pass_through(
    c: Configuration,
    byte_offset: usize,
    size_in_bytes: usize,
)
    requires
        !(c.state is Failed),
    ensures
        react(c, Ok((byte_offset, Token::Comment { size_in_bytes }))) == (Reaction {
            next: c,
            output: Some(
                Ok(ParseEvent { kind: ParseEventKind::Comment { size_in_bytes }, byte_offset }),
            ),
        }),
{
}

/// Once the value is complete, any token but a comment is an error at the
/// offset of the token.
pub proof fn lemma_trailing_data_fails(c: Configuration, byte_offset: usize, token: Token)
    requires
        c.state is Done,
        !(token is Comment),
    ensures
        react(c, Ok((byte_offset, token))) == fail(c, ParseError::trailing_tokens(byte_offset)),
{
}

/// No comma may trail the last element or member: behind a comma, the
/// delimiter that would close the container is an unexpected token at its
/// own offset.
pub proof fn lemma_no_trailing_comma(c: Configuration, comma: usize, byte_offset: usize)
    requires
        consistent(c),
        c.state is AfterValueInArray || c.state is AfterValueInObject,
    ensures
        c.state is AfterValueInArray ==> react(
            react(c, Ok((comma, Token::Comma))).next,
            Ok((byte_offset, Token::RBracket)),
        ).output == Some(
            Err::<ParseEvent, ParseError>(ParseError::unexpected_token(byte_offset)),
        ),
        c.state is AfterValueInObject ==> react(
            react(c, Ok((comma, Token::Comma))).next,
            Ok((byte_offset, Token::RBrace)),
        ).output == Some(
            Err::<ParseEvent, ParseError>(ParseError::unexpected_token(byte_offset)),
        ),
{
}

/// What a token gives rise to carries the offset of the token: the event,
/// and the error too.
pub proof fn lemma_offsets_are_kept(c: Configuration, byte_offset: usize, token: Token)
    ensures
        match react(c, Ok((byte_offset, token))).output {
            Some(Ok(event)) => event.byte_offset == byte_offset,
            Some(Err(error)) => error.byte_offset == byte_offset,
            None => true,
        },
{
}

/// Whether the state of a configuration agrees with its stack.
pub open spec fn consistent(c: Configuration) -> bool {
    match c.state {
        ParserState::TopLevel => true,
        ParserState::ArrayExpectValueOrClose | ParserState::AfterValueInArray => c.stack.len() > 0
            && c.stack.last() is Array,
        ParserState::AfterValueInObject
        | ParserState::ObjectExpectKey
        | ParserState::ObjectExpectKeyOrClose
        | ParserState::ObjectExpectColon => c.stack.len() > 0 && c.stack.last() is Object,
        ParserState::Done => c.stack.len() == 0,
        ParserState::Failed => true,
    }
}

/// Every token leaves the state of the parser in agreement with its stack.
pub proof fn lemma_react_consistent(c: Configuration, item: TokenResult)
    requires
        consistent(c),
    ensures
        consistent(react(c, item).next),
{
}

/// Takes what trails a complete value: comments are delivered, and anything
/// else is an error, which ends the delivery.
pub fn check_trailing<L: EventListener, I: TokenSource>(
    lexer: &mut I,
    listener: &mut L,
    input_size: usize,
)
    ensures
        events_delivered(
            final(listener),
            old(listener),
            run(done(), old(lexer).remaining(), input_size),
        ),
        final(lexer).remaining() == unread(done(), old(lexer).remaining()),
{
    let ghost trailing = lexer.remaining();
    let ghost mut sent: Seq<EventResult> = Seq::empty();
    assert(run(done(), trailing, input_size) =~= sent + run(done(), trailing, input_size));
    loop
        invariant_except_break
            run(done(), trailing, input_size) == sent + run(
                done(),
                lexer.remaining(),
                input_size,
            ),
            unread(done(), trailing) == unread(done(), lexer.remaining()),
        invariant
            events_delivered(listener, old(listener), sent),
        ensures
            run(done(), trailing, input_size) == sent,
            unread(done(), trailing) == lexer.remaining(),
        decreases lexer.remaining().len(),
    {
        let ghost before = *listener;
        let ghost rest = lexer.remaining();
        match lexer.next() {
            Some(Ok((byte_offset, t))) => match t {
                Token::Comment { size_in_bytes } => {
                    listener.handle_comment(byte_offset, size_in_bytes);
                    proof {
                        let call = react(done(), rest[0]).output->Some_0;
                        lemma_events_delivered_push(listener, &before, old(listener), sent, call);
                        assert(react(done(), rest[0]).next =~= done());
                        assert(run(done(), trailing, input_size) =~= sent.push(call) + run(
                            done(),
                            lexer.remaining(),
                            input_size,
                        ));
                        sent = sent.push(call);
                    }
                },
                _ => {
                    listener.handle_error(ParseError { byte_offset, reason: "trailing tokens" });
                    proof {
                        let reaction = react(done(), rest[0]);
                        let call = reaction.output->Some_0;
                        lemma_events_delivered_push(listener, &before, old(listener), sent, call);
                        assert(run(reaction.next, rest.drop_first(), input_size) =~= Seq::<
                            EventResult,
                        >::empty());
                        assert(run(done(), rest, input_size) =~= seq![call]);
                        assert(run(done(), trailing, input_size) =~= sent.push(call));
                        assert(unread(done(), rest) == unread(reaction.next, rest.drop_first()));
                        sent = sent.push(call);
                    }
                    break ;
                },
            },
            Some(Err(byte_offset)) => {
                listener.handle_error(ParseError { byte_offset, reason: "invalid token" });
                proof {
                    let reaction = react(done(), rest[0]);
                    let call = reaction.output->Some_0;
                    lemma_events_delivered_push(listener, &before, old(listener), sent, call);
                    assert(run(reaction.next, rest.drop_first(), input_size) =~= Seq::<
                        EventResult,
                    >::empty());
                    assert(run(done(), rest, input_size) =~= seq![call]);
                    assert(run(done(), trailing, input_size) =~= sent.push(call));
                    assert(unread(done(), rest) == unread(reaction.next, rest.drop_first()));
                    sent = sent.push(call);
                }
                break ;
            },
            None => {
                assert(sent + run(done(), rest, input_size) =~= sent);
                break ;
            },
        }
    }
}

/// The state machine that both event parsers drive: the parser state and the
/// stack of open containers.
pub struct Machine {
    state: ParserState,
    container_stack: Vec<Container>,
}

impl View for Machine {
    type V = Configuration;

    closed spec fn view(&self) -> Configuration {
        Configuration { state: self.state, stack: self.container_stack@ }
    }
}

impl Machine {
    /// A machine in the initial configuration.
    pub fn new() -> (machine: Machine)
        ensures
            machine@ == initial(),
    {
        Machine { state: ParserState::TopLevel, container_stack: Vec::new() }
    }

    /// The state of the machine.
    pub fn state(&self) -> (state: ParserState)
        ensures
            state == self@.state,
    {
        self.state
    }

    /// How many containers are open.
    pub fn depth(&self) -> (depth: usize)
        ensures
            depth == self@.stack.len(),
    {
        self.container_stack.len()
    }

    /// Takes one item of the token source.
    pub fn feed(&mut self, item: TokenResult) -> (output: Option<EventResult>)
        ensures
            (Reaction { next: final(self)@, output }) == react(old(self)@, item),
    {
        match self.state {
            ParserState::Failed => None,
            _ => match item {
                Ok((byte_offset, token)) => self.accept(byte_offset, token),
                Err(byte_offset) => self.fail(
                    ParseError { byte_offset, reason: "invalid token" },
                ),
            },
        }
    }

    /// Takes the end of the input.
    pub fn end_of_input(&mut self, input_size: usize) -> (output: Option<EventResult>)
        ensures
            (Reaction { next: final(self)@, output }) == finish(old(self)@, input_size),
    {
        match self.state {
            ParserState::Done | ParserState::Failed => None,
            _ => self.fail(
                ParseError { byte_offset: input_size, reason: "unexpected end of input" },
            ),
        }
    }

    /// Takes one token, by the state that the machine is in.
    fn accept(&mut self, byte_offset: usize, token: Token) -> (output: Option<EventResult>)
        requires
            !(old(self)@.state is Failed),
        ensures
            (Reaction { next: final(self)@, output }) == accept(old(self)@, byte_offset, token),
    {
        match self.state {
            ParserState::TopLevel | ParserState::ArrayExpectValueOrClose => self.top_level(
                byte_offset,
                token,
            ),
            ParserState::Done => self.done(byte_offset, token),
            ParserState::AfterValueInObject => self.object_expect_comma(byte_offset, token),
            ParserState::ObjectExpectKey
            | ParserState::ObjectExpectKeyOrClose => self.object_expect_key_value(
                byte_offset,
                token,
            ),
            ParserState::ObjectExpectColon => self.object_expect_colon(byte_offset, token),
            ParserState::AfterValueInArray => self.array_expect_comma(byte_offset, token),
            ParserState::Failed => None,
        }
    }

    /// A value is expected.
    fn top_level(&mut self, byte_offset: usize, token: Token) -> (output: Option<EventResult>)
        requires
            expects_value(old(self)@.state),
        ensures
            (Reaction { next: final(self)@, output }) == accept(old(self)@, byte_offset, token),
    {
        match token {
            Token::LBracket => {
                self.container_stack.push(Container::Array);
                self.state = ParserState::ArrayExpectValueOrClose;
                Some(Ok(ParseEvent::new(byte_offset, ParseEventKind::StartArray)))
            },
            Token::RBracket => self.pop_array(byte_offset),
            Token::LBrace => {
                self.container_stack.push(Container::Object);
                self.state = ParserState::ObjectExpectKeyOrClose;
                Some(Ok(ParseEvent::new(byte_offset, ParseEventKind::StartObject)))
            },
            Token::True => {
                self.update_state();
                Some(Ok(ParseEvent::new(byte_offset, ParseEventKind::Bool(true))))
            },
            Token::False => {
                self.update_state();
                Some(Ok(ParseEvent::new(byte_offset, ParseEventKind::Bool(false))))
            },
            Token::Null => {
                self.update_state();
                Some(Ok(ParseEvent::new(byte_offset, ParseEventKind::Null)))
            },
            Token::Int(i) => {
                self.update_state();
                Some(Ok(ParseEvent::new(byte_offset, ParseEventKind::Int(i))))
            },
            Token::Str { size_in_bytes } => {
                self.update_state();
                Some(Ok(ParseEvent::new(byte_offset, ParseEventKind::Str { size_in_bytes })))
            },
            Token::Comment { size_in_bytes } => Some(
                Ok(ParseEvent::new(byte_offset, ParseEventKind::Comment { size_in_bytes })),
            ),
            Token::RBrace => self.pop_object(byte_offset),
            Token::Colon | Token::Comma => self.fail(
                ParseError { byte_offset, reason: "unexpected token" },
            ),
        }
    }

    /// The value is complete: only comments may follow.
    fn done(&mut self, byte_offset: usize, token: Token) -> (output: Option<EventResult>)
        requires
            old(self)@.state is Done,
        ensures
            (Reaction { next: final(self)@, output }) == accept(old(self)@, byte_offset, token),
    {
        match token {
            Token::Comment { size_in_bytes } => Some(
                Ok(ParseEvent::new(byte_offset, ParseEventKind::Comment { size_in_bytes })),
            ),
            _ => self.fail(ParseError { byte_offset, reason: "trailing tokens" }),
        }
    }

    /// After a value in an array: `,` or `]`.
    fn array_expect_comma(&mut self, byte_offset: usize, token: Token) -> (output: Option<
        EventResult,
    >)
        requires
            old(self)@.state is AfterValueInArray,
        ensures
            (Reaction { next: final(self)@, output }) == accept(old(self)@, byte_offset, token),
    {
        match token {
            Token::Comma => {
                self.state = ParserState::TopLevel;
                None
            },
            Token::RBracket => self.pop_array(byte_offset),
            Token::RBrace => self.pop_object(byte_offset),
            Token::Comment { size_in_bytes } => Some(
                Ok(ParseEvent::new(byte_offset, ParseEventKind::Comment { size_in_bytes })),
            ),
            _ => self.fail(ParseError { byte_offset, reason: "unexpected token" }),
        }
    }

    /// In an object, where a key is expected: a string, or `}` right after
    /// `{`.
    fn object_expect_key_value(&mut self, byte_offset: usize, token: Token) -> (output: Option<
        EventResult,
    >)
        requires
            expects_key(old(self)@.state),
        ensures
            (Reaction { next: final(self)@, output }) == accept(old(self)@, byte_offset, token),
    {
        match token {
            Token::RBrace => self.pop_object(byte_offset),
            Token::RBracket => self.pop_array(byte_offset),
            Token::Str { size_in_bytes } => {
                self.state = ParserState::ObjectExpectColon;
                Some(Ok(ParseEvent::new(byte_offset, ParseEventKind::Str { size_in_bytes })))
            },
            Token::Comment { size_in_bytes } => Some(
                Ok(ParseEvent::new(byte_offset, ParseEventKind::Comment { size_in_bytes })),
            ),
            _ => self.fail(ParseError { byte_offset, reason: "unexpected token" }),
        }
    }

    /// After a key: `:`.
    fn object_expect_colon(&mut self, byte_offset: usize, token: Token) -> (output: Option<
        EventResult,
    >)
        requires
            old(self)@.state is ObjectExpectColon,
        ensures
            (Reaction { next: final(self)@, output }) == accept(old(self)@, byte_offset, token),
    {
        match token {
            Token::Colon => {
                self.state = ParserState::TopLevel;
                None
            },
            Token::RBrace => self.pop_object(byte_offset),
            Token::RBracket => self.pop_array(byte_offset),
            Token::Comment { size_in_bytes } => Some(
                Ok(ParseEvent::new(byte_offset, ParseEventKind::Comment { size_in_bytes })),
            ),
            _ => self.fail(ParseError { byte_offset, reason: "unexpected token" }),
        }
    }

    /// After a value in an object: `,` or `}`.
    fn object_expect_comma(&mut self, byte_offset: usize, token: Token) -> (output: Option<
        EventResult,
    >)
        requires
            old(self)@.state is AfterValueInObject,
        ensures
            (Reaction { next: final(self)@, output }) == accept(old(self)@, byte_offset, token),
    {
        match token {
            Token::Comma => {
                self.state = ParserState::ObjectExpectKey;
                None
            },
            Token::RBrace => self.pop_object(byte_offset),
            Token::RBracket => self.pop_array(byte_offset),
            Token::Comment { size_in_bytes } => Some(
                Ok(ParseEvent::new(byte_offset, ParseEventKind::Comment { size_in_bytes })),
            ),
            _ => self.fail(ParseError { byte_offset, reason: "unexpected token" }),
        }
    }

    /// Sets the state that follows a value.
    fn update_state(&mut self)
        ensures
            final(self)@ == (Configuration {
                state: after_value(old(self)@.stack),
                stack: old(self)@.stack,
            }),
    {
        let depth = self.container_stack.len();
        self.state = if depth == 0 {
            ParserState::Done
        } else {
            match self.container_stack[depth - 1] {
                Container::Array => ParserState::AfterValueInArray,
                Container::Object => ParserState::AfterValueInObject,
            }
        };
    }

    /// Whether the innermost open container is of the given kind.
    fn innermost_is(&self, kind: Container) -> (same: bool)
        ensures
            same == (self@.stack.len() > 0 && self@.stack.last() == kind),
    {
        let depth = self.container_stack.len();
        depth > 0 && self.container_stack[depth - 1] == kind
    }

    /// Takes a `]`.
    fn pop_array(&mut self, byte_offset: usize) -> (output: Option<EventResult>)
        requires
            !(old(self)@.state is Failed),
        ensures
            (Reaction { next: final(self)@, output }) == close_container(
                old(self)@,
                byte_offset,
                Container::Array,
            ),
    {
        if !self.innermost_is(Container::Array) {
            self.fail(ParseError { byte_offset, reason: "unexpected ']'" })
        } else {
            match self.state {
                ParserState::ArrayExpectValueOrClose | ParserState::AfterValueInArray => {
                    self.container_stack.pop();
                    self.update_state();
                    Some(Ok(ParseEvent::new(byte_offset, ParseEventKind::EndArray)))
                },
                _ => self.fail(ParseError { byte_offset, reason: "unexpected token" }),
            }
        }
    }

    /// Takes a `}`.
    fn pop_object(&mut self, byte_offset: usize) -> (output: Option<EventResult>)
        requires
            !(old(self)@.state is Failed),
        ensures
            (Reaction { next: final(self)@, output }) == close_container(
                old(self)@,
                byte_offset,
                Container::Object,
            ),
    {
        if !self.innermost_is(Container::Object) {
            self.fail(ParseError { byte_offset, reason: "unexpected '}'" })
        } else {
            match self.state {
                ParserState::ObjectExpectKeyOrClose | ParserState::AfterValueInObject => {
                    self.container_stack.pop();
                    self.update_state();
                    Some(Ok(ParseEvent::new(byte_offset, ParseEventKind::EndObject)))
                },
                _ => self.fail(ParseError { byte_offset, reason: "unexpected token" }),
            }
        }
    }

    /// Ends the parse with `error`.
    fn fail(&mut self, error: ParseError) -> (output: Option<EventResult>)
        ensures
            (Reaction { next: final(self)@, output }) == fail(old(self)@, error),
    {
        self.state = ParserState::Failed;
        Some(Err(error))
    }
}

} // verus!
