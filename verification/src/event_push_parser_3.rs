//! A push parser over a token source, by recursive descent.

use vstd::prelude::*;
use crate::ParseError;
use crate::event::{EventResult, ParseEvent};
use crate::event_listener::{
    events_delivered, lemma_events_delivered_concat, lemma_events_delivered_push, EventListener,
};
use crate::event_parser::{
    after_value, check_trailing, done, initial, parse_events, react, run, Configuration, Container,
    ParserState,
};
use crate::parse_parts::{
    lemma_nested_inner, lemma_nested_then_run, nested, prepend, settled, Nested,
};
use crate::token::{Token, TokenResult, TokenSource};

verus! {

/// Parses the tokens of `lexer` by recursive descent and delivers every event
/// to the listener as soon as it is known. Every nested container costs one
/// level of recursion.
///
/// The listener is handed exactly what the grammar yields for the tokens:
/// the events in order and, last, the first error, if there is one. Comments
/// that trail the value are delivered too.
pub fn parse<L: EventListener, I: TokenSource>(lexer: I, listener: &mut L, input_size: usize)
    ensures
        events_delivered(
            final(listener),
            old(listener),
            parse_events(lexer.remaining(), input_size),
        ),
{
    let ghost items = lexer.remaining();
    let mut lexer = Peekable::new(lexer);
    proof {
        lemma_nested_then_run(initial(), items, input_size);
        assert(value_position(Seq::empty()) == initial());
        assert(value_done(Seq::empty()) == done());
    }
    if !parse_single(&mut lexer, input_size, listener, None, Ghost(Seq::empty())) {
        return ;
    }
    let ghost middle = *listener;
    let ghost value = nested(initial(), 0, items, input_size);
    check_trailing(&mut lexer, listener, input_size);
    proof {
        lemma_events_delivered_concat(
            listener,
            &middle,
            old(listener),
            value.events,
            run(done(), value.rest, input_size),
        );
    }
}

/// The configuration in which a value is expected inside the containers of
/// `stack`.
pub open spec fn value_position(stack: Seq<Container>) -> Configuration {
    Configuration { state: ParserState::TopLevel, stack }
}

/// The configuration in which a value inside the containers of `stack` is
/// complete.
pub open spec fn value_done(stack: Seq<Container>) -> Configuration {
    Configuration { state: after_value(stack), stack }
}

/// The configuration with the given state inside a container of kind `kind`
/// that stands inside the containers of `stack`.
pub open spec fn inside(
    state: ParserState,
    stack: Seq<Container>,
    kind: Container,
) -> Configuration {
    Configuration { state, stack: stack.push(kind) }
}

/// The state of the parser inside an array: before the first element, or
/// after an element.
pub open spec fn array_state(array_is_empty: bool) -> ParserState {
    if array_is_empty {
        ParserState::ArrayExpectValueOrClose
    } else {
        ParserState::AfterValueInArray
    }
}

/// The innermost of the containers of `stack`, if there is one.
pub open spec fn innermost(stack: Seq<Container>) -> Option<Container> {
    if stack.len() == 0 {
        None
    } else {
        Some(stack.last())
    }
}

/// The part of a parse that one value inside the containers of `stack`
/// makes up.
pub open spec fn value_part(
    stack: Seq<Container>,
    items: Seq<TokenResult>,
    input_size: usize,
) -> Nested {
    nested(value_position(stack), stack.len(), items, input_size)
}

/// The part of a parse that an array inside the containers of `stack` makes
/// up, from behind its `[`.
pub open spec fn array_part(
    stack: Seq<Container>,
    items: Seq<TokenResult>,
    input_size: usize,
) -> Nested {
    nested(
        inside(ParserState::ArrayExpectValueOrClose, stack, Container::Array),
        stack.len(),
        items,
        input_size,
    )
}

/// The part of a parse that an object inside the containers of `stack` makes
/// up, from behind its `{`.
pub open spec fn object_part(
    stack: Seq<Container>,
    items: Seq<TokenResult>,
    input_size: usize,
) -> Nested {
    nested(
        inside(ParserState::ObjectExpectKeyOrClose, stack, Container::Object),
        stack.len(),
        items,
        input_size,
    )
}

/// Whether a part of a parse ends as a function reports it: complete, with
/// the value done and the given items left, or failed.
pub open spec fn ends_as(
    part: Nested,
    stack: Seq<Container>,
    complete: bool,
    left: Seq<TokenResult>,
) -> bool {
    if complete {
        part.end == value_done(stack) && left == part.rest
    } else {
        part.end.state is Failed
    }
}

/// The error for a token that cannot stand where it does, inside a container
/// of the given kind or, with `None`, outside any: a closing delimiter that
/// does not match the container is named, anything else is an unexpected
/// token.
pub open spec fn rejection(
    parent: Option<Container>,
    byte_offset: usize,
    token: Token,
) -> ParseError {
    match token {
        Token::RBracket => if parent == Some(Container::Array) {
            ParseError::unexpected_token(byte_offset)
        } else {
            ParseError::unexpected_bracket(byte_offset)
        },
        Token::RBrace => if parent == Some(Container::Object) {
            ParseError::unexpected_token(byte_offset)
        } else {
            ParseError::unexpected_brace(byte_offset)
        },
        _ => ParseError::unexpected_token(byte_offset),
    }
}

/// The error for a token that cannot stand where it does.
fn reject(parent: Option<Container>, byte_offset: usize, token: Token) -> (error: ParseError)
    ensures
        error == rejection(parent, byte_offset, token),
{
    match token {
        Token::RBracket => match parent {
            Some(Container::Array) => ParseError { byte_offset, reason: "unexpected token" },
            _ => ParseError { byte_offset, reason: "unexpected ']'" },
        },
        Token::RBrace => match parent {
            Some(Container::Object) => ParseError { byte_offset, reason: "unexpected token" },
            _ => ParseError { byte_offset, reason: "unexpected '}'" },
        },
        _ => ParseError { byte_offset, reason: "unexpected token" },
    }
}

/// What a part of a parse comes to when its first token fails.
proof fn lemma_fails(
    c: Configuration,
    depth: nat,
    items: Seq<TokenResult>,
    input_size: usize,
    error: ParseError,
)
    requires
        !(c.state is Failed),
        !settled(c, depth),
        items.len() > 0,
        react(c, items[0]).output == Some(Err::<ParseEvent, ParseError>(error)),
    ensures
        nested(c, depth, items, input_size).events == seq![Err::<ParseEvent, ParseError>(error)],
        nested(c, depth, items, input_size).end.state is Failed,
{
    let reaction = react(c, items[0]);
    assert(reaction.next.state is Failed);
    assert(nested(reaction.next, depth, items.drop_first(), input_size).events =~= Seq::<
        EventResult,
    >::empty());
    assert(nested(c, depth, items, input_size).events =~= seq![
        Err::<ParseEvent, ParseError>(error),
    ]);
}

/// What a part of a parse comes to when the input ends before it.
proof fn lemma_ends(c: Configuration, depth: nat, input_size: usize)
    requires
        !(c.state is Failed),
        !(c.state is Done),
        !settled(c, depth),
    ensures
        nested(c, depth, Seq::empty(), input_size).events == seq![
            Err::<ParseEvent, ParseError>(ParseError::unexpected_end_of_input(input_size)),
        ],
        nested(c, depth, Seq::empty(), input_size).end.state is Failed,
{
    assert(nested(c, depth, Seq::empty(), input_size).events =~= seq![
        Err::<ParseEvent, ParseError>(ParseError::unexpected_end_of_input(input_size)),
    ]);
}

/// What a part of a parse comes to when its first token goes through: the
/// output of the token, then the part from the configuration it leaves.
proof fn lemma_goes_on(c: Configuration, depth: nat, items: Seq<TokenResult>, input_size: usize)
    requires
        !(c.state is Failed),
        !settled(c, depth),
        items.len() > 0,
    ensures
        nested(c, depth, items, input_size) == prepend(
            crate::event_listener::calls_of(react(c, items[0]).output),
            nested(react(c, items[0]).next, depth, items.drop_first(), input_size),
        ),
{
}

/// A part of a parse leaves no more items than it was given.
proof fn lemma_rest_is_shorter(
    c: Configuration,
    depth: nat,
    items: Seq<TokenResult>,
    input_size: usize,
)
    ensures
        nested(c, depth, items, input_size).rest.len() <= items.len(),
    decreases items.len(),
{
    if c.state is Failed || settled(c, depth) || items.len() == 0 {
    } else {
        lemma_rest_is_shorter(react(c, items[0]).next, depth, items.drop_first(), input_size);
    }
}

/// Parses one value inside the containers of `stack`, of which `parent` is
/// the innermost. Returns whether the value is complete.
fn parse_single<L: EventListener, I: TokenSource>(
    lexer: &mut Peekable<I>,
    input_size: usize,
    listener: &mut L,
    parent: Option<Container>,
    Ghost(stack): Ghost<Seq<Container>>,
) -> (complete: bool)
    requires
        parent == innermost(stack),
    ensures
        events_delivered(
            final(listener),
            old(listener),
            value_part(stack, old(lexer).remaining(), input_size).events,
        ),
        ends_as(
            value_part(stack, old(lexer).remaining(), input_size),
            stack,
            complete,
            final(lexer).remaining(),
        ),
    decreases old(lexer).remaining().len(), 0nat,
{
    let ghost items = lexer.remaining();
    let ghost c = value_position(stack);
    let ghost depth = stack.len();
    let ghost total = nested(c, depth, items, input_size);
    let ghost mut sent: Seq<EventResult> = Seq::empty();
    assert(total.events =~= sent + total.events);
    loop
        invariant
            items == old(lexer).remaining(),
            c == value_position(stack),
            depth == stack.len(),
            parent == innermost(stack),
            total == nested(c, depth, items, input_size),
            lexer.remaining().len() <= items.len(),
            total == prepend(sent, nested(c, depth, lexer.remaining(), input_size)),
            events_delivered(listener, old(listener), sent),
        decreases lexer.remaining().len(),
    {
        let ghost rest = lexer.remaining();
        let ghost before = *listener;
        match lexer.next() {
            None => {
                listener.handle_error(
                    ParseError { byte_offset: input_size, reason: "unexpected end of input" },
                );
                proof {
                    lemma_ends(c, depth, input_size);
                    assert(rest =~= Seq::<TokenResult>::empty());
                    let call = Err::<ParseEvent, ParseError>(
                        ParseError::unexpected_end_of_input(input_size),
                    );
                    lemma_events_delivered_push(listener, &before, old(listener), sent, call);
                    assert(total.events =~= sent.push(call));
                }
                return false;
            },
            Some(Err(byte_offset)) => {
                listener.handle_error(ParseError { byte_offset, reason: "invalid token" });
                proof {
                    let call = Err::<ParseEvent, ParseError>(
                        ParseError::invalid_token(byte_offset),
                    );
                    lemma_fails(c, depth, rest, input_size, ParseError::invalid_token(byte_offset));
                    lemma_events_delivered_push(listener, &before, old(listener), sent, call);
                    assert(total.events =~= sent.push(call));
                }
                return false;
            },
            Some(Ok((byte_offset, token))) => {
                proof {
                    lemma_goes_on(c, depth, rest, input_size);
                }
                let ghost reaction = react(c, rest[0]);
                let ghost then = nested(reaction.next, depth, lexer.remaining(), input_size);
                match token {
                    Token::Comment { size_in_bytes } => {
                        listener.handle_comment(byte_offset, size_in_bytes);
                        proof {
                            let call = reaction.output->Some_0;
                            lemma_events_delivered_push(
                                listener,
                                &before,
                                old(listener),
                                sent,
                                call,
                            );
                            assert(reaction.next == c);
                            assert(total.events =~= sent.push(call) + then.events);
                            sent = sent.push(call);
                        }
                    },
                    Token::LBracket => {
                        listener.handle_start_array(byte_offset);
                        let ghost opened = *listener;
                        let complete = parse_array(lexer, input_size, listener, Ghost(stack));
                        proof {
                            let call = reaction.output->Some_0;
                            lemma_events_delivered_push(
                                &opened,
                                &before,
                                old(listener),
                                sent,
                                call,
                            );
                            lemma_events_delivered_concat(
                                listener,
                                &opened,
                                old(listener),
                                sent.push(call),
                                then.events,
                            );
                            assert(total.events =~= sent.push(call) + then.events);
                        }
                        return complete;
                    },
                    Token::LBrace => {
                        listener.handle_start_object(byte_offset);
                        let ghost opened = *listener;
                        let complete = parse_object(lexer, input_size, listener, Ghost(stack));
                        proof {
                            let call = reaction.output->Some_0;
                            lemma_events_delivered_push(
                                &opened,
                                &before,
                                old(listener),
                                sent,
                                call,
                            );
                            lemma_events_delivered_concat(
                                listener,
                                &opened,
                                old(listener),
                                sent.push(call),
                                then.events,
                            );
                            assert(total.events =~= sent.push(call) + then.events);
                        }
                        return complete;
                    },
                    Token::True
                    | Token::False
                    | Token::Null
                    | Token::Int(_)
                    | Token::Str { .. } => {
                        match token {
                            Token::True => listener.handle_bool(byte_offset, true),
                            Token::False => listener.handle_bool(byte_offset, false),
                            Token::Null => listener.handle_null(byte_offset),
                            Token::Int(i) => listener.handle_int(byte_offset, i),
                            Token::Str { size_in_bytes } => listener.handle_str(
                                byte_offset,
                                size_in_bytes,
                            ),
                            _ => {},
                        }
                        proof {
                            let call = reaction.output->Some_0;
                            lemma_events_delivered_push(
                                listener,
                                &before,
                                old(listener),
                                sent,
                                call,
                            );
                            assert(reaction.next == value_done(stack));
                            assert(then.events =~= Seq::<EventResult>::empty());
                            assert(total.events =~= sent.push(call));
                        }
                        return true;
                    },
                    Token::RBracket | Token::RBrace | Token::Colon | Token::Comma => {
                        let error = reject(parent, byte_offset, token);
                        listener.handle_error(error);
                        proof {
                            let call = Err::<ParseEvent, ParseError>(error);
                            lemma_fails(c, depth, rest, input_size, error);
                            lemma_events_delivered_push(
                                listener,
                                &before,
                                old(listener),
                                sent,
                                call,
                            );
                            assert(total.events =~= sent.push(call));
                        }
                        return false;
                    },
                }
            },
        }
    }
}

/// Parses what follows the `[` of an array that stands inside the containers
/// of `stack`: the elements and the `]`. Returns whether the array is
/// complete.
fn parse_array<L: EventListener, I: TokenSource>(
    lexer: &mut Peekable<I>,
    input_size: usize,
    listener: &mut L,
    Ghost(stack): Ghost<Seq<Container>>,
) -> (complete: bool)
    ensures
        events_delivered(
            final(listener),
            old(listener),
            array_part(stack, old(lexer).remaining(), input_size).events,
        ),
        ends_as(
            array_part(stack, old(lexer).remaining(), input_size),
            stack,
            complete,
            final(lexer).remaining(),
        ),
    decreases old(lexer).remaining().len(), 1nat,
{
    let ghost items = lexer.remaining();
    let ghost depth = stack.len();
    let ghost elements = stack.push(Container::Array);
    let ghost total = nested(
        inside(ParserState::ArrayExpectValueOrClose, stack, Container::Array),
        depth,
        items,
        input_size,
    );
    let ghost mut sent: Seq<EventResult> = Seq::empty();
    let mut array_is_empty = true;
    assert(total.events =~= sent + total.events);
    loop
        invariant
            items == old(lexer).remaining(),
            depth == stack.len(),
            elements == stack.push(Container::Array),
            total == nested(
                inside(ParserState::ArrayExpectValueOrClose, stack, Container::Array),
                depth,
                items,
                input_size,
            ),
            lexer.remaining().len() <= items.len(),
            total == prepend(
                sent,
                nested(
                    inside(array_state(array_is_empty), stack, Container::Array),
                    depth,
                    lexer.remaining(),
                    input_size,
                ),
            ),
            events_delivered(listener, old(listener), sent),
        decreases
                lexer.remaining().len(),
                (if array_is_empty {
                    1nat
                } else {
                    0nat
                }),
    {
        let ghost rest = lexer.remaining();
        let ghost before = *listener;
        let ghost c = inside(array_state(array_is_empty), stack, Container::Array);
        let ghost here = nested(c, depth, rest, input_size);
        match lexer.peek() {
            Some(Ok((byte_offset, Token::Comment { size_in_bytes }))) => {
                listener.handle_comment(byte_offset, size_in_bytes);
                lexer.next();
                proof {
                    lemma_goes_on(c, depth, rest, input_size);
                    let call = react(c, rest[0]).output->Some_0;
                    lemma_events_delivered_push(listener, &before, old(listener), sent, call);
                    assert(react(c, rest[0]).next == c);
                    assert(total.events =~= sent.push(call) + nested(
                        c,
                        depth,
                        lexer.remaining(),
                        input_size,
                    ).events);
                    sent = sent.push(call);
                }
            },
            Some(Ok((byte_offset, Token::RBracket))) => {
                listener.handle_end_array(byte_offset);
                lexer.next();
                proof {
                    lemma_goes_on(c, depth, rest, input_size);
                    let reaction = react(c, rest[0]);
                    let call = reaction.output->Some_0;
                    lemma_events_delivered_push(listener, &before, old(listener), sent, call);
                    assert(elements.drop_last() =~= stack);
                    assert(reaction.next == value_done(stack));
                    assert(here.events =~= seq![call]);
                    assert(total.events =~= sent.push(call));
                }
                return true;
            },
            peeked => {
                let consumed = match peeked {
                    Some(Ok((_, Token::Comma))) => !array_is_empty,
                    _ => false,
                };
                if !array_is_empty && !consumed {
                    // Need to see a ',' before the next element.
                    lexer.next();
                    let error = match peeked {
                        Some(Ok((byte_offset, token))) => reject(
                            Some(Container::Array),
                            byte_offset,
                            token,
                        ),
                        Some(Err(byte_offset)) => ParseError {
                            byte_offset,
                            reason: "invalid token",
                        },
                        None => ParseError {
                            byte_offset: input_size,
                            reason: "unexpected end of input",
                        },
                    };
                    listener.handle_error(error);
                    proof {
                        let call = Err::<ParseEvent, ParseError>(error);
                        if rest.len() == 0 {
                            lemma_ends(c, depth, input_size);
                            assert(rest =~= Seq::<TokenResult>::empty());
                        } else {
                            lemma_fails(c, depth, rest, input_size, error);
                        }
                        lemma_events_delivered_push(listener, &before, old(listener), sent, call);
                        assert(total.events =~= sent.push(call));
                    }
                    return false;
                }
                if consumed {
                    lexer.next();
                }
                let ghost values = lexer.remaining();
                let ghost value = nested(
                    value_position(elements),
                    elements.len(),
                    values,
                    input_size,
                );
                proof {
                    if consumed {
                        lemma_goes_on(c, depth, rest, input_size);
                        assert(react(c, rest[0]).next == value_position(elements));
                        assert(here.events =~= nested(
                            value_position(elements),
                            depth,
                            values,
                            input_size,
                        ).events);
                    } else if rest.len() > 0 {
                        lemma_goes_on(c, depth, rest, input_size);
                        lemma_goes_on(value_position(elements), depth, rest, input_size);
                        assert(react(c, rest[0]) == react(value_position(elements), rest[0]));
                    }
                    assert(here == nested(value_position(elements), depth, values, input_size));
                    lemma_nested_inner(value_position(elements), depth, values, input_size);
                    lemma_rest_is_shorter(
                        value_position(elements),
                        elements.len(),
                        values,
                        input_size,
                    );
                }
                let complete = parse_single(
                    lexer,
                    input_size,
                    listener,
                    Some(Container::Array),
                    Ghost(elements),
                );
                proof {
                    lemma_events_delivered_concat(
                        listener,
                        &before,
                        old(listener),
                        sent,
                        value.events,
                    );
                    let then = nested(value.end, depth, value.rest, input_size);
                    assert(total.events =~= (sent + value.events) + then.events);
                    if !complete {
                        assert(then.events =~= Seq::<EventResult>::empty());
                        assert(total.events =~= sent + value.events);
                    }
                    sent = sent + value.events;
                }
                if !complete {
                    return false;
                }
                array_is_empty = false;
            },
        }
    }
}

/// Parses what follows the `{` of an object that stands inside the
/// containers of `stack`: the members and the `}`. Returns whether the
/// object is complete.
fn parse_object<L: EventListener, I: TokenSource>(
    lexer: &mut Peekable<I>,
    input_size: usize,
    listener: &mut L,
    Ghost(stack): Ghost<Seq<Container>>,
) -> (complete: bool)
    ensures
        events_delivered(
            final(listener),
            old(listener),
            object_part(stack, old(lexer).remaining(), input_size).events,
        ),
        ends_as(
            object_part(stack, old(lexer).remaining(), input_size),
            stack,
            complete,
            final(lexer).remaining(),
        ),
    decreases old(lexer).remaining().len(), 1nat,
{
    let ghost items = lexer.remaining();
    let ghost depth = stack.len();
    let ghost members = stack.push(Container::Object);
    let ghost total = nested(
        inside(ParserState::ObjectExpectKeyOrClose, stack, Container::Object),
        depth,
        items,
        input_size,
    );
    let ghost mut sent: Seq<EventResult> = Seq::empty();
    let mut state = ParserState::ObjectExpectKeyOrClose;
    assert(total.events =~= sent + total.events);
    loop
        invariant
            items == old(lexer).remaining(),
            depth == stack.len(),
            members == stack.push(Container::Object),
            total == nested(
                inside(ParserState::ObjectExpectKeyOrClose, stack, Container::Object),
                depth,
                items,
                input_size,
            ),
            state is ObjectExpectKeyOrClose || state is ObjectExpectKey
                || state is ObjectExpectColon || state is AfterValueInObject,
            lexer.remaining().len() <= items.len(),
            total == prepend(
                sent,
                nested(
                    inside(state, stack, Container::Object),
                    depth,
                    lexer.remaining(),
                    input_size,
                ),
            ),
            events_delivered(listener, old(listener), sent),
        decreases lexer.remaining().len(),
    {
        let ghost rest = lexer.remaining();
        let ghost before = *listener;
        let ghost c = inside(state, stack, Container::Object);
        let ghost here = nested(c, depth, rest, input_size);
        let (byte_offset, token) = match lexer.next() {
            Some(Ok(next)) => next,
            Some(Err(byte_offset)) => {
                listener.handle_error(ParseError { byte_offset, reason: "invalid token" });
                proof {
                    let error = ParseError::invalid_token(byte_offset);
                    lemma_fails(c, depth, rest, input_size, error);
                    lemma_events_delivered_push(
                        listener,
                        &before,
                        old(listener),
                        sent,
                        Err(error),
                    );
                    assert(total.events =~= sent.push(Err(error)));
                }
                return false;
            },
            None => {
                listener.handle_error(
                    ParseError { byte_offset: input_size, reason: "unexpected end of input" },
                );
                proof {
                    let error = ParseError::unexpected_end_of_input(input_size);
                    lemma_ends(c, depth, input_size);
                    assert(rest =~= Seq::<TokenResult>::empty());
                    lemma_events_delivered_push(
                        listener,
                        &before,
                        old(listener),
                        sent,
                        Err(error),
                    );
                    assert(total.events =~= sent.push(Err(error)));
                }
                return false;
            },
        };
        proof {
            lemma_goes_on(c, depth, rest, input_size);
        }
        let ghost reaction = react(c, rest[0]);
        let ghost then = nested(reaction.next, depth, lexer.remaining(), input_size);
        match (state, token) {
            (_, Token::Comment { size_in_bytes }) => {
                listener.handle_comment(byte_offset, size_in_bytes);
                proof {
                    let call = reaction.output->Some_0;
                    lemma_events_delivered_push(listener, &before, old(listener), sent, call);
                    assert(reaction.next == c);
                    assert(total.events =~= sent.push(call) + then.events);
                    sent = sent.push(call);
                }
            },
            (ParserState::ObjectExpectKeyOrClose, Token::RBrace)
            | (ParserState::AfterValueInObject, Token::RBrace) => {
                listener.handle_end_object(byte_offset);
                proof {
                    let call = reaction.output->Some_0;
                    lemma_events_delivered_push(listener, &before, old(listener), sent, call);
                    assert(members.drop_last() =~= stack);
                    assert(reaction.next == value_done(stack));
                    assert(here.events =~= seq![call]);
                    assert(total.events =~= sent.push(call));
                }
                return true;
            },
            (ParserState::ObjectExpectKeyOrClose, Token::Str { size_in_bytes })
            | (ParserState::ObjectExpectKey, Token::Str { size_in_bytes }) => {
                listener.handle_str(byte_offset, size_in_bytes);
                state = ParserState::ObjectExpectColon;
                proof {
                    let call = reaction.output->Some_0;
                    lemma_events_delivered_push(listener, &before, old(listener), sent, call);
                    assert(reaction.next == inside(state, stack, Container::Object));
                    assert(total.events =~= sent.push(call) + then.events);
                    sent = sent.push(call);
                }
            },
            (ParserState::AfterValueInObject, Token::Comma) => {
                state = ParserState::ObjectExpectKey;
                proof {
                    assert(reaction.next == inside(state, stack, Container::Object));
                    assert(total.events =~= sent + then.events);
                }
            },
            (ParserState::ObjectExpectColon, Token::Colon) => {
                let ghost values = lexer.remaining();
                let ghost value = nested(
                    value_position(members),
                    members.len(),
                    values,
                    input_size,
                );
                proof {
                    assert(reaction.next == value_position(members));
                    lemma_nested_inner(value_position(members), depth, values, input_size);
                    lemma_rest_is_shorter(
                        value_position(members),
                        members.len(),
                        values,
                        input_size,
                    );
                }
                let complete = parse_single(
                    lexer,
                    input_size,
                    listener,
                    Some(Container::Object),
                    Ghost(members),
                );
                state = ParserState::AfterValueInObject;
                proof {
                    lemma_events_delivered_concat(
                        listener,
                        &before,
                        old(listener),
                        sent,
                        value.events,
                    );
                    let after = nested(value.end, depth, value.rest, input_size);
                    assert(total.events =~= (sent + value.events) + after.events);
                    if !complete {
                        assert(after.events =~= Seq::<EventResult>::empty());
                        assert(total.events =~= sent + value.events);
                    }
                    sent = sent + value.events;
                }
                if !complete {
                    return false;
                }
            },
            _ => {
                let error = reject(Some(Container::Object), byte_offset, token);
                listener.handle_error(error);
                proof {
                    lemma_fails(c, depth, rest, input_size, error);
                    lemma_events_delivered_push(
                        listener,
                        &before,
                        old(listener),
                        sent,
                        Err(error),
                    );
                    assert(total.events =~= sent.push(Err(error)));
                }
                return false;
            },
        }
    }
}

/// A token source with one item of lookahead.
struct Peekable<I: TokenSource> {
    lexer: I,
    peeked: Option<TokenResult>,
}

impl<I: TokenSource> Peekable<I> {
    /// Wraps `lexer`; nothing has been looked at yet.
    fn new(lexer: I) -> (peekable: Peekable<I>)
        ensures
            peekable.remaining() == lexer.remaining(),
    {
        Peekable { lexer, peeked: None }
    }

    /// The next item, which stays in the source.
    fn peek(&mut self) -> (item: Option<TokenResult>)
        ensures
            final(self).remaining() == old(self).remaining(),
            old(self).remaining().len() == 0 ==> item is None,
            old(self).remaining().len() > 0 ==> item == Some(old(self).remaining()[0]),
    {
        match self.peeked {
            Some(item) => Some(item),
            None => {
                let item = self.lexer.next();
                self.peeked = item;
                proof {
                    if item is Some {
                        assert(self.remaining() =~= old(self).remaining());
                    }
                }
                item
            },
        }
    }
}

impl<I: TokenSource> TokenSource for Peekable<I> {
    closed spec fn remaining(&self) -> Seq<TokenResult> {
        match self.peeked {
            Some(item) => seq![item] + self.lexer.remaining(),
            None => self.lexer.remaining(),
        }
    }

    fn next(&mut self) -> (item: Option<TokenResult>) {
        match self.peeked.take() {
            Some(item) => {
                assert(self.remaining() =~= old(self).remaining().drop_first());
                Some(item)
            },
            None => self.lexer.next(),
        }
    }
}

} // verus!
