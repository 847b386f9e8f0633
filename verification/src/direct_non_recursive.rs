//! Parsing a text to a tree in one pass.

use vstd::prelude::*;
use vstd::string::StringSliceAdditionalSpecFns;
use crate::ParseError;
use crate::event::EventResult;
use crate::event_listener::calls_of;
use crate::event_parser::{initial, parse_events, run, Machine};
use crate::event_parser_2::{lemma_pull_all_is_run, pull_all, ParserView};
use crate::event_to_tree::{events_after_tree, first_failure, tree_from, tree_of, TreeBuilder};
use crate::lexer::{lex, Lexer};
use crate::simple_ast::{Json, JsonValue};
use crate::token::TokenSource;

verus! {

/// The tree that the text `bytes` stands for as a whole: the tree that its
/// events describe, provided that nothing but comments trails it.
pub open spec fn parse_tree(bytes: Seq<u8>) -> Result<JsonValue, ParseError> {
    let events = parse_events(lex(bytes), bytes.len() as usize);
    match tree_of(events, bytes) {
        Ok(value) => match first_failure(events_after_tree(Seq::empty(), events, bytes)) {
            None => Ok(value),
            Some(error) => Err(error),
        },
        Err(error) => Err(error),
    }
}

/// Parses `input` to a tree in one pass, without recursion and without
/// handing out events: every token goes through the state machine and, from
/// there, into the tree.
///
/// The result is the tree that the events of the input describe. Anything
/// but comments behind the value is an error.
pub fn parse(input: &str) -> (result: Result<Json, ParseError>)
    ensures
        match parse_tree(input.spec_bytes()) {
            Ok(value) => result is Ok && result->Ok_0@ == value,
            Err(error) => result is Err && result->Err_0 == error,
        },
{
    let ghost bytes = input.spec_bytes();
    let input_size = input.len();
    let mut lexer = Lexer::new(input);
    let mut machine = Machine::new();
    let json = match parse_single(&mut lexer, &mut machine, input) {
        Ok(json) => json,
        Err(error) => {
            return Err(error);
        },
    };
    let ghost events = parse_events(lex(bytes), input_size);
    let ghost trailing = run(machine@, lexer.remaining(), input_size);
    loop
        invariant
            bytes == input.spec_bytes(),
            input_size == input.len(),
            events == parse_events(lex(bytes), input_size),
            tree_of(events, bytes) is Ok,
            tree_of(events, bytes)->Ok_0 == json@,
            trailing == events_after_tree(Seq::empty(), events, bytes),
            first_failure(trailing) == first_failure(
                run(machine@, lexer.remaining(), input_size),
            ),
        decreases lexer.remaining().len(),
    {
        let ghost items = lexer.remaining();
        let ghost config = machine@;
        let item = lexer.next();
        let at_end = item.is_none();
        let output = match item {
            Some(item) => machine.feed(item),
            None => machine.end_of_input(input_size),
        };
        proof {
            let rest = run(machine@, lexer.remaining(), input_size);
            if config.state is Failed {
                assert(run(config, items, input_size) =~= Seq::<EventResult>::empty());
            } else if at_end {
                assert(run(config, items, input_size) =~= calls_of(output));
            } else {
                assert(run(config, items, input_size) =~= calls_of(output) + rest);
                assert((calls_of(output) + rest).drop_first() =~= if output is Some {
                    rest
                } else {
                    rest.drop_first()
                });
            }
        }
        match output {
            Some(Err(error)) => {
                return Err(error);
            },
            _ => {},
        }
        if at_end {
            return Ok(json);
        }
    }
}

/// Parses one value: reads tokens until the tree is complete, the input
/// ends, or an error is found.
fn parse_single(lexer: &mut Lexer, machine: &mut Machine, input: &str) -> (result: Result<
    Json,
    ParseError,
>)
    requires
        !(old(machine)@.state is Failed),
    ensures
        final(lexer)@.bytes == old(lexer)@.bytes,
        match tree_of(
            run(old(machine)@, old(lexer).remaining(), input.len()),
            input.spec_bytes(),
        ) {
            Ok(value) => result is Ok && result->Ok_0@ == value,
            Err(error) => result is Err && result->Err_0 == error,
        },
        events_after_tree(
            Seq::empty(),
            run(old(machine)@, old(lexer).remaining(), input.len()),
            input.spec_bytes(),
        ) == run(final(machine)@, final(lexer).remaining(), input.len()),
{
    let mut builder = TreeBuilder::new();
    let input_size = input.len();
    let ghost bytes = input.spec_bytes();
    let ghost events = run(machine@, lexer.remaining(), input_size);
    loop
        invariant
            bytes == input.spec_bytes(),
            input_size == input.len(),
            lexer@.bytes == old(lexer)@.bytes,
            events == run(old(machine)@, old(lexer).remaining(), input_size),
            !(machine@.state is Failed),
            tree_of(events, bytes) == tree_from(
                builder@,
                run(machine@, lexer.remaining(), input_size),
                bytes,
            ),
            events_after_tree(Seq::empty(), events, bytes) == events_after_tree(
                builder@,
                run(machine@, lexer.remaining(), input_size),
                bytes,
            ),
        decreases lexer.remaining().len(),
    {
        let ghost items = lexer.remaining();
        let ghost config = machine@;
        let item = lexer.next();
        let at_end = item.is_none();
        let output = match item {
            Some(item) => machine.feed(item),
            None => machine.end_of_input(input_size),
        };
        proof {
            let rest = run(machine@, lexer.remaining(), input_size);
            if at_end {
                assert(run(config, items, input_size) =~= calls_of(output));
                assert(rest =~= Seq::<EventResult>::empty());
                if output is Some {
                    assert(calls_of(output).drop_first() =~= Seq::<EventResult>::empty());
                }
            } else {
                assert(run(config, items, input_size) =~= calls_of(output) + rest);
                assert((calls_of(output) + rest).drop_first() =~= if output is Some {
                    rest
                } else {
                    rest.drop_first()
                });
            }
        }
        match output {
            Some(Ok(event)) => match builder.push_event(event, input) {
                Some(result) => {
                    return result;
                },
                None => {},
            },
            Some(Err(error)) => {
                return Err(error);
            },
            None => {
                if at_end {
                    return Err(
                        ParseError { byte_offset: input_size, reason: "unexpected end of input" },
                    );
                }
            },
        }
    }
}

/// Where the direct parse of a text succeeds, building a tree from what the
/// pull parser yields for the tokens of the text gives the same tree.
pub proof fn lemma_round_trip(bytes: Seq<u8>)
    ensures
        parse_tree(bytes) matches Ok(value) ==> tree_of(
            pull_all(
                ParserView {
                    config: initial(),
                    remaining: lex(bytes),
                    input_size: bytes.len() as usize,
                },
            ),
            bytes,
        ) == Ok::<JsonValue, ParseError>(value),
{
    lemma_pull_all_is_run(
        ParserView { config: initial(), remaining: lex(bytes), input_size: bytes.len() as usize },
    );
}

} // verus!
