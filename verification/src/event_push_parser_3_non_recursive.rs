//! A push parser over a token source, without recursion.

use vstd::prelude::*;
use crate::event::EventResult;
use crate::event_listener::{
    calls_of, deliver, events_delivered, lemma_events_delivered_concat, EventListener,
};
use crate::event_parser::{
    check_trailing, done, initial, parse_events, react, run, Machine, ParserState,
};
use crate::parse_parts::{
    lemma_value_then_trailing, unread, value_complete, value_events, value_rest,
};
use crate::token::TokenSource;

verus! {

/// Parses the tokens of `lexer` and delivers every event to the listener as
/// soon as it is known, without recursion: nesting is held on the explicit
/// stack of the state machine.
///
/// The listener is handed exactly what the grammar yields for the tokens:
/// the events in order and, last, the first error, if there is one. Comments
/// that trail the value are delivered too. The parse reads the tokens up to
/// the end, or up to the one at which it fails.
pub fn parse<L: EventListener, I: TokenSource>(lexer: &mut I, listener: &mut L, input_size: usize)
    ensures
        events_delivered(
            final(listener),
            old(listener),
            parse_events(old(lexer).remaining(), input_size),
        ),
        final(lexer).remaining() == unread(initial(), old(lexer).remaining()),
{
    let ghost items = lexer.remaining();
    proof {
        lemma_value_then_trailing(initial(), items, input_size);
    }
    if !parse_single(lexer, input_size, listener) {
        return ;
    }
    let ghost middle = *listener;
    check_trailing(lexer, listener, input_size);
    proof {
        lemma_events_delivered_concat(
            listener,
            &middle,
            old(listener),
            value_events(initial(), items, input_size),
            run(done(), value_rest(initial(), items), input_size),
        );
    }
}

/// Parses one value: reads tokens until the value is complete, the tokens
/// run out, or an error is found. Returns whether the value is complete.
fn parse_single<L: EventListener, I: TokenSource>(
    lexer: &mut I,
    input_size: usize,
    listener: &mut L,
) -> (complete: bool)
    ensures
        events_delivered(
            final(listener),
            old(listener),
            value_events(initial(), old(lexer).remaining(), input_size),
        ),
        complete == value_complete(initial(), old(lexer).remaining()),
        final(lexer).remaining() == value_rest(initial(), old(lexer).remaining()),
{
    let mut machine = Machine::new();
    let ghost items = lexer.remaining();
    let ghost mut sent: Seq<EventResult> = Seq::empty();
    assert(value_events(initial(), items, input_size) =~= sent + value_events(
        machine@,
        lexer.remaining(),
        input_size,
    ));
    loop
        invariant_except_break
            value_events(initial(), items, input_size) == sent + value_events(
                machine@,
                lexer.remaining(),
                input_size,
            ),
            value_complete(initial(), items) == value_complete(machine@, lexer.remaining()),
            value_rest(initial(), items) == value_rest(machine@, lexer.remaining()),
            !(machine@.state is Done),
            !(machine@.state is Failed),
        invariant
            events_delivered(listener, old(listener), sent),
        ensures
            value_events(initial(), items, input_size) == sent,
            value_complete(initial(), items) == (machine@.state is Done),
            value_rest(initial(), items) == lexer.remaining(),
        decreases lexer.remaining().len(),
    {
        let ghost before = *listener;
        let ghost rest = lexer.remaining();
        let ghost config = machine@;
        let output = match lexer.next() {
            Some(item) => machine.feed(item),
            None => machine.end_of_input(input_size),
        };
        deliver(listener, output);
        proof {
            lemma_events_delivered_concat(
                listener,
                &before,
                old(listener),
                sent,
                calls_of(output),
            );
            let rest_events = value_events(machine@, lexer.remaining(), input_size);
            assert(value_events(initial(), items, input_size) =~= (sent + calls_of(output))
                + rest_events);
            sent = sent + calls_of(output);
            if rest.len() == 0 {
                assert(machine@.state is Failed);
            } else {
                assert(machine@ == react(config, rest[0]).next);
                assert(value_complete(config, rest) == value_complete(
                    machine@,
                    lexer.remaining(),
                ));
                assert(value_rest(config, rest) == value_rest(machine@, lexer.remaining()));
            }
            assert(value_complete(initial(), items) == value_complete(
                machine@,
                lexer.remaining(),
            ));
            assert(value_rest(initial(), items) == value_rest(machine@, lexer.remaining()));
        }
        match machine.state() {
            ParserState::Done | ParserState::Failed => {
                assert(sent + value_events(machine@, lexer.remaining(), input_size) =~= sent);
                break ;
            },
            _ => {},
        }
    }
    match machine.state() {
        ParserState::Done => true,
        _ => false,
    }
}

} // verus!
