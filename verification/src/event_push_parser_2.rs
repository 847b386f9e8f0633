//! A push parser that is driven by the push lexer.

use vstd::prelude::*;
use vstd::string::StringSliceAdditionalSpecFns;
use crate::event_listener::{
    calls_of, deliver, events_delivered, lemma_events_delivered_concat, EventListener,
};
use crate::event_parser::{initial, parse_events, react, Machine};
use crate::lexer::lex;
use crate::lexer_push::{
    lemma_tokens_delivered_last, tokenize_push, tokens_delivered, LexerEventListener,
};
use crate::parse_parts::{feed_all, lemma_run_split, lemma_run_until_first_error, outputs};
use crate::token::{until_first_error, Token, TokenResult};

verus! {

/// Parses `input` and delivers every event to the listener as soon as it is
/// known. The lexer drives the parse: it pushes each token into the state
/// machine, which passes on to the listener what the token gives rise to.
///
/// The listener is handed exactly what the grammar yields for the tokens of
/// the input: the events in order and, last, the first error, if there is
/// one. It is taken over for the parse and handed back afterwards.
pub fn parse<L: EventListener>(input: &str, listener: L) -> (after: L)
    ensures
        events_delivered(&after, &listener, parse_events(lex(input.spec_bytes()), input.len())),
{
    let ghost items = until_first_error(lex(input.spec_bytes()));
    let input_size = input.len();
    let mut lexer_event_listener = LexerEventListenerImpl { listener, machine: Machine::new() };
    let ghost start = lexer_event_listener;
    tokenize_push(input, &mut lexer_event_listener);
    proof {
        lemma_pushed(&lexer_event_listener, &start, items);
    }
    let LexerEventListenerImpl { mut listener, mut machine } = lexer_event_listener;
    let ghost middle = listener;
    let output = machine.end_of_input(input_size);
    deliver(&mut listener, output);
    proof {
        lemma_events_delivered_concat(
            &listener,
            &middle,
            &start.listener,
            outputs(initial(), items),
            calls_of(output),
        );
        lemma_run_split(initial(), items, Seq::empty(), input_size);
        assert(items + Seq::<TokenResult>::empty() =~= items);
        lemma_run_until_first_error(initial(), lex(input.spec_bytes()), input_size);
    }
    listener
}

/// The listener that the lexer pushes its tokens into: it holds the state
/// machine, and the listener to which the events go.
struct LexerEventListenerImpl<L: EventListener> {
    listener: L,
    machine: Machine,
}

impl<L: EventListener> LexerEventListenerImpl<L> {
    /// Feeds one item to the state machine and passes on what it gives rise
    /// to.
    fn take(&mut self, item: TokenResult)
        ensures
            final(self).after_token(old(self), item),
    {
        let output = self.machine.feed(item);
        deliver(&mut self.listener, output);
    }
}

impl<L: EventListener> LexerEventListener for LexerEventListenerImpl<L> {
    closed spec fn after_token(&self, before: &Self, item: TokenResult) -> bool {
        let reaction = react(before.machine@, item);
        &&& self.machine@ == reaction.next
        &&& events_delivered(&self.listener, &before.listener, calls_of(reaction.output))
    }

    fn handle_int(&mut self, byte_offset: usize, i: u64) {
        self.take(Ok((byte_offset, Token::Int(i))));
    }

    fn handle_str(&mut self, byte_offset: usize, size_in_bytes: usize) {
        self.take(Ok((byte_offset, Token::Str { size_in_bytes })));
    }

    fn handle_true(&mut self, byte_offset: usize) {
        self.take(Ok((byte_offset, Token::True)));
    }

    fn handle_false(&mut self, byte_offset: usize) {
        self.take(Ok((byte_offset, Token::False)));
    }

    fn handle_null(&mut self, byte_offset: usize) {
        self.take(Ok((byte_offset, Token::Null)));
    }

    fn handle_lbracket(&mut self, byte_offset: usize) {
        self.take(Ok((byte_offset, Token::LBracket)));
    }

    fn handle_rbracket(&mut self, byte_offset: usize) {
        self.take(Ok((byte_offset, Token::RBracket)));
    }

    fn handle_lbrace(&mut self, byte_offset: usize) {
        self.take(Ok((byte_offset, Token::LBrace)));
    }

    fn handle_rbrace(&mut self, byte_offset: usize) {
        self.take(Ok((byte_offset, Token::RBrace)));
    }

    fn handle_colon(&mut self, byte_offset: usize) {
        self.take(Ok((byte_offset, Token::Colon)));
    }

    fn handle_comma(&mut self, byte_offset: usize) {
        self.take(Ok((byte_offset, Token::Comma)));
    }

    fn handle_comment(&mut self, byte_offset: usize, size_in_bytes: usize) {
        self.take(Ok((byte_offset, Token::Comment { size_in_bytes })));
    }

    fn handle_error(&mut self, byte_offset: usize) {
        self.take(Err(byte_offset));
    }
}

/// After the lexer has pushed `items`, the state machine is where the items
/// leave it, and the listener has been handed what they give rise to.
proof fn lemma_pushed<L: EventListener>(
    after: &LexerEventListenerImpl<L>,
    before: &LexerEventListenerImpl<L>,
    items: Seq<TokenResult>,
)
    requires
        tokens_delivered(after, before, items),
    ensures
        after.machine@ == feed_all(before.machine@, items),
        events_delivered(&after.listener, &before.listener, outputs(before.machine@, items)),
    decreases items.len(),
{
    if items.len() > 0 {
        let middle = lemma_tokens_delivered_last(after, before, items);
        lemma_pushed(&middle, before, items.drop_last());
        lemma_events_delivered_concat(
            &after.listener,
            &middle.listener,
            &before.listener,
            outputs(before.machine@, items.drop_last()),
            calls_of(react(middle.machine@, items.last()).output),
        );
    }
}

} // verus!
