//! The pull parser: one event per request.

use vstd::prelude::*;
use crate::event::{EventResult, EventSource};
use crate::event_listener::calls_of;
use crate::event_parser::{
    finish, initial, parse_events, react, run, Configuration, Machine, ParserState,
};
use crate::token::{TokenResult, TokenSource};

verus! {

/// What a pull parser is, to its contracts: the configuration of its state
/// machine, the items that its token source has not handed out yet, and the
/// offset at which it reports the end of the input.
pub ghost struct ParserView {
    pub config: Configuration,
    pub remaining: Seq<TokenResult>,
    pub input_size: usize,
}

/// One request for the next event: what is handed out, and the parser
/// afterwards.
pub ghost struct Pull {
    pub output: Option<EventResult>,
    pub after: ParserView,
}

/// What one request for the next event does.
///
/// After a failure there is nothing more. Otherwise tokens are taken from the
/// source until one gives rise to an event or an error: commas and colons
/// are consumed on the way. When the source is exhausted, the sequence ends
/// if the value is complete, and fails with an error if it is not.
pub open spec fn pull(p: ParserView) -> Pull
    decreases p.remaining.len(),
{
    if p.config.state is Failed {
        Pull { output: None, after: p }
    } else if p.remaining.len() == 0 {
        let reaction = finish(p.config, p.input_size);
        Pull {
            output: reaction.output,
            after: ParserView {
                config: reaction.next,
                remaining: p.remaining,
                input_size: p.input_size,
            },
        }
    } else {
        let reaction = react(p.config, p.remaining[0]);
        let after = ParserView {
            config: reaction.next,
            remaining: p.remaining.drop_first(),
            input_size: p.input_size,
        };
        if reaction.output is Some {
            Pull { output: reaction.output, after }
        } else {
            pull(after)
        }
    }
}

/// How far a parser is from the end of its sequence: every request that
/// hands something out brings it closer.
pub open spec fn distance(p: ParserView) -> nat {
    if p.config.state is Failed {
        0
    } else {
        p.remaining.len() + 1
    }
}

/// Everything that a pull parser hands out, request by request, until it
/// hands out nothing.
pub open spec fn pull_all(p: ParserView) -> Seq<EventResult>
    decreases distance(p),
{
    let step = pull(p);
    if step.output is Some && distance(step.after) < distance(p) {
        seq![step.output->Some_0] + pull_all(step.after)
    } else {
        Seq::empty()
    }
}

/// A request that hands something out brings the parser closer to the end of
/// its sequence, an error ends it, and what the parser yields in all is what
/// was handed out followed by what it yields afterwards.
pub proof fn lemma_pull(p: ParserView)
    ensures
        pull(p).after.input_size == p.input_size,
        pull(p).output is Some ==> distance(pull(p).after) < distance(p),
        pull(p).output matches Some(Err(_)) ==> pull(p).after.config.state is Failed,
        run(p.config, p.remaining, p.input_size) == calls_of(pull(p).output) + run(
            pull(p).after.config,
            pull(p).after.remaining,
            p.input_size,
        ),
        pull(p).output is None ==> run(p.config, p.remaining, p.input_size) == Seq::<
            EventResult,
        >::empty(),
    decreases p.remaining.len(),
{
    let all = run(p.config, p.remaining, p.input_size);
    if p.config.state is Failed {
        assert(all =~= calls_of(pull(p).output) + all);
    } else if p.remaining.len() == 0 {
        let reaction = finish(p.config, p.input_size);
        assert(run(reaction.next, p.remaining, p.input_size) =~= Seq::<EventResult>::empty());
        assert(all =~= calls_of(reaction.output) + Seq::<EventResult>::empty());
    } else {
        let reaction = react(p.config, p.remaining[0]);
        let after = ParserView {
            config: reaction.next,
            remaining: p.remaining.drop_first(),
            input_size: p.input_size,
        };
        if reaction.output is Some {
        } else {
            lemma_pull(after);
            assert(all =~= run(after.config, after.remaining, p.input_size));
        }
    }
}

/// The pull parser yields, request by request, exactly what the grammar
/// yields for its tokens.
pub proof fn lemma_pull_all_is_run(p: ParserView)
    ensures
        pull_all(p) == run(p.config, p.remaining, p.input_size),
    decreases distance(p),
{
    lemma_pull(p);
    let step = pull(p);
    if step.output is Some {
        lemma_pull_all_is_run(step.after);
        assert(calls_of(step.output) =~= seq![step.output->Some_0]);
    }
}

/// The two delivery models yield the same: request by request, the pull
/// parser hands out exactly the calls that a push parser makes on its
/// listener for the same tokens, in the same order, with the same offsets,
/// payloads and error.
pub proof fn lemma_pull_equals_push(items: Seq<TokenResult>, input_size: usize)
    ensures
        pull_all(ParserView { config: initial(), remaining: items, input_size }) == parse_events(
            items,
            input_size,
        ),
{
    lemma_pull_all_is_run(ParserView { config: initial(), remaining: items, input_size });
}

/// What is handed out first is the first item of the whole sequence, and the
/// rest of the sequence is what the parser yields afterwards.
pub proof fn lemma_handed_out(p: ParserView)
    ensures
        pull(p).output is None ==> pull_all(p).len() == 0,
        pull(p).output matches Some(item) ==> pull_all(p).len() > 0 && pull_all(p)[0] == item
            && pull_all(pull(p).after) == pull_all(p).drop_first(),
{
    lemma_pull(p);
    let step = pull(p);
    if step.output is Some {
        assert(pull_all(step.after) =~= pull_all(p).drop_first());
    }
}

/// Makes a pull parser over the tokens of `lexer`. `input_size` is the
/// offset at which an unexpected end of the input is reported.
pub fn parse_events_iter_using_lexer_iter<I: TokenSource>(lexer: I, input_size: usize) -> (parser:
    EventParser<I>)
    ensures
        parser@ == (ParserView { config: initial(), remaining: lexer.remaining(), input_size }),
{
    EventParser::new(lexer, input_size)
}

/// A pull parser: hands out one event per request.
pub struct EventParser<I: TokenSource> {
    lexer: I,
    machine: Machine,
    input_size: usize,
}

impl<I: TokenSource> View for EventParser<I> {
    type V = ParserView;

    closed spec fn view(&self) -> ParserView {
        ParserView {
            config: self.machine@,
            remaining: self.lexer.remaining(),
            input_size: self.input_size,
        }
    }
}

impl<I: TokenSource> EventParser<I> {
    /// Makes a pull parser over the tokens of `lexer`.
    pub fn new(lexer: I, input_size: usize) -> (parser: EventParser<I>)
        ensures
            parser@ == (ParserView { config: initial(), remaining: lexer.remaining(), input_size }),
    {
        EventParser { lexer, machine: Machine::new(), input_size }
    }
}

impl<I: TokenSource> EventSource for EventParser<I> {
    open spec fn remaining(&self) -> Seq<EventResult> {
        pull_all(self@)
    }

    /// Hands out the next event, the error that ends the parse, or `None`
    /// when the parse is over.
    fn next(&mut self) -> (output: Option<EventResult>)
        ensures
            (Pull { output, after: final(self)@ }) == pull(old(self)@),
    {
        proof {
            lemma_pull(self@);
        }
        loop
            invariant
                pull(self@) == pull(old(self)@),
            decreases self.lexer.remaining().len(),
        {
            match self.machine.state() {
                ParserState::Failed => {
                    return None;
                },
                _ => {},
            }
            match self.lexer.next() {
                None => {
                    let output = self.machine.end_of_input(self.input_size);
                    proof {
                        lemma_handed_out(old(self)@);
                    }
                    return output;
                },
                Some(item) => {
                    let output = self.machine.feed(item);
                    if output.is_some() {
                        proof {
                            lemma_handed_out(old(self)@);
                        }
                        return output;
                    }
                },
            }
        }
    }
}

} // verus!
