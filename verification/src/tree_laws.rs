//! The events of a text always describe a tree.

use vstd::prelude::*;
use vstd::utf8::{
    is_char_boundary_iff_not_is_continuation_byte, is_continuation_byte, pop_first_scalar,
    valid_utf8, valid_utf8_split,
};
use crate::ParseError;
use crate::direct_non_recursive::parse_tree;
use crate::event::{EventResult, ParseEvent};
use crate::event_listener::calls_of;
use crate::event_parser::{
    consistent, done, initial, lemma_react_consistent, parse_events, react, run, Configuration,
    ParserState,
};
use crate::event_to_tree::{
    build_step, events_after_tree, first_failure, is_text_range, string_at, tree_from, tree_of,
    Partial, Progress,
};
use crate::lexer::{
    QUOTE,
    lemma_lex_from_unfold, lemma_scan_advances, lemma_token_span, lex, lex_from, scan,
};
use crate::parse_parts::{value_complete, value_rest};
use crate::simple_ast::JsonValue;
use crate::token::{Token, TokenResult};

verus! {

/// Whether every string among `items` spans text of `bytes`.
pub open spec fn strings_are_text(items: Seq<TokenResult>, bytes: Seq<u8>) -> bool {
    forall|i: int|
        0 <= i < items.len() ==> (#[trigger] items[i] matches Ok(
            (byte_offset, Token::Str { size_in_bytes }),
        ) ==> string_at(bytes, byte_offset, size_in_bytes) is Some)
}

/// In a text, what stands between two quotes is a range of whole characters.
pub proof fn lemma_quoted_is_text(bytes: Seq<u8>, open: int, close: int)
    requires
        valid_utf8(bytes),
        0 <= open < close < bytes.len(),
        bytes[open] == QUOTE,
        bytes[close] == QUOTE,
    ensures
        is_text_range(bytes, open + 1, close),
{
    is_char_boundary_iff_not_is_continuation_byte(bytes, open);
    is_char_boundary_iff_not_is_continuation_byte(bytes, close);
    is_char_boundary_iff_not_is_continuation_byte(bytes, open + 1);
    valid_utf8_split(bytes, open);
    let tail = bytes.subrange(open, bytes.len() as int);
    assert(tail[0] == bytes[open]);
    assert(valid_utf8(tail));
    let behind = pop_first_scalar(tail);
    assert(behind.len() > 0);
    assert(behind[0] == bytes[open + 1]);
    assert(valid_utf8(behind));
    assert(!is_continuation_byte(behind[0]));
}

/// Every string that the lexer finds in a text spans text.
pub proof fn lemma_lexed_strings_are_text(bytes: Seq<u8>, pos: int)
    requires
        valid_utf8(bytes),
        bytes.len() <= usize::MAX,
        0 <= pos <= bytes.len(),
    ensures
        strings_are_text(lex_from(bytes, pos), bytes),
    decreases bytes.len() - pos,
{
    lemma_scan_advances(bytes, pos);
    lemma_lex_from_unfold(bytes, pos);
    lemma_token_span(bytes, pos);
    let step = scan(bytes, pos);
    if step.item is Some {
        lemma_lexed_strings_are_text(bytes, step.next);
        let items = lex_from(bytes, pos);
        let rest = lex_from(bytes, step.next);
        assert forall|i: int| 0 <= i < items.len() implies (#[trigger] items[i] matches Ok(
            (byte_offset, Token::Str { size_in_bytes }),
        ) ==> string_at(bytes, byte_offset, size_in_bytes) is Some) by {
            if i == 0 {
                if let Some(Ok((byte_offset, Token::Str { size_in_bytes }))) = step.item {
                    lemma_quoted_is_text(bytes, byte_offset - 1, byte_offset + size_in_bytes);
                }
            } else {
                assert(items[i] == rest[i - 1]);
            }
        }
    }
}

/// Whether a container that is being built can take a value.
pub open spec fn takes_value(partial: Partial) -> bool {
    partial is Array || partial->next is Some
}

/// Whether the containers that are being built are those that the parser
/// holds open, each as far along as the state of the parser says: a
/// container in which another one is open waits for that as its value, and
/// so does the innermost one where the parser expects a value; in an object
/// a key waits for its value exactly from the key to the value.
pub open spec fn agrees(c: Configuration, stack: Seq<Partial>) -> bool {
    &&& c.stack.len() == stack.len()
    &&& forall|i: int|
        0 <= i < stack.len() ==> (c.stack[i] is Array <==> (#[trigger] stack[i]) is Array)
    &&& forall|i: int| 0 <= i < stack.len() - 1 ==> takes_value(#[trigger] stack[i])
    &&& stack.len() > 0 ==> match c.state {
        ParserState::TopLevel | ParserState::ObjectExpectColon => takes_value(stack.last()),
        ParserState::ObjectExpectKey
        | ParserState::ObjectExpectKeyOrClose
        | ParserState::AfterValueInObject => !takes_value(stack.last()),
        _ => true,
    }
}

/// One token keeps the tree that is being built in step with the parser:
/// the event that the token gives rise to never fails to build, and it
/// completes the tree exactly when it completes the value.
pub proof fn lemma_token_keeps_agreement(
    c: Configuration,
    stack: Seq<Partial>,
    item: TokenResult,
    bytes: Seq<u8>,
)
    requires
        consistent(c),
        agrees(c, stack),
        !(c.state is Failed),
        !(c.state is Done),
        item matches Ok((byte_offset, Token::Str { size_in_bytes })) ==> string_at(
            bytes,
            byte_offset,
            size_in_bytes,
        ) is Some,
    ensures
        consistent(react(c, item).next),
        match react(c, item).output {
            None => agrees(react(c, item).next, stack) && !(react(c, item).next.state is Done),
            Some(Err(_)) => react(c, item).next.state is Failed,
            Some(Ok(event)) => match build_step(stack, event, bytes) {
                Progress::Building(next) => agrees(react(c, item).next, next) && !(react(
                    c,
                    item,
                ).next.state is Done) && !(react(c, item).next.state is Failed),
                Progress::Finished(_) => react(c, item).next.state is Done,
                Progress::Failed(_) => false,
            },
        },
{
    lemma_react_consistent(c, item);
    let reaction = react(c, item);
    match reaction.output {
        Some(Ok(event)) => {
            let progress = build_step(stack, event, bytes);
            if reaction.next.stack.len() < c.stack.len() {
                // A container was closed.
                let below = stack.drop_last();
                assert(reaction.next.stack == c.stack.drop_last());
                if below.len() > 0 {
                    assert(takes_value(stack[below.len() - 1]));
                    assert(below.last() == stack[below.len() - 1]);
                    assert(progress is Building);
                    let next = progress->Building_0;
                    assert(next.len() == below.len());
                    assert forall|i: int| 0 <= i < next.len() implies (reaction.next.stack[i]
                        is Array <==> (#[trigger] next[i]) is Array) by {
                        assert(reaction.next.stack[i] == c.stack[i]);
                        if i < next.len() - 1 {
                            assert(next[i] == stack[i]);
                        } else {
                            assert(below.last() is Array <==> next[i] is Array);
                        }
                    }
                    assert forall|i: int| 0 <= i < next.len() - 1 implies takes_value(
                        #[trigger] next[i],
                    ) by {
                        assert(next[i] == stack[i]);
                    }
                }
            } else if reaction.next.stack.len() > c.stack.len() {
                // A container was opened.
                assert(progress is Building);
                let next = progress->Building_0;
                assert forall|i: int| 0 <= i < next.len() implies (reaction.next.stack[i]
                    is Array <==> (#[trigger] next[i]) is Array) by {
                    if i < stack.len() {
                        assert(next[i] == stack[i]);
                        assert(reaction.next.stack[i] == c.stack[i]);
                    }
                }
                assert forall|i: int| 0 <= i < next.len() - 1 implies takes_value(
                    #[trigger] next[i],
                ) by {
                    assert(next[i] == stack[i]);
                    if i == stack.len() - 1 {
                        assert(stack[i] == stack.last());
                    }
                }
            } else if event.kind is Comment {
            } else {
                // A scalar, or a key.
                if stack.len() > 0 {
                    assert(progress is Building);
                    let next = progress->Building_0;
                    assert(next.len() == stack.len());
                    assert forall|i: int| 0 <= i < next.len() implies (reaction.next.stack[i]
                        is Array <==> (#[trigger] next[i]) is Array) by {
                        if i < next.len() - 1 {
                            assert(next[i] == stack[i]);
                        } else {
                            assert(stack.last() is Array <==> next[i] is Array);
                        }
                    }
                    assert forall|i: int| 0 <= i < next.len() - 1 implies takes_value(
                        #[trigger] next[i],
                    ) by {
                        assert(next[i] == stack[i]);
                    }
                }
            }
        },
        _ => {},
    }
}

/// The events of a parse describe a tree as far as the parse goes: building
/// from them succeeds exactly if the parse completes its value, fails only
/// with the error of the parse, and leaves the events that trail the value.
pub proof fn lemma_parse_builds(
    c: Configuration,
    stack: Seq<Partial>,
    items: Seq<TokenResult>,
    bytes: Seq<u8>,
    input_size: usize,
)
    requires
        consistent(c),
        agrees(c, stack),
        !(c.state is Failed),
        !(c.state is Done),
        strings_are_text(items, bytes),
        input_size == bytes.len(),
    ensures
        tree_from(stack, run(c, items, input_size), bytes) is Ok <==> value_complete(c, items),
        tree_from(stack, run(c, items, input_size), bytes) matches Err(error) ==> first_failure(
            run(c, items, input_size),
        ) == Some(error),
        value_complete(c, items) ==> events_after_tree(stack, run(c, items, input_size), bytes)
            == run(done(), value_rest(c, items), input_size) && first_failure(
            run(c, items, input_size),
        ) == first_failure(run(done(), value_rest(c, items), input_size)),
    decreases items.len(),
{
    let events = run(c, items, input_size);
    if items.len() == 0 {
        assert(events.len() == 1);
        assert(events[0] is Err);
        assert(!value_complete(c, items));
    } else {
        let reaction = react(c, items[0]);
        let rest = items.drop_first();
        let then = run(reaction.next, rest, input_size);
        assert(events == calls_of(reaction.output) + then);
        assert(value_complete(c, items) == value_complete(reaction.next, rest));
        assert(value_rest(c, items) == value_rest(reaction.next, rest));
        lemma_token_keeps_agreement(c, stack, items[0], bytes);
        assert(strings_are_text(rest, bytes)) by {
            assert forall|i: int| 0 <= i < rest.len() implies (#[trigger] rest[i] matches Ok(
                (byte_offset, Token::Str { size_in_bytes }),
            ) ==> string_at(bytes, byte_offset, size_in_bytes) is Some) by {
                assert(rest[i] == items[i + 1]);
            }
        }
        match reaction.output {
            None => {
                assert(events =~= then);
                lemma_parse_builds(reaction.next, stack, rest, bytes, input_size);
            },
            Some(Err(error)) => {
                assert(then =~= Seq::<EventResult>::empty());
                assert(events =~= seq![Err::<ParseEvent, ParseError>(error)]);
                assert(events[0] == Err::<ParseEvent, ParseError>(error));
                assert(!value_complete(reaction.next, rest));
            },
            Some(Ok(event)) => {
                assert(events[0] == Ok::<ParseEvent, ParseError>(event));
                assert(events.drop_first() =~= then);
                assert(first_failure(events) == first_failure(then));
                match build_step(stack, event, bytes) {
                    Progress::Building(next) => {
                        lemma_parse_builds(reaction.next, next, rest, bytes, input_size);
                        assert(tree_from(stack, events, bytes) == tree_from(next, then, bytes));
                        assert(events_after_tree(stack, events, bytes) == events_after_tree(
                            next,
                            then,
                            bytes,
                        ));
                    },
                    Progress::Finished(value) => {
                        assert(reaction.next.stack =~= Seq::empty());
                        assert(reaction.next == done());
                        assert(tree_from(stack, events, bytes) == Ok::<JsonValue, ParseError>(
                            value,
                        ));
                        assert(events_after_tree(stack, events, bytes) == then);
                        assert(value_complete(reaction.next, rest));
                        assert(value_rest(reaction.next, rest) == rest);
                    },
                    Progress::Failed(_) => {},
                }
            },
        }
    }
}

/// The events of a text always describe a tree: building a tree from them
/// succeeds exactly if the parse completes a value, and parsing the text to
/// a tree as a whole succeeds exactly if the parse yields no error. Where
/// either fails, it fails with the error of the parse.
pub proof fn lemma_events_describe_a_tree(bytes: Seq<u8>)
    requires
        valid_utf8(bytes),
        bytes.len() <= usize::MAX,
    ensures
        tree_of(parse_events(lex(bytes), bytes.len() as usize), bytes) is Ok <==> value_complete(
            initial(),
            lex(bytes),
        ),
        tree_of(parse_events(lex(bytes), bytes.len() as usize), bytes) matches Err(error)
            ==> first_failure(parse_events(lex(bytes), bytes.len() as usize)) == Some(error),
        parse_tree(bytes) is Ok <==> first_failure(
            parse_events(lex(bytes), bytes.len() as usize),
        ) is None,
        parse_tree(bytes) matches Err(error) ==> first_failure(
            parse_events(lex(bytes), bytes.len() as usize),
        ) == Some(error),
{
    lemma_lexed_strings_are_text(bytes, 0);
    lemma_parse_builds(initial(), Seq::empty(), lex(bytes), bytes, bytes.len() as usize);
}

} // verus!
