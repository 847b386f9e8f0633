//! A parse taken apart: what a prefix of the tokens does, the part that
//! parses one value, the part that parses a nested value, and how the parts
//! make up the whole.

use vstd::prelude::*;
use crate::ParseError;
use crate::event::{EventResult, ParseEvent, ParseEventKind};
use crate::event_listener::calls_of;
use crate::event_parser::{
    after_value, consistent, done, expects_value, finish, initial, lemma_react_consistent,
    parse_events, react, run, Configuration,
};
use crate::token::{until_first_error, Token, TokenResult};

verus! {

/// The configuration that `items`, taken one after the other, leave behind.
pub open spec fn feed_all(c: Configuration, items: Seq<TokenResult>) -> Configuration
    decreases items.len(),
{
    if items.len() == 0 {
        c
    } else {
        react(feed_all(c, items.drop_last()), items.last()).next
    }
}

/// What `items`, taken one after the other, give rise to.
pub open spec fn outputs(c: Configuration, items: Seq<TokenResult>) -> Seq<EventResult>
    decreases items.len(),
{
    if items.len() == 0 {
        Seq::empty()
    } else {
        outputs(c, items.drop_last()) + calls_of(
            react(feed_all(c, items.drop_last()), items.last()).output,
        )
    }
}

/// Whatever the items, they leave the state of the parser in agreement with
/// its stack.
pub proof fn lemma_reachable_is_consistent(items: Seq<TokenResult>)
    ensures
        consistent(feed_all(initial(), items)),
    decreases items.len(),
{
    if items.len() > 0 {
        lemma_reachable_is_consistent(items.drop_last());
        lemma_react_consistent(feed_all(initial(), items.drop_last()), items.last());
    }
}

/// A parse can be cut in two: what the first part of the items gives rise
/// to, then the parse of the rest from the configuration that the first part
/// leaves behind.
pub proof fn lemma_run_split(
    c: Configuration,
    first: Seq<TokenResult>,
    rest: Seq<TokenResult>,
    input_size: usize,
)
    ensures
        run(c, first + rest, input_size) == outputs(c, first) + run(
            feed_all(c, first),
            rest,
            input_size,
        ),
    decreases first.len(),
{
    if first.len() == 0 {
        assert(first + rest =~= rest);
        assert(run(c, rest, input_size) =~= outputs(c, first) + run(c, rest, input_size));
    } else {
        let head = first.drop_last();
        let item = first.last();
        let tail = seq![item] + rest;
        lemma_run_split(c, head, tail, input_size);
        assert(head + tail =~= first + rest);
        let middle = feed_all(c, head);
        assert(tail.drop_first() =~= rest);
        assert(run(middle, tail, input_size) =~= calls_of(react(middle, item).output) + run(
            react(middle, item).next,
            rest,
            input_size,
        )) by {
            if middle.state is Failed {
                assert(run(middle, rest, input_size) =~= Seq::<EventResult>::empty());
            }
        }
        assert(run(c, first + rest, input_size) =~= outputs(c, first) + run(
            feed_all(c, first),
            rest,
            input_size,
        ));
    }
}

/// Nothing that follows the first lexical error matters to a parse.
pub proof fn lemma_run_until_first_error(
    c: Configuration,
    items: Seq<TokenResult>,
    input_size: usize,
)
    ensures
        run(c, items, input_size) == run(c, until_first_error(items), input_size),
    decreases items.len(),
{
    if c.state is Failed || items.len() == 0 {
    } else {
        let reaction = react(c, items[0]);
        match items[0] {
            Ok(_) => {
                lemma_run_until_first_error(reaction.next, items.drop_first(), input_size);
                assert(until_first_error(items).drop_first() =~= until_first_error(
                    items.drop_first(),
                ));
            },
            Err(_) => {
                assert(until_first_error(items).drop_first() =~= Seq::<TokenResult>::empty());
                assert(run(reaction.next, items.drop_first(), input_size) =~= run(
                    reaction.next,
                    until_first_error(items).drop_first(),
                    input_size,
                ));
            },
        }
    }
}

/// An error ends a parse: nothing follows it in what the parse yields.
pub proof fn lemma_error_is_last(c: Configuration, items: Seq<TokenResult>, input_size: usize)
    ensures
        forall|i: int|
            0 <= i < run(c, items, input_size).len() - 1 ==> (#[trigger] run(
                c,
                items,
                input_size,
            )[i]) is Ok,
    decreases items.len(),
{
    if c.state is Failed || items.len() == 0 {
    } else {
        let reaction = react(c, items[0]);
        let rest = run(reaction.next, items.drop_first(), input_size);
        lemma_error_is_last(reaction.next, items.drop_first(), input_size);
        if reaction.output matches Some(Err(_)) {
            assert(rest =~= Seq::<EventResult>::empty());
        }
    }
}

/// A parse that yields no error has a complete value behind it: it ends
/// with no container open. A parse from the initial configuration that ends
/// otherwise yields an error.
pub proof fn lemma_no_error_means_done(
    c: Configuration,
    items: Seq<TokenResult>,
    input_size: usize,
)
    requires
        !(c.state is Failed),
    ensures
        (forall|i: int|
            0 <= i < run(c, items, input_size).len() ==> (#[trigger] run(c, items, input_size)[i])
                is Ok) <==> feed_all(c, items).state is Done,
    decreases items.len(),
{
    let all = run(c, items, input_size);
    lemma_run_split(c, items, Seq::empty(), input_size);
    assert(items + Seq::<TokenResult>::empty() =~= items);
    let end = feed_all(c, items);
    let last = run(end, Seq::empty(), input_size);
    assert(all == outputs(c, items) + last);
    lemma_outputs_fail(c, items);
    if end.state is Done {
        assert(last =~= Seq::<EventResult>::empty());
        assert forall|i: int| 0 <= i < all.len() implies (#[trigger] all[i]) is Ok by {
            assert(all[i] == outputs(c, items)[i]);
        }
    } else if end.state is Failed {
        let i = choose|i: int| 0 <= i < outputs(c, items).len() && outputs(c, items)[i] is Err;
        assert(all[i] == outputs(c, items)[i]);
    } else {
        assert(last.len() == 1 && last[0] is Err);
        assert(all[all.len() - 1] == last[0]);
    }
}

/// What the items give rise to holds an error exactly if they leave the
/// parse failed.
pub proof fn lemma_outputs_fail(c: Configuration, items: Seq<TokenResult>)
    requires
        !(c.state is Failed),
    ensures
        feed_all(c, items).state is Failed <==> exists|i: int|
            0 <= i < outputs(c, items).len() && (#[trigger] outputs(c, items)[i]) is Err,
    decreases items.len(),
{
    if items.len() > 0 {
        let head = items.drop_last();
        lemma_outputs_fail(c, head);
        let middle = feed_all(c, head);
        let reaction = react(middle, items.last());
        let before = outputs(c, head);
        let all = outputs(c, items);
        assert(all == before + calls_of(reaction.output));
        if middle.state is Failed {
            let i = choose|i: int| 0 <= i < before.len() && (#[trigger] before[i]) is Err;
            assert(all[i] == before[i]);
        } else if reaction.next.state is Failed {
            assert(all[all.len() - 1] is Err);
        } else {
            assert forall|i: int| 0 <= i < all.len() implies !((#[trigger] all[i]) is Err) by {
                if i < before.len() {
                    assert(all[i] == before[i]);
                }
            }
        }
    }
}

/// What parsing `items` yields from configuration `c` up to the point where
/// the value is complete or the parse has failed.
pub open spec fn value_events(c: Configuration, items: Seq<TokenResult>, input_size: usize) -> Seq<
    EventResult,
>
    decreases items.len(),
{
    if c.state is Done || c.state is Failed {
        Seq::empty()
    } else if items.len() == 0 {
        calls_of(finish(c, input_size).output)
    } else {
        let reaction = react(c, items[0]);
        calls_of(reaction.output) + value_events(reaction.next, items.drop_first(), input_size)
    }
}

/// Whether parsing `items` from configuration `c` completes the value.
pub open spec fn value_complete(c: Configuration, items: Seq<TokenResult>) -> bool
    decreases items.len(),
{
    if c.state is Done {
        true
    } else if c.state is Failed || items.len() == 0 {
        false
    } else {
        value_complete(react(c, items[0]).next, items.drop_first())
    }
}

/// The items that are left when parsing `items` from configuration `c` has
/// completed the value or has failed.
pub open spec fn value_rest(c: Configuration, items: Seq<TokenResult>) -> Seq<TokenResult>
    decreases items.len(),
{
    if c.state is Done || c.state is Failed || items.len() == 0 {
        items
    } else {
        value_rest(react(c, items[0]).next, items.drop_first())
    }
}

/// The items that a parse which starts in configuration `c` leaves unread:
/// it reads up to the end, or up to the item at which it fails.
pub open spec fn unread(c: Configuration, items: Seq<TokenResult>) -> Seq<TokenResult>
    decreases items.len(),
{
    if c.state is Failed || items.len() == 0 {
        items
    } else {
        unread(react(c, items[0]).next, items.drop_first())
    }
}

/// A parse is the parse of its value followed, if the value is complete, by
/// the parse of what trails it.
pub proof fn lemma_value_then_trailing(
    c: Configuration,
    items: Seq<TokenResult>,
    input_size: usize,
)
    requires
        consistent(c),
    ensures
        value_complete(c, items) ==> run(c, items, input_size) == value_events(
            c,
            items,
            input_size,
        ) + run(done(), value_rest(c, items), input_size) && unread(c, items) == unread(
            done(),
            value_rest(c, items),
        ),
        !value_complete(c, items) ==> run(c, items, input_size) == value_events(
            c,
            items,
            input_size,
        ) && unread(c, items) == value_rest(c, items),
    decreases items.len(),
{
    if c.state is Done {
        assert(c.stack =~= Seq::empty());
        assert(c == done());
        assert(run(c, items, input_size) =~= value_events(c, items, input_size) + run(
            done(),
            value_rest(c, items),
            input_size,
        ));
    } else if c.state is Failed || items.len() == 0 {
    } else {
        let reaction = react(c, items[0]);
        lemma_react_consistent(c, items[0]);
        lemma_value_then_trailing(reaction.next, items.drop_first(), input_size);
        if value_complete(c, items) {
            assert(run(c, items, input_size) =~= value_events(c, items, input_size) + run(
                done(),
                value_rest(c, items),
                input_size,
            ));
        }
    }
}

/// Whether a value is complete with exactly `depth` containers open.
pub open spec fn settled(c: Configuration, depth: nat) -> bool {
    c.stack.len() == depth && (c.state is AfterValueInArray || c.state is AfterValueInObject
        || c.state is Done)
}

/// A part of a parse: the events it yields, the items it leaves, and the
/// configuration it ends in.
pub ghost struct Nested {
    pub events: Seq<EventResult>,
    pub rest: Seq<TokenResult>,
    pub end: Configuration,
}

/// The part of a parse that starts in configuration `c` and lasts until a
/// value is complete with `depth` containers open, or the parse has failed.
pub open spec fn nested(
    c: Configuration,
    depth: nat,
    items: Seq<TokenResult>,
    input_size: usize,
) -> Nested
    decreases items.len(),
{
    if c.state is Failed || settled(c, depth) {
        Nested { events: Seq::empty(), rest: items, end: c }
    } else if items.len() == 0 {
        let reaction = finish(c, input_size);
        Nested { events: calls_of(reaction.output), rest: items, end: reaction.next }
    } else {
        let reaction = react(c, items[0]);
        let then = nested(reaction.next, depth, items.drop_first(), input_size);
        Nested {
            events: calls_of(reaction.output) + then.events,
            rest: then.rest,
            end: then.end,
        }
    }
}

/// A part of a parse with `events` before it.
pub open spec fn prepend(events: Seq<EventResult>, part: Nested) -> Nested {
    Nested { events: events + part.events, rest: part.rest, end: part.end }
}

/// A parse is the part up to the completion of its value, followed by the
/// parse of what is left from the configuration that the part ends in.
pub proof fn lemma_nested_then_run(c: Configuration, items: Seq<TokenResult>, input_size: usize)
    ensures
        run(c, items, input_size) == nested(c, 0, items, input_size).events + run(
            nested(c, 0, items, input_size).end,
            nested(c, 0, items, input_size).rest,
            input_size,
        ),
    decreases items.len(),
{
    let part = nested(c, 0, items, input_size);
    let all = run(c, items, input_size);
    if c.state is Failed || settled(c, 0) {
        assert(all =~= part.events + all);
    } else if items.len() == 0 {
        assert(run(part.end, part.rest, input_size) =~= Seq::<EventResult>::empty());
        assert(all =~= part.events + Seq::<EventResult>::empty());
    } else {
        let reaction = react(c, items[0]);
        lemma_nested_then_run(reaction.next, items.drop_first(), input_size);
        assert(all =~= part.events + run(part.end, part.rest, input_size));
    }
}

/// With no container open, the part of a parse up to the completion of a
/// value is the parse of the value.
pub proof fn lemma_nested_is_value(c: Configuration, items: Seq<TokenResult>, input_size: usize)
    requires
        consistent(c),
    ensures
        nested(c, 0, items, input_size).events == value_events(c, items, input_size),
        nested(c, 0, items, input_size).rest == value_rest(c, items),
        nested(c, 0, items, input_size).end.state is Done <==> value_complete(c, items),
    decreases items.len(),
{
    if c.state is Failed || c.state is Done || items.len() == 0 {
    } else {
        lemma_react_consistent(c, items[0]);
        lemma_nested_is_value(react(c, items[0]).next, items.drop_first(), input_size);
    }
}

/// Whether a parse in configuration `c` has to complete a value with more
/// than `depth` containers open before it can complete one with `depth`
/// open.
pub open spec fn below(c: Configuration, depth: nat) -> bool {
    c.stack.len() > depth + 1 || (c.stack.len() == depth + 1 && (c.state is TopLevel
        || c.state is Failed || settled(c, depth + 1)))
}

/// One token leaves a parse that goes on below `depth` below it.
pub proof fn lemma_react_below(c: Configuration, depth: nat, item: TokenResult)
    requires
        below(c, depth),
        !settled(c, depth + 1),
    ensures
        below(react(c, item).next, depth),
{
    let next = react(c, item).next;
    if c.state is Failed {
    } else if c.stack.len() == depth + 1 {
    } else {
        if next.stack.len() < c.stack.len() {
            assert(next.stack == c.stack.drop_last());
            assert(next.state == after_value(next.stack));
        }
    }
}

/// The part of a parse up to a value with `depth` containers open starts
/// with the part up to a value with one more open.
pub proof fn lemma_nested_inner(
    c: Configuration,
    depth: nat,
    items: Seq<TokenResult>,
    input_size: usize,
)
    requires
        below(c, depth),
    ensures
        nested(c, depth, items, input_size) == prepend(
            nested(c, depth + 1, items, input_size).events,
            nested(
                nested(c, depth + 1, items, input_size).end,
                depth,
                nested(c, depth + 1, items, input_size).rest,
                input_size,
            ),
        ),
    decreases items.len(),
{
    let outer = nested(c, depth, items, input_size);
    let inner = nested(c, depth + 1, items, input_size);
    let then = nested(inner.end, depth, inner.rest, input_size);
    if c.state is Failed || settled(c, depth + 1) {
        assert(outer.events =~= inner.events + then.events);
    } else if items.len() == 0 {
        assert(then.events =~= Seq::<EventResult>::empty());
        assert(outer.events =~= inner.events + then.events);
    } else {
        let reaction = react(c, items[0]);
        lemma_react_below(c, depth, items[0]);
        lemma_nested_inner(reaction.next, depth, items.drop_first(), input_size);
        assert(outer.events =~= inner.events + then.events);
    }
}

/// An opening bracket at each of `offsets`.
pub open spec fn opening_brackets(offsets: Seq<usize>) -> Seq<TokenResult> {
    Seq::new(offsets.len(), |i: int| Ok((offsets[i], Token::LBracket)))
}

/// A closing bracket at each of `offsets`.
pub open spec fn closing_brackets(offsets: Seq<usize>) -> Seq<TokenResult> {
    Seq::new(offsets.len(), |i: int| Ok((offsets[i], Token::RBracket)))
}

/// The start of an array at each of `offsets`.
pub open spec fn array_starts(offsets: Seq<usize>) -> Seq<EventResult> {
    Seq::new(
        offsets.len(),
        |i: int| Ok(ParseEvent { kind: ParseEventKind::StartArray, byte_offset: offsets[i] }),
    )
}

/// The end of an array at each of `offsets`.
pub open spec fn array_ends(offsets: Seq<usize>) -> Seq<EventResult> {
    Seq::new(
        offsets.len(),
        |i: int| Ok(ParseEvent { kind: ParseEventKind::EndArray, byte_offset: offsets[i] }),
    )
}

/// Arrays nested to any depth are one value: where a value is expected, as
/// many opening brackets as one likes, followed by as many closing ones,
/// yield the start and the end of each array and leave the parser where a
/// value leaves it.
pub proof fn lemma_nested_arrays(
    c: Configuration,
    opens: Seq<usize>,
    closes: Seq<usize>,
    rest: Seq<TokenResult>,
    input_size: usize,
)
    requires
        expects_value(c.state),
        opens.len() == closes.len(),
        opens.len() > 0,
    ensures
        run(c, opening_brackets(opens) + closing_brackets(closes) + rest, input_size)
            == array_starts(opens) + array_ends(closes) + run(
            Configuration { state: after_value(c.stack), stack: c.stack },
            rest,
            input_size,
        ),
    decreases opens.len(),
{
    let items = opening_brackets(opens) + closing_brackets(closes) + rest;
    let after = Configuration { state: after_value(c.stack), stack: c.stack };
    let first = react(c, items[0]);
    let inside = first.next;
    assert(items[0] == Ok::<(usize, Token), usize>((opens[0], Token::LBracket)));
    assert(inside.stack.drop_last() =~= c.stack);
    if opens.len() == 1 {
        let behind = items.drop_first();
        assert(behind[0] == Ok::<(usize, Token), usize>((closes[0], Token::RBracket)));
        assert(behind.drop_first() =~= rest);
        assert(react(inside, behind[0]).next == after);
        let start = Ok::<ParseEvent, ParseError>(
            ParseEvent { kind: ParseEventKind::StartArray, byte_offset: opens[0] },
        );
        let end = Ok::<ParseEvent, ParseError>(
            ParseEvent { kind: ParseEventKind::EndArray, byte_offset: closes[0] },
        );
        assert(array_starts(opens) =~= seq![start]);
        assert(array_ends(closes) =~= seq![end]);
        assert(calls_of(first.output) =~= seq![start]);
        assert(calls_of(react(inside, behind[0]).output) =~= seq![end]);
        assert(run(inside, behind, input_size) == seq![end] + run(after, rest, input_size));
        assert(run(c, items, input_size) == seq![start] + run(inside, behind, input_size));
        assert(run(c, items, input_size) =~= array_starts(opens) + array_ends(closes) + run(
            after,
            rest,
            input_size,
        ));
    } else {
        let inner_opens = opens.drop_first();
        let inner_closes = closes.drop_last();
        let last = Ok::<(usize, Token), usize>((closes.last(), Token::RBracket));
        let behind = seq![last] + rest;
        lemma_nested_arrays(inside, inner_opens, inner_closes, behind, input_size);
        assert(items.drop_first() =~= opening_brackets(inner_opens) + closing_brackets(
            inner_closes,
        ) + behind);
        let element = Configuration { state: after_value(inside.stack), stack: inside.stack };
        assert(behind.drop_first() =~= rest);
        assert(react(element, behind[0]).next == after);
        assert(run(element, behind, input_size) =~= seq![
            Ok::<ParseEvent, ParseError>(
                ParseEvent { kind: ParseEventKind::EndArray, byte_offset: closes.last() },
            ),
        ] + run(after, rest, input_size));
        let start = Ok::<ParseEvent, ParseError>(
            ParseEvent { kind: ParseEventKind::StartArray, byte_offset: opens[0] },
        );
        let end = Ok::<ParseEvent, ParseError>(
            ParseEvent { kind: ParseEventKind::EndArray, byte_offset: closes.last() },
        );
        assert(array_starts(opens) =~= seq![start] + array_starts(inner_opens));
        assert(array_ends(closes) =~= array_ends(inner_closes) + seq![end]);
        assert(run(c, items, input_size) == calls_of(first.output) + run(
            inside,
            items.drop_first(),
            input_size,
        ));
        assert(calls_of(first.output) =~= seq![start]);
        assert(run(c, items, input_size) =~= seq![start] + (array_starts(inner_opens)
            + array_ends(inner_closes) + (seq![end] + run(after, rest, input_size))));
        assert(run(c, items, input_size) =~= array_starts(opens) + array_ends(closes) + run(
            after,
            rest,
            input_size,
        ));
    }
}

/// An array nested to any depth parses to the start and the end of each of
/// its levels, without an error.
pub proof fn lemma_arrays_of_any_depth(opens: Seq<usize>, closes: Seq<usize>, input_size: usize)
    requires
        opens.len() == closes.len(),
        opens.len() > 0,
    ensures
        parse_events(opening_brackets(opens) + closing_brackets(closes), input_size)
            == array_starts(opens) + array_ends(closes),
{
    let items = opening_brackets(opens) + closing_brackets(closes);
    lemma_nested_arrays(initial(), opens, closes, Seq::empty(), input_size);
    assert(items + Seq::<TokenResult>::empty() =~= items);
    assert(run(done(), Seq::empty(), input_size) =~= Seq::<EventResult>::empty());
    assert(initial().stack =~= done().stack);
    assert(array_starts(opens) + array_ends(closes) + Seq::<EventResult>::empty() =~= array_starts(
        opens,
    ) + array_ends(closes));
}

} // verus!
