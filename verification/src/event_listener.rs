//! The listener to which a push parser delivers its events.

use vstd::prelude::*;
use crate::ParseError;
use crate::event::{EventResult, ParseEvent, ParseEventKind};

verus! {

/// A consumer to which a parser delivers its events, one call per event, and
/// the error that ends the parse, if there is one.
///
/// `after_event` says how an implementation reacts to a call: every handler
/// must leave the listener in a state that follows, by `after_event`, from the
/// state in which it was called. The contracts of the functions that drive a
/// listener are stated through it.
pub trait EventListener {
    /// Whether `self` is a state that `before` may be in after it was handed
    /// `call`.
    spec fn after_event(&self, before: &Self, call: EventResult) -> bool;

    /// An object starts at `byte_offset`.
    fn handle_start_object(&mut self, byte_offset: usize)
        ensures
            final(self).after_event(
                old(self),
                Ok(ParseEvent { kind: ParseEventKind::StartObject, byte_offset }),
            ),
    ;

    /// The innermost open object ends at `byte_offset`.
    fn handle_end_object(&mut self, byte_offset: usize)
        ensures
            final(self).after_event(
                old(self),
                Ok(ParseEvent { kind: ParseEventKind::EndObject, byte_offset }),
            ),
    ;

    /// An array starts at `byte_offset`.
    fn handle_start_array(&mut self, byte_offset: usize)
        ensures
            final(self).after_event(
                old(self),
                Ok(ParseEvent { kind: ParseEventKind::StartArray, byte_offset }),
            ),
    ;

    /// The innermost open array ends at `byte_offset`.
    fn handle_end_array(&mut self, byte_offset: usize)
        ensures
            final(self).after_event(
                old(self),
                Ok(ParseEvent { kind: ParseEventKind::EndArray, byte_offset }),
            ),
    ;

    /// An integer at `byte_offset`.
    fn handle_int(&mut self, byte_offset: usize, i: u64)
        ensures
            final(self).after_event(
                old(self),
                Ok(ParseEvent { kind: ParseEventKind::Int(i), byte_offset }),
            ),
    ;

    /// A string: `size_in_bytes` bytes of the input, from `byte_offset`.
    fn handle_str(&mut self, byte_offset: usize, size_in_bytes: usize)
        ensures
            final(self).after_event(
                old(self),
                Ok(ParseEvent { kind: ParseEventKind::Str { size_in_bytes }, byte_offset }),
            ),
    ;

    /// A boolean at `byte_offset`.
    fn handle_bool(&mut self, byte_offset: usize, b: bool)
        ensures
            final(self).after_event(
                old(self),
                Ok(ParseEvent { kind: ParseEventKind::Bool(b), byte_offset }),
            ),
    ;

    /// A null at `byte_offset`.
    fn handle_null(&mut self, byte_offset: usize)
        ensures
            final(self).after_event(
                old(self),
                Ok(ParseEvent { kind: ParseEventKind::Null, byte_offset }),
            ),
    ;

    /// A comment: `size_in_bytes` bytes of the input, from `byte_offset`.
    fn handle_comment(&mut self, byte_offset: usize, size_in_bytes: usize)
        ensures
            final(self).after_event(
                old(self),
                Ok(ParseEvent { kind: ParseEventKind::Comment { size_in_bytes }, byte_offset }),
            ),
    ;

    /// The parse has failed with `error`; nothing follows.
    fn handle_error(&mut self, error: ParseError)
        ensures
            final(self).after_event(old(self), Err(error)),
    ;
}

/// Whether `after` is a state that `before` may be in after it was handed
/// `calls`, one call each, in order, and nothing else.
pub open spec fn events_delivered<L: EventListener>(
    after: &L,
    before: &L,
    calls: Seq<EventResult>,
) -> bool
    decreases calls.len(),
{
    if calls.len() == 0 {
        after == before
    } else {
        exists|middle: L|
            events_delivered(&middle, before, calls.drop_last()) && #[trigger] after.after_event(
                &middle,
                calls.last(),
            )
    }
}

/// The state in which the last call of a delivery was made.
pub proof fn lemma_events_delivered_last<L: EventListener>(
    after: &L,
    before: &L,
    calls: Seq<EventResult>,
) -> (middle: L)
    requires
        events_delivered(after, before, calls),
        calls.len() > 0,
    ensures
        events_delivered(&middle, before, calls.drop_last()),
        after.after_event(&middle, calls.last()),
{
    choose|middle: L|
        events_delivered(&middle, before, calls.drop_last()) && #[trigger] after.after_event(
            &middle,
            calls.last(),
        )
}

/// One more call extends a delivery by one.
pub proof fn lemma_events_delivered_push<L: EventListener>(
    after: &L,
    middle: &L,
    before: &L,
    calls: Seq<EventResult>,
    call: EventResult,
)
    requires
        events_delivered(middle, before, calls),
        after.after_event(middle, call),
    ensures
        events_delivered(after, before, calls.push(call)),
{
    let all = calls.push(call);
    assert(all.drop_last() =~= calls);
    assert(all.last() == call);
    assert(after.after_event(middle, all.last()));
}

/// A delivery followed by a delivery is the delivery of both.
pub proof fn lemma_events_delivered_concat<L: EventListener>(
    after: &L,
    middle: &L,
    before: &L,
    first: Seq<EventResult>,
    second: Seq<EventResult>,
)
    requires
        events_delivered(middle, before, first),
        events_delivered(after, middle, second),
    ensures
        events_delivered(after, before, first + second),
    decreases second.len(),
{
    if second.len() == 0 {
        assert(first + second =~= first);
    } else {
        let inner = lemma_events_delivered_last(after, middle, second);
        lemma_events_delivered_concat(&inner, middle, before, first, second.drop_last());
        lemma_events_delivered_push(
            after,
            &inner,
            before,
            first + second.drop_last(),
            second.last(),
        );
        assert((first + second.drop_last()).push(second.last()) =~= first + second);
    }
}

/// Hands the event to the handler that is meant for its kind.
pub fn deliver_event<L: EventListener>(listener: &mut L, event: ParseEvent)
    ensures
        final(listener).after_event(old(listener), Ok(event)),
{
    let byte_offset = event.byte_offset;
    match event.kind {
        ParseEventKind::StartObject => listener.handle_start_object(byte_offset),
        ParseEventKind::EndObject => listener.handle_end_object(byte_offset),
        ParseEventKind::StartArray => listener.handle_start_array(byte_offset),
        ParseEventKind::EndArray => listener.handle_end_array(byte_offset),
        ParseEventKind::Int(i) => listener.handle_int(byte_offset, i),
        ParseEventKind::Str { size_in_bytes } => listener.handle_str(byte_offset, size_in_bytes),
        ParseEventKind::Bool(b) => listener.handle_bool(byte_offset, b),
        ParseEventKind::Null => listener.handle_null(byte_offset),
        ParseEventKind::Comment { size_in_bytes } => listener.handle_comment(
            byte_offset,
            size_in_bytes,
        ),
    }
}

/// The calls that a parser's output for one token amounts to: one, or none.
pub open spec fn calls_of(output: Option<EventResult>) -> Seq<EventResult> {
    match output {
        Some(call) => seq![call],
        None => Seq::empty(),
    }
}

/// Hands a parser's output for one token to the listener: an event or an
/// error to the handler that is meant for it, and nothing when there is none.
pub fn deliver<L: EventListener>(listener: &mut L, output: Option<EventResult>)
    ensures
        events_delivered(final(listener), old(listener), calls_of(output)),
{
    let ghost before = *listener;
    match output {
        Some(Ok(event)) => {
            deliver_event(listener, event);
            proof {
                lemma_events_delivered_push(
                    listener,
                    &before,
                    &before,
                    Seq::empty(),
                    Ok(event),
                );
                assert(Seq::<EventResult>::empty().push(Ok(event)) =~= calls_of(output));
            }
        },
        Some(Err(error)) => {
            listener.handle_error(error);
            proof {
                lemma_events_delivered_push(
                    listener,
                    &before,
                    &before,
                    Seq::empty(),
                    Err(error),
                );
                assert(Seq::<EventResult>::empty().push(Err(error)) =~= calls_of(output));
            }
        },
        None => {},
    }
}

} // verus!
