//! A listener that collects the events that are pushed to it.

use vstd::prelude::*;
use crate::ParseError;
use crate::event::{EventResult, ParseEvent, ParseEventKind};
use crate::event_listener::{events_delivered, lemma_events_delivered_last, EventListener};

verus! {

/// A listener that collects what a parser delivers: the events in order, and
/// the error that was delivered last.
pub struct PushToEvents {
    events: Vec<ParseEvent>,
    error: Option<ParseError>,
}

impl View for PushToEvents {
    type V = (Seq<ParseEvent>, Option<ParseError>);

    closed spec fn view(&self) -> Self::V {
        (self.events@, self.error)
    }
}

impl EventListener for PushToEvents {
    open spec fn after_event(&self, before: &Self, call: EventResult) -> bool {
        match call {
            Ok(event) => self@ == (before@.0.push(event), before@.1),
            Err(error) => self@ == (before@.0, Some(error)),
        }
    }

    fn handle_start_object(&mut self, byte_offset: usize) {
        self.events.push(ParseEvent::new(byte_offset, ParseEventKind::StartObject));
    }

    fn handle_end_object(&mut self, byte_offset: usize) {
        self.events.push(ParseEvent::new(byte_offset, ParseEventKind::EndObject));
    }

    fn handle_start_array(&mut self, byte_offset: usize) {
        self.events.push(ParseEvent::new(byte_offset, ParseEventKind::StartArray));
    }

    fn handle_end_array(&mut self, byte_offset: usize) {
        self.events.push(ParseEvent::new(byte_offset, ParseEventKind::EndArray));
    }

    fn handle_int(&mut self, byte_offset: usize, i: u64) {
        self.events.push(ParseEvent::new(byte_offset, ParseEventKind::Int(i)));
    }

    fn handle_str(&mut self, byte_offset: usize, size_in_bytes: usize) {
        self.events.push(ParseEvent::new(byte_offset, ParseEventKind::Str { size_in_bytes }));
    }

    fn handle_bool(&mut self, byte_offset: usize, b: bool) {
        self.events.push(ParseEvent::new(byte_offset, ParseEventKind::Bool(b)));
    }

    fn handle_null(&mut self, byte_offset: usize) {
        self.events.push(ParseEvent::new(byte_offset, ParseEventKind::Null));
    }

    fn handle_comment(&mut self, byte_offset: usize, size_in_bytes: usize) {
        self.events.push(
            ParseEvent::new(byte_offset, ParseEventKind::Comment { size_in_bytes }),
        );
    }

    fn handle_error(&mut self, error: ParseError) {
        self.error = Some(error);
    }
}

impl PushToEvents {
    /// A collector that has seen nothing yet.
    pub fn new() -> (listener: PushToEvents)
        ensures
            listener@ == (Seq::<ParseEvent>::empty(), None::<ParseError>),
    {
        PushToEvents { events: Vec::new(), error: None }
    }

    /// The events collected, and the error that was delivered last, if any.
    pub fn into_events(self) -> (collected: (Vec<ParseEvent>, Option<ParseError>))
        ensures
            collected.0@ == self@.0,
            collected.1 == self@.1,
    {
        (self.events, self.error)
    }
}

/// The events among `calls`, in order.
pub open spec fn events_of(calls: Seq<EventResult>) -> Seq<ParseEvent>
    decreases calls.len(),
{
    if calls.len() == 0 {
        Seq::empty()
    } else {
        match calls.last() {
            Ok(event) => events_of(calls.drop_last()).push(event),
            Err(_) => events_of(calls.drop_last()),
        }
    }
}

/// The last error among `calls`, if there is one.
pub open spec fn last_error_of(calls: Seq<EventResult>) -> Option<ParseError>
    decreases calls.len(),
{
    if calls.len() == 0 {
        None
    } else {
        match calls.last() {
            Ok(_) => last_error_of(calls.drop_last()),
            Err(error) => Some(error),
        }
    }
}

/// What a collector holds after a delivery: the events it held before
/// followed by the events delivered, and the last error delivered, or the
/// error it held before when none was delivered.
pub proof fn lemma_collected_events(
    after: &PushToEvents,
    before: &PushToEvents,
    calls: Seq<EventResult>,
)
    requires
        events_delivered(after, before, calls),
    ensures
        after@.0 == before@.0 + events_of(calls),
        after@.1 == match last_error_of(calls) {
            Some(error) => Some(error),
            None => before@.1,
        },
    decreases calls.len(),
{
    if calls.len() == 0 {
        assert(after@.0 =~= before@.0 + events_of(calls));
    } else {
        let middle = lemma_events_delivered_last(after, before, calls);
        lemma_collected_events(&middle, before, calls.drop_last());
        assert(after@.0 =~= before@.0 + events_of(calls));
    }
}

} // verus!
