//! Parse events, and sources of them.

use vstd::prelude::*;
use crate::ParseError;

verus! {

/// What a parse event reports.
#[derive(Debug, Clone, Copy, PartialEq, Eq, Structural)]
pub enum ParseEventKind {
    StartObject,
    EndObject,
    StartArray,
    EndArray,
    Int(u64),
    /// A string: the bytes between the quotes, starting at the event's offset.
    Str { size_in_bytes: usize },
    Bool(bool),
    Null,
    /// A line comment, starting at the event's offset.
    Comment { size_in_bytes: usize },
}

/// A structural or scalar occurrence in the input, with the byte offset at
/// which it starts.
#[derive(Debug, Clone, Copy, PartialEq, Eq, Structural)]
pub struct ParseEvent {
    pub kind: ParseEventKind,
    pub byte_offset: usize,
}

impl ParseEvent {
    /// An event of the given kind at `byte_offset`.
    pub fn new(byte_offset: usize, kind: ParseEventKind) -> (event: ParseEvent)
        ensures
            event == (ParseEvent { kind, byte_offset }),
    {
        ParseEvent { kind, byte_offset }
    }
}

/// What an event parser yields: an event, or the error that ends the parse.
pub type EventResult = Result<ParseEvent, ParseError>;

/// A finite, forward-only supply of parse events, which ends for good with
/// the first error.
pub trait EventSource {
    /// The items that have not been handed out yet, in order.
    spec fn remaining(&self) -> Seq<EventResult>;

    /// Hands out the next item, or `None` once the source is exhausted.
    fn next(&mut self) -> (item: Option<EventResult>)
        ensures
            old(self).remaining().len() == 0 ==> item is None && final(self).remaining()
                == old(self).remaining(),
            old(self).remaining().len() > 0 ==> item == Some(old(self).remaining()[0])
                && final(self).remaining() == old(self).remaining().drop_first(),
    ;
}

/// The events of `events`, each as a successful item.
pub open spec fn as_results(events: Seq<ParseEvent>) -> Seq<EventResult> {
    Seq::new(events.len(), |i: int| Ok(events[i]))
}

/// An event source over events that were collected beforehand.
pub struct EventList {
    events: Vec<ParseEvent>,
    position: usize,
}

impl EventList {
    /// The events that the source was made from.
    pub closed spec fn events(&self) -> Seq<ParseEvent> {
        self.events@
    }

    /// How many of them have been handed out.
    pub closed spec fn position(&self) -> int {
        self.position as int
    }

    /// Makes a source that hands out `events` in order.
    pub fn new(events: Vec<ParseEvent>) -> (list: EventList)
        ensures
            list.events() == events@,
            list.position() == 0,
            list.remaining() == as_results(events@),
    {
        let list = EventList { events, position: 0 };
        assert(list.remaining() =~= as_results(list.events@));
        list
    }
}

impl EventSource for EventList {
    open spec fn remaining(&self) -> Seq<EventResult> {
        if 0 <= self.position() <= self.events().len() {
            as_results(self.events().skip(self.position()))
        } else {
            Seq::empty()
        }
    }

    fn next(&mut self) -> (item: Option<EventResult>)
        ensures
            final(self).events() == old(self).events(),
    {
        if self.position < self.events.len() {
            let event = self.events[self.position];
            self.position = self.position + 1;
            assert(self.remaining() =~= old(self).remaining().drop_first());
            Some(Ok(event))
        } else {
            assert(self.remaining() =~= Seq::<EventResult>::empty());
            None
        }
    }
}

} // verus!
