//! Building a tree from parse events.

use vstd::prelude::*;
use vstd::string::StringSliceAdditionalSpecFns;
use vstd::utf8::{decode_utf8, is_char_boundary};
use crate::ParseError;
use crate::event::{EventResult, EventSource, ParseEvent, ParseEventKind};
use crate::simple_ast::{lemma_view_of_containers, members_of, values_of, Json, JsonValue};

verus! {

/// A container that is being built.
pub ghost enum Partial {
    /// An array, with the elements it has so far.
    Array(Seq<JsonValue>),
    /// An object, with the members it has so far and the key that waits for
    /// its value, if one does.
    Object { built: Seq<(Seq<char>, JsonValue)>, next: Option<Seq<char>> },
}

/// What a container becomes when a value is added to it: an array takes it
/// as its next element, an object as the value of the key that waits, or as
/// the next key, which has to be a string.
pub open spec fn attach(partial: Partial, value: JsonValue) -> Option<Partial> {
    match partial {
        Partial::Array(elements) => Some(Partial::Array(elements.push(value))),
        Partial::Object { built, next: Some(key) } => Some(
            Partial::Object { built: built.push((key, value)), next: None },
        ),
        Partial::Object { built, next: None } => match value {
            JsonValue::String(key) => Some(Partial::Object { built, next: Some(key) }),
            _ => None,
        },
    }
}

/// Where the building of a tree stands.
pub ghost enum Progress {
    /// The containers that are open, outermost first.
    Building(Seq<Partial>),
    /// The tree is complete.
    Finished(JsonValue),
    /// The events do not describe a tree.
    Failed(ParseError),
}

/// A complete value is added to the innermost open container, or is the
/// result when none is open.
pub open spec fn place(stack: Seq<Partial>, value: JsonValue, byte_offset: usize) -> Progress {
    if stack.len() == 0 {
        Progress::Finished(value)
    } else {
        match attach(stack.last(), value) {
            Some(partial) => Progress::Building(stack.drop_last().push(partial)),
            None => Progress::Failed(ParseError::unexpected_token(byte_offset)),
        }
    }
}

/// Whether `start .. end` is a range of whole characters inside the text
/// `bytes`.
pub open spec fn is_text_range(bytes: Seq<u8>, start: int, end: int) -> bool {
    0 <= start <= end <= bytes.len() && is_char_boundary(bytes, start) && is_char_boundary(
        bytes,
        end,
    )
}

/// The text of the input in `start .. start + size`, where that is a range
/// of whole characters inside the input.
pub open spec fn string_at(bytes: Seq<u8>, start: usize, size: usize) -> Option<Seq<char>> {
    if is_text_range(bytes, start as int, start + size) {
        Some(decode_utf8(bytes.subrange(start as int, start + size)))
    } else {
        None
    }
}

/// What one event does to the tree that is being built from the text
/// `bytes`.
///
/// An event that closes a container of another kind than the innermost one,
/// or closes an object in which a key waits for its value, fails with the
/// error that names the delimiter. A string whose span is not text of the
/// input fails as an invalid token. Comments are skipped.
pub open spec fn build_step(stack: Seq<Partial>, event: ParseEvent, bytes: Seq<u8>) -> Progress {
    let byte_offset = event.byte_offset;
    match event.kind {
        ParseEventKind::StartObject => Progress::Building(
            stack.push(Partial::Object { built: Seq::empty(), next: None }),
        ),
        ParseEventKind::StartArray => Progress::Building(stack.push(Partial::Array(Seq::empty()))),
        ParseEventKind::EndObject => if stack.len() > 0 && stack.last() is Object
            && stack.last()->next is None {
            place(stack.drop_last(), JsonValue::Object(stack.last()->built), byte_offset)
        } else {
            Progress::Failed(ParseError::unexpected_brace(byte_offset))
        },
        ParseEventKind::EndArray => if stack.len() > 0 && stack.last() is Array {
            place(stack.drop_last(), JsonValue::Array(stack.last()->Array_0), byte_offset)
        } else {
            Progress::Failed(ParseError::unexpected_bracket(byte_offset))
        },
        ParseEventKind::Int(i) => place(stack, JsonValue::Int(i), byte_offset),
        ParseEventKind::Str { size_in_bytes } => match string_at(
            bytes,
            byte_offset,
            size_in_bytes,
        ) {
            Some(text) => place(stack, JsonValue::String(text), byte_offset),
            None => Progress::Failed(ParseError::invalid_token(byte_offset)),
        },
        ParseEventKind::Bool(b) => place(stack, JsonValue::Bool(b), byte_offset),
        ParseEventKind::Null => place(stack, JsonValue::Null, byte_offset),
        ParseEventKind::Comment { size_in_bytes } => Progress::Building(stack),
    }
}

/// The tree that `events` describe when `stack` is what has been built so
/// far: the first complete value. An error among the events is the result,
/// and so is the failure to build; events that end before the value is
/// complete are an unexpected end of the input.
pub open spec fn tree_from(stack: Seq<Partial>, events: Seq<EventResult>, bytes: Seq<u8>) -> Result<
    JsonValue,
    ParseError,
>
    decreases events.len(),
{
    if events.len() == 0 {
        Err(ParseError::unexpected_end_of_input(bytes.len() as usize))
    } else {
        match events[0] {
            Err(error) => Err(error),
            Ok(event) => match build_step(stack, event, bytes) {
                Progress::Building(next) => tree_from(next, events.drop_first(), bytes),
                Progress::Finished(value) => Ok(value),
                Progress::Failed(error) => Err(error),
            },
        }
    }
}

/// The events that are left when the tree is complete or the building has
/// failed.
pub open spec fn events_after_tree(
    stack: Seq<Partial>,
    events: Seq<EventResult>,
    bytes: Seq<u8>,
) -> Seq<EventResult>
    decreases events.len(),
{
    if events.len() == 0 {
        events
    } else {
        match events[0] {
            Err(error) => events.drop_first(),
            Ok(event) => match build_step(stack, event, bytes) {
                Progress::Building(next) => events_after_tree(next, events.drop_first(), bytes),
                _ => events.drop_first(),
            },
        }
    }
}

/// The first error among `events`, if there is one.
pub open spec fn first_failure(events: Seq<EventResult>) -> Option<ParseError>
    decreases events.len(),
{
    if events.len() == 0 {
        None
    } else {
        match events[0] {
            Ok(_) => first_failure(events.drop_first()),
            Err(error) => Some(error),
        }
    }
}

/// The tree that `events` describe, over the text `bytes`.
pub open spec fn tree_of(events: Seq<EventResult>, bytes: Seq<u8>) -> Result<
    JsonValue,
    ParseError,
> {
    tree_from(Seq::empty(), events, bytes)
}

/// Builds the tree that the events of `parser` describe, reading the text of
/// its strings from `input`. Reads the events up to the one that completes
/// the tree, or at which the building fails.
pub fn event_to_tree<I: EventSource>(parser: &mut I, input: &str) -> (result: Result<
    Json,
    ParseError,
>)
    ensures
        match tree_of(old(parser).remaining(), input.spec_bytes()) {
            Ok(value) => result is Ok && result->Ok_0@ == value,
            Err(error) => result is Err && result->Err_0 == error,
        },
        final(parser).remaining() == events_after_tree(
            Seq::empty(),
            old(parser).remaining(),
            input.spec_bytes(),
        ),
{
    let mut builder = TreeBuilder::new();
    let ghost events = parser.remaining();
    let ghost bytes = input.spec_bytes();
    loop
        invariant
            bytes == input.spec_bytes(),
            events == old(parser).remaining(),
            tree_of(events, bytes) == tree_from(builder@, parser.remaining(), bytes),
            events_after_tree(Seq::empty(), events, bytes) == events_after_tree(
                builder@,
                parser.remaining(),
                bytes,
            ),
        decreases parser.remaining().len(),
    {
        let event = match parser.next() {
            Some(Ok(event)) => event,
            Some(Err(err)) => {
                return Err(err);
            },
            None => {
                return Err(
                    ParseError { byte_offset: input.len(), reason: "unexpected end of input" },
                );
            },
        };
        match builder.push_event(event, input) {
            Some(result) => {
                return result;
            },
            None => {},
        }
    }
}

/// The text of `input` in `start .. end`.
///
/// Calls `str::get` with that range. The contract is taken on trust; it
/// says what the documentation of `str::get` says: the result is `None`
/// exactly where indexing the string with the range would panic, which is
/// where the range is reversed, reaches beyond the end, or does not start
/// and end on the boundary of a character. Otherwise it is the part of the
/// string that the range covers.
#[verifier::external_body]
fn substring<'a>(input: &'a str, start: usize, end: usize) -> (part: Option<&'a str>)
    ensures
        (part is Some) == is_text_range(input.spec_bytes(), start as int, end as int),
        part matches Some(text) ==> text.spec_bytes() == input.spec_bytes().subrange(
            start as int,
            end as int,
        ),
{
    input.get(start..end)
}

/// A container that is being built.
pub(crate) enum Container {
    Array(Vec<Json>),
    Object(MapInProgress),
}

/// An object that is being built: its members so far, and the key that waits
/// for its value.
pub(crate) struct MapInProgress {
    built: Vec<(String, Json)>,
    next: Option<String>,
}

impl View for MapInProgress {
    type V = Partial;

    closed spec fn view(&self) -> Partial {
        Partial::Object {
            built: members_of(self.built@),
            next: match self.next {
                Some(key) => Some(key@),
                None => None,
            },
        }
    }
}

impl View for Container {
    type V = Partial;

    closed spec fn view(&self) -> Partial {
        match self {
            Container::Array(elements) => Partial::Array(values_of(elements@)),
            Container::Object(map) => map@,
        }
    }
}

impl Container {
    /// An object without members.
    pub(crate) fn new_map() -> (container: Container)
        ensures
            container@ == (Partial::Object { built: Seq::empty(), next: None }),
    {
        let container = Container::Object(MapInProgress { built: Vec::new(), next: None });
        assert(container@->built =~= Seq::empty());
        container
    }

    /// An array without elements.
    pub(crate) fn new_array() -> (container: Container)
        ensures
            container@ == Partial::Array(Seq::empty()),
    {
        let container = Container::Array(Vec::new());
        assert(container@->Array_0 =~= Seq::empty());
        container
    }

    /// Whether the container is an array.
    pub(crate) fn is_array(&self) -> (array: bool)
        ensures
            array == (self@ is Array),
    {
        match self {
            Container::Array(_) => true,
            Container::Object(_) => false,
        }
    }

    /// Whether the container is an object in which no key waits for its
    /// value.
    pub(crate) fn is_settled_map(&self) -> (settled: bool)
        ensures
            settled == (self@ is Object && self@->next is None),
    {
        match self {
            Container::Array(_) => false,
            Container::Object(map) => map.next.is_none(),
        }
    }

    /// The object that the container is.
    pub(crate) fn into_map(self) -> (map: MapInProgress)
        requires
            self@ is Object,
        ensures
            map@ == self@,
    {
        match self {
            Container::Array(_) => MapInProgress { built: Vec::new(), next: None },
            Container::Object(map) => map,
        }
    }

    /// The elements of the array that the container is.
    pub(crate) fn into_array(self) -> (elements: Vec<Json>)
        requires
            self@ is Array,
        ensures
            values_of(elements@) == self@->Array_0,
    {
        match self {
            Container::Array(array) => array,
            Container::Object(_) => Vec::new(),
        }
    }

    /// Whether `object` can be added: any value to an array or as the value
    /// of a key that waits, a string as a key.
    pub(crate) fn accepts(&self, object: &Json) -> (accepted: bool)
        ensures
            accepted == (attach(self@, object@) is Some),
    {
        match self {
            Container::Array(_) => true,
            Container::Object(map) => match map.next {
                Some(_) => true,
                None => match object {
                    Json::String(_) => true,
                    _ => false,
                },
            },
        }
    }

    /// Adds a value to the container.
    pub(crate) fn add_object(&mut self, object: Json)
        requires
            attach(old(self)@, object@) is Some,
        ensures
            Some(final(self)@) == attach(old(self)@, object@),
    {
        match self {
            Container::Array(array) => {
                array.push(object);
                assert(values_of(array@) =~= values_of(old(self)->Array_0@).push(object@));
            },
            Container::Object(map) => map.add(object),
        }
    }
}

impl MapInProgress {
    /// Adds the value of the key that waits or, when none does, the next
    /// key.
    pub(crate) fn add(&mut self, object: Json)
        requires
            attach(old(self)@, object@) is Some,
        ensures
            Some(final(self)@) == attach(old(self)@, object@),
    {
        match self.next.take() {
            Some(key) => {
                self.built.push((key, object));
                assert(members_of(self.built@) =~= members_of(old(self).built@).push(
                    (key@, object@),
                ));
            },
            None => {
                self.next = Some(object.into_string());
            },
        }
    }

    /// The object with the members that were added.
    pub(crate) fn finish(self) -> (object: Json)
        requires
            self@->next is None,
        ensures
            object@ == JsonValue::Object(self@->built),
    {
        let MapInProgress { built, next } = self;
        let object = Json::Object(built);
        proof {
            lemma_view_of_containers(&object);
        }
        object
    }
}

/// The containers that `stack` stands for, outermost first.
pub(crate) open spec fn partials(stack: Seq<Container>) -> Seq<Partial> {
    Seq::new(stack.len(), |i: int| stack[i]@)
}

/// The state of building a tree: the containers that are open.
pub(crate) struct TreeBuilder {
    container_stack: Vec<Container>,
}

impl View for TreeBuilder {
    type V = Seq<Partial>;

    closed spec fn view(&self) -> Seq<Partial> {
        partials(self.container_stack@)
    }
}

impl TreeBuilder {
    /// A builder that has built nothing yet.
    pub(crate) fn new() -> (builder: TreeBuilder)
        ensures
            builder@ == Seq::<Partial>::empty(),
    {
        let builder = TreeBuilder { container_stack: Vec::new() };
        assert(builder@ =~= Seq::<Partial>::empty());
        builder
    }

    /// Takes one event. Returns the tree when the event completes it, the
    /// error when the building fails, and `None` while it goes on.
    pub(crate) fn push_event(&mut self, event: ParseEvent, input: &str) -> (result: Option<
        Result<Json, ParseError>,
    >)
        ensures
            match build_step(old(self)@, event, input.spec_bytes()) {
                Progress::Building(stack) => result is None && final(self)@ == stack,
                Progress::Finished(value) => result matches Some(Ok(json)) && json@ == value,
                Progress::Failed(error) => result matches Some(Err(e)) && e == error,
            },
    {
        let ParseEvent { kind, byte_offset } = event;
        match kind {
            ParseEventKind::StartObject => {
                self.open(Container::new_map());
                None
            },
            ParseEventKind::EndObject => match self.close() {
                Some(container) => {
                    if container.is_settled_map() {
                        let object = container.into_map().finish();
                        self.place(object, byte_offset)
                    } else {
                        Some(Err(ParseError { byte_offset, reason: "unexpected '}'" }))
                    }
                },
                None => Some(Err(ParseError { byte_offset, reason: "unexpected '}'" })),
            },
            ParseEventKind::StartArray => {
                self.open(Container::new_array());
                None
            },
            ParseEventKind::EndArray => match self.close() {
                Some(container) => {
                    if container.is_array() {
                        let array = container.into_array();
                        let object = Json::Array(array);
                        proof {
                            lemma_view_of_containers(&object);
                        }
                        self.place(object, byte_offset)
                    } else {
                        Some(Err(ParseError { byte_offset, reason: "unexpected ']'" }))
                    }
                },
                None => Some(Err(ParseError { byte_offset, reason: "unexpected ']'" })),
            },
            ParseEventKind::Int(i) => self.place(Json::Int(i), byte_offset),
            ParseEventKind::Str { size_in_bytes } => {
                let input_size = input.as_bytes().len();
                let text = match byte_offset.checked_add(size_in_bytes) {
                    Some(end) => if end <= input_size {
                        substring(input, byte_offset, end)
                    } else {
                        None
                    },
                    None => None,
                };
                match text {
                    Some(text) => {
                        proof {
                            vstd::utf8::encode_utf8_decode_utf8(text@);
                        }
                        self.place(Json::String(text.to_owned()), byte_offset)
                    },
                    None => Some(Err(ParseError { byte_offset, reason: "invalid token" })),
                }
            },
            ParseEventKind::Bool(b) => self.place(Json::Bool(b), byte_offset),
            ParseEventKind::Null => self.place(Json::Null, byte_offset),
            ParseEventKind::Comment { size_in_bytes } => None,
        }
    }

    /// Opens a container inside the innermost one.
    fn open(&mut self, container: Container)
        ensures
            final(self)@ == old(self)@.push(container@),
    {
        self.container_stack.push(container);
        assert(self@ =~= old(self)@.push(container@));
    }

    /// Takes the innermost container off the stack, if there is one.
    fn close(&mut self) -> (container: Option<Container>)
        ensures
            old(self)@.len() == 0 ==> container is None && final(self)@ == old(self)@,
            old(self)@.len() > 0 ==> container is Some && container->Some_0@ == old(self)@.last()
                && final(self)@ == old(self)@.drop_last(),
    {
        let container = self.container_stack.pop();
        assert(self@ =~= if old(self)@.len() > 0 {
            old(self)@.drop_last()
        } else {
            old(self)@
        });
        container
    }

    /// Adds a complete value to the innermost open container, or returns it
    /// when none is open.
    fn place(&mut self, object: Json, byte_offset: usize) -> (result: Option<
        Result<Json, ParseError>,
    >)
        ensures
            match place(old(self)@, object@, byte_offset) {
                Progress::Building(stack) => result is None && final(self)@ == stack,
                Progress::Finished(value) => result matches Some(Ok(json)) && json@ == value,
                Progress::Failed(error) => result matches Some(Err(e)) && e == error,
            },
    {
        match self.close() {
            Some(mut container) => {
                if container.accepts(&object) {
                    container.add_object(object);
                    self.open(container);
                    None
                } else {
                    Some(Err(ParseError { byte_offset, reason: "unexpected token" }))
                }
            },
            None => Some(Ok(object)),
        }
    }
}

} // verus!
