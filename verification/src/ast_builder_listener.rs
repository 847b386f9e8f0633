//! A listener that builds a tree from the events that are pushed to it.

use vstd::prelude::*;
use vstd::string::StringSliceAdditionalSpecFns;
use vstd::utf8::valid_utf8;
use crate::ParseError;
use crate::direct_non_recursive::parse_tree;
use crate::event::{EventResult, ParseEvent, ParseEventKind};
use crate::event_listener::{events_delivered, lemma_events_delivered_last, EventListener};
use crate::event_parser::parse_events;
use crate::event_to_tree::{
    build_step, events_after_tree, first_failure, tree_from, Partial, Progress, TreeBuilder,
};
use crate::lexer::lex;
use crate::simple_ast::{Json, JsonValue};
use crate::tree_laws::lemma_events_describe_a_tree;

verus! {

/// A listener that builds a tree from the events it is handed, reading the
/// text of the strings from the input.
///
/// The tree is the first complete value. The error is the first one: the
/// first error that it is handed, or its own failure to build a tree from
/// the events. After either, events have no effect.
pub struct AstBuilderListener<'a> {
    input: &'a str,
    builder: TreeBuilder,
    ast: Option<Json>,
    error: Option<ParseError>,
}

/// What a tree-building listener is, to its contracts.
pub ghost struct AstBuilderView {
    /// The text that the events refer to.
    pub bytes: Seq<u8>,
    /// The containers that are open, outermost first, while the tree is
    /// being built; nothing afterwards.
    pub stack: Seq<Partial>,
    /// The tree, once it is complete.
    pub ast: Option<JsonValue>,
    /// The first error, if there is one.
    pub error: Option<ParseError>,
}

/// What one call does to a tree-building listener.
pub open spec fn listen(v: AstBuilderView, call: EventResult) -> AstBuilderView {
    match call {
        Err(error) => if v.error is None {
            AstBuilderView { bytes: v.bytes, stack: Seq::empty(), ast: v.ast, error: Some(error) }
        } else {
            v
        },
        Ok(event) => if v.ast is Some || v.error is Some {
            v
        } else {
            match build_step(v.stack, event, v.bytes) {
                Progress::Building(stack) => AstBuilderView {
                    bytes: v.bytes,
                    stack,
                    ast: None,
                    error: None,
                },
                Progress::Finished(value) => AstBuilderView {
                    bytes: v.bytes,
                    stack: Seq::empty(),
                    ast: Some(value),
                    error: None,
                },
                Progress::Failed(error) => AstBuilderView {
                    bytes: v.bytes,
                    stack: Seq::empty(),
                    ast: None,
                    error: Some(error),
                },
            }
        },
    }
}

/// What calls, one after the other, do to a tree-building listener.
pub open spec fn listen_all(v: AstBuilderView, calls: Seq<EventResult>) -> AstBuilderView
    decreases calls.len(),
{
    if calls.len() == 0 {
        v
    } else {
        listen_all(listen(v, calls[0]), calls.drop_first())
    }
}

/// A listener that has been handed nothing, over the text `bytes`.
pub open spec fn fresh(bytes: Seq<u8>) -> AstBuilderView {
    AstBuilderView { bytes, stack: Seq::empty(), ast: None, error: None }
}

impl<'a> View for AstBuilderListener<'a> {
    type V = AstBuilderView;

    closed spec fn view(&self) -> AstBuilderView {
        AstBuilderView {
            bytes: self.input.spec_bytes(),
            stack: if self.ast is None && self.error is None {
                self.builder@
            } else {
                Seq::empty()
            },
            ast: match self.ast {
                Some(json) => Some(json@),
                None => None,
            },
            error: self.error,
        }
    }
}

impl<'a> AstBuilderListener<'a> {
    /// A listener that has been handed nothing. The events that it will be
    /// handed refer to `input`.
    pub fn new(input: &'a str) -> (listener: AstBuilderListener<'a>)
        ensures
            listener@ == fresh(input.spec_bytes()),
    {
        AstBuilderListener { input, builder: TreeBuilder::new(), ast: None, error: None }
    }

    /// The tree, if it is complete, and the first error, if there is one.
    pub fn into_ast(self) -> (outcome: (Option<Json>, Option<ParseError>))
        ensures
            outcome.1 == self@.error,
            match outcome.0 {
                Some(json) => self@.ast == Some(json@),
                None => self@.ast is None,
            },
    {
        (self.ast, self.error)
    }

    /// Takes one call.
    fn take(&mut self, call: EventResult)
        ensures
            final(self)@ == listen(old(self)@, call),
    {
        match call {
            Err(error) => {
                if self.error.is_none() {
                    self.error = Some(error);
                }
            },
            Ok(event) => {
                if self.ast.is_none() && self.error.is_none() {
                    match self.builder.push_event(event, self.input) {
                        None => {},
                        Some(Ok(json)) => {
                            self.ast = Some(json);
                        },
                        Some(Err(error)) => {
                            self.error = Some(error);
                        },
                    }
                }
            },
        }
    }
}

impl<'a> EventListener for AstBuilderListener<'a> {
    open spec fn after_event(&self, before: &Self, call: EventResult) -> bool {
        self@ == listen(before@, call)
    }

    fn handle_start_object(&mut self, byte_offset: usize) {
        self.take(Ok(ParseEvent::new(byte_offset, ParseEventKind::StartObject)));
    }

    fn handle_end_object(&mut self, byte_offset: usize) {
        self.take(Ok(ParseEvent::new(byte_offset, ParseEventKind::EndObject)));
    }

    fn handle_start_array(&mut self, byte_offset: usize) {
        self.take(Ok(ParseEvent::new(byte_offset, ParseEventKind::StartArray)));
    }

    fn handle_end_array(&mut self, byte_offset: usize) {
        self.take(Ok(ParseEvent::new(byte_offset, ParseEventKind::EndArray)));
    }

    fn handle_int(&mut self, byte_offset: usize, i: u64) {
        self.take(Ok(ParseEvent::new(byte_offset, ParseEventKind::Int(i))));
    }

    fn handle_str(&mut self, byte_offset: usize, size_in_bytes: usize) {
        self.take(Ok(ParseEvent::new(byte_offset, ParseEventKind::Str { size_in_bytes })));
    }

    fn handle_bool(&mut self, byte_offset: usize, b: bool) {
        self.take(Ok(ParseEvent::new(byte_offset, ParseEventKind::Bool(b))));
    }

    fn handle_null(&mut self, byte_offset: usize) {
        self.take(Ok(ParseEvent::new(byte_offset, ParseEventKind::Null)));
    }

    fn handle_comment(&mut self, byte_offset: usize, size_in_bytes: usize) {
        self.take(Ok(ParseEvent::new(byte_offset, ParseEventKind::Comment { size_in_bytes })));
    }

    fn handle_error(&mut self, error: ParseError) {
        self.take(Err(error));
    }
}

/// One more call at the end is one more step.
pub proof fn lemma_listen_all_push(v: AstBuilderView, calls: Seq<EventResult>, call: EventResult)
    ensures
        listen_all(v, calls.push(call)) == listen(listen_all(v, calls), call),
    decreases calls.len(),
{
    let all = calls.push(call);
    if calls.len() == 0 {
        assert(all.drop_first() =~= Seq::<EventResult>::empty());
        assert(listen_all(listen(v, call), all.drop_first()) == listen(v, call));
    } else {
        assert(all.drop_first() =~= calls.drop_first().push(call));
        lemma_listen_all_push(listen(v, calls[0]), calls.drop_first(), call);
    }
}

/// After a delivery, a tree-building listener is what the calls make of it.
pub proof fn lemma_listened(
    after: &AstBuilderListener,
    before: &AstBuilderListener,
    calls: Seq<EventResult>,
)
    requires
        events_delivered(after, before, calls),
    ensures
        after@ == listen_all(before@, calls),
    decreases calls.len(),
{
    if calls.len() > 0 {
        let middle = lemma_events_delivered_last(after, before, calls);
        lemma_listened(&middle, before, calls.drop_last());
        lemma_listen_all_push(before@, calls.drop_last(), calls.last());
        assert(calls.drop_last().push(calls.last()) =~= calls);
    }
}

/// After an error, calls have no effect.
pub proof fn lemma_deaf_after_error(v: AstBuilderView, calls: Seq<EventResult>)
    requires
        v.error is Some,
    ensures
        listen_all(v, calls) == v,
    decreases calls.len(),
{
    if calls.len() > 0 {
        lemma_deaf_after_error(v, calls.drop_first());
    }
}

/// Once the tree is complete, all that can still happen is the first error.
pub proof fn lemma_only_errors_after_tree(v: AstBuilderView, calls: Seq<EventResult>)
    requires
        v.ast is Some,
        v.error is None,
    ensures
        listen_all(v, calls).ast == v.ast,
        listen_all(v, calls).error == first_failure(calls),
    decreases calls.len(),
{
    if calls.len() > 0 {
        match calls[0] {
            Ok(_) => {
                lemma_only_errors_after_tree(v, calls.drop_first());
            },
            Err(_) => {
                lemma_deaf_after_error(listen(v, calls[0]), calls.drop_first());
            },
        }
    }
}

/// A tree-building listener builds the tree that the calls describe: where
/// they describe one, it holds that tree, and its error is the first error
/// behind the tree; where they do not, it holds no tree, and its error is the
/// reason, unless the calls just end too early.
pub proof fn lemma_listener_builds(v: AstBuilderView, calls: Seq<EventResult>)
    requires
        v.ast is None,
        v.error is None,
    ensures
        match tree_from(v.stack, calls, v.bytes) {
            Ok(value) => listen_all(v, calls).ast == Some(value) && listen_all(v, calls).error
                == first_failure(events_after_tree(v.stack, calls, v.bytes)),
            Err(error) => listen_all(v, calls).ast is None && (listen_all(v, calls).error == Some(
                error,
            ) || (listen_all(v, calls).error is None && first_failure(calls) is None)),
        },
    decreases calls.len(),
{
    if calls.len() > 0 {
        let next = listen(v, calls[0]);
        let rest = calls.drop_first();
        match calls[0] {
            Err(_) => {
                lemma_deaf_after_error(next, rest);
            },
            Ok(event) => match build_step(v.stack, event, v.bytes) {
                Progress::Building(_) => {
                    lemma_listener_builds(next, rest);
                },
                Progress::Finished(_) => {
                    lemma_only_errors_after_tree(next, rest);
                },
                Progress::Failed(_) => {
                    lemma_deaf_after_error(next, rest);
                },
            },
        }
    }
}

/// A fresh tree-building listener that was handed what a parser yields for
/// a text holds what parsing the text to a tree directly gives: the tree
/// without an error, or the error.
pub proof fn lemma_pushed_tree(after: &AstBuilderListener, before: &AstBuilderListener)
    requires
        valid_utf8(before@.bytes),
        before@.bytes.len() <= usize::MAX,
        before@ == fresh(before@.bytes),
        events_delivered(
            after,
            before,
            parse_events(lex(before@.bytes), before@.bytes.len() as usize),
        ),
    ensures
        match parse_tree(before@.bytes) {
            Ok(value) => after@.ast == Some(value) && after@.error is None,
            Err(error) => after@.error == Some(error),
        },
{
    let bytes = before@.bytes;
    let calls = parse_events(lex(bytes), bytes.len() as usize);
    lemma_listened(after, before, calls);
    lemma_listener_builds(before@, calls);
    lemma_events_describe_a_tree(bytes);
}

} // verus!
