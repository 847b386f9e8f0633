//! A streaming parser for a small JSON-like format: objects, arrays, unsigned
//! integers, strings without escapes, booleans, null, and line comments.
//!
//! Text is turned into positioned tokens by the lexer, and tokens into
//! structural events by an explicit state machine with a container stack.
//! Events are delivered either on request (the pull model) or to a listener
//! (the push model); both are specified by the same grammar, and proved to
//! yield the same. A tree can be built from the events, or parsed directly.
//!
//! Strings and comments are never copied: tokens and events hold byte
//! offsets into the input.

use vstd::prelude::*;

pub mod ast_builder_listener;
pub mod direct_non_recursive;
pub mod event;
pub mod event_listener;
pub mod event_parser;
pub mod event_parser_2;
pub mod event_push_parser_2;
pub mod event_push_parser_3;
pub mod event_push_parser_3_non_recursive;
pub mod event_to_tree;
pub mod lexer;
pub mod lexer_list;
pub mod lexer_push;
pub mod parse_parts;
pub mod push_to_events;
pub mod simple_ast;
pub mod token;
pub mod tree_laws;

pub use ast_builder_listener::AstBuilderListener;
pub use direct_non_recursive::parse as parse_ast_non_recursive;
pub use event::{EventList, EventResult, EventSource, ParseEvent, ParseEventKind};
pub use event_listener::EventListener;
pub use event_parser::{Container, Machine, ParserState};
pub use event_parser_2::{parse_events_iter_using_lexer_iter, EventParser};
pub use event_push_parser_2::parse as parse_events_push_using_lexer_push;
pub use event_push_parser_3::parse as parse_events_push_using_lexer_iter;
pub use event_push_parser_3_non_recursive::{
    parse as parse_events_push_using_lexer_iter_non_recursive,
};
pub use event_to_tree::event_to_tree;
pub use lexer::{tokenize_iter, Lexer};
pub use lexer_list::{tokenize_list, TokenList};
pub use lexer_push::{tokenize_push, LexerEventListener, PushToTokens};
pub use push_to_events::PushToEvents;
pub use simple_ast::Json;
pub use token::{Token, TokenResult, TokenSource};

verus! {

/// A parse error, common to the event and the tree parsers.
#[derive(Debug, Clone, Copy, PartialEq, Eq)]
pub struct ParseError {
    /// Byte offset of the error in the input.
    pub byte_offset: usize,
    /// The cause, one of a fixed set of messages.
    pub reason: &'static str,
}

impl ParseError {
    /// The lexer could not read a token at `byte_offset`.
    pub open spec fn invalid_token(byte_offset: usize) -> ParseError {
        ParseError { byte_offset, reason: "invalid token" }
    }

    /// The input ended, at `byte_offset`, before the value was complete.
    pub open spec fn unexpected_end_of_input(byte_offset: usize) -> ParseError {
        ParseError { byte_offset, reason: "unexpected end of input" }
    }

    /// The token at `byte_offset` cannot stand where it does.
    pub open spec fn unexpected_token(byte_offset: usize) -> ParseError {
        ParseError { byte_offset, reason: "unexpected token" }
    }

    /// The `]` at `byte_offset` does not close an array.
    pub open spec fn unexpected_bracket(byte_offset: usize) -> ParseError {
        ParseError { byte_offset, reason: "unexpected ']'" }
    }

    /// The `}` at `byte_offset` does not close an object.
    pub open spec fn unexpected_brace(byte_offset: usize) -> ParseError {
        ParseError { byte_offset, reason: "unexpected '}'" }
    }

    /// The token at `byte_offset` follows a value that is already complete.
    pub open spec fn trailing_tokens(byte_offset: usize) -> ParseError {
        ParseError { byte_offset, reason: "trailing tokens" }
    }
}

} // verus!
