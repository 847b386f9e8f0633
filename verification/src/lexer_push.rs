//! The push lexer, and the listener to which it delivers its tokens.

use vstd::prelude::*;
use vstd::string::StringSliceAdditionalSpecFns;
use crate::lexer::{lex, Lexer};
use crate::token::{
    as_items, first_error, leading_tokens, lemma_until_first_error, until_first_error, Token,
    TokenResult, TokenSource,
};

verus! {

/// A consumer to which a lexer delivers its tokens, one call per token.
///
/// `after_token` says how an implementation reacts to a call: every handler
/// must leave the listener in a state that follows, by `after_token`, from the
/// state in which it was called. The contracts of the functions that drive a
/// listener are stated through it.
pub trait LexerEventListener {
    /// Whether `self` is a state that `before` may be in after it was handed
    /// `item`.
    spec fn after_token(&self, before: &Self, item: TokenResult) -> bool;

    /// An integer at `byte_offset`.
    fn handle_int(&mut self, byte_offset: usize, i: u64)
        ensures
            final(self).after_token(old(self), Ok((byte_offset, Token::Int(i)))),
    ;

    /// A string: `size_in_bytes` bytes of the input, from `byte_offset`.
    fn handle_str(&mut self, byte_offset: usize, size_in_bytes: usize)
        ensures
            final(self).after_token(old(self), Ok((byte_offset, Token::Str { size_in_bytes }))),
    ;

    /// The keyword `true` at `byte_offset`.
    fn handle_true(&mut self, byte_offset: usize)
        ensures
            final(self).after_token(old(self), Ok((byte_offset, Token::True))),
    ;

    /// The keyword `false` at `byte_offset`.
    fn handle_false(&mut self, byte_offset: usize)
        ensures
            final(self).after_token(old(self), Ok((byte_offset, Token::False))),
    ;

    /// The keyword `null` at `byte_offset`.
    fn handle_null(&mut self, byte_offset: usize)
        ensures
            final(self).after_token(old(self), Ok((byte_offset, Token::Null))),
    ;

    /// A `[` at `byte_offset`.
    fn handle_lbracket(&mut self, byte_offset: usize)
        ensures
            final(self).after_token(old(self), Ok((byte_offset, Token::LBracket))),
    ;

    /// A `]` at `byte_offset`.
    fn handle_rbracket(&mut self, byte_offset: usize)
        ensures
            final(self).after_token(old(self), Ok((byte_offset, Token::RBracket))),
    ;

    /// A `{` at `byte_offset`.
    fn handle_lbrace(&mut self, byte_offset: usize)
        ensures
            final(self).after_token(old(self), Ok((byte_offset, Token::LBrace))),
    ;

    /// A `}` at `byte_offset`.
    fn handle_rbrace(&mut self, byte_offset: usize)
        ensures
            final(self).after_token(old(self), Ok((byte_offset, Token::RBrace))),
    ;

    /// A `:` at `byte_offset`.
    fn handle_colon(&mut self, byte_offset: usize)
        ensures
            final(self).after_token(old(self), Ok((byte_offset, Token::Colon))),
    ;

    /// A `,` at `byte_offset`.
    fn handle_comma(&mut self, byte_offset: usize)
        ensures
            final(self).after_token(old(self), Ok((byte_offset, Token::Comma))),
    ;

    /// A comment: `size_in_bytes` bytes of the input, from `byte_offset`.
    fn handle_comment(&mut self, byte_offset: usize, size_in_bytes: usize)
        ensures
            final(self).after_token(
                old(self),
                Ok((byte_offset, Token::Comment { size_in_bytes })),
            ),
    ;

    /// No token can be read at `byte_offset`; nothing follows.
    fn handle_error(&mut self, byte_offset: usize)
        ensures
            final(self).after_token(old(self), Err(byte_offset)),
    ;
}

/// Whether `after` is a state that `before` may be in after it was handed
/// `items`, one call per item, in order, and nothing else.
pub open spec fn tokens_delivered<L: LexerEventListener>(
    after: &L,
    before: &L,
    items: Seq<TokenResult>,
) -> bool
    decreases items.len(),
{
    if items.len() == 0 {
        after == before
    } else {
        exists|middle: L|
            tokens_delivered(&middle, before, items.drop_last()) && #[trigger] after.after_token(
                &middle,
                items.last(),
            )
    }
}

/// The state in which the last item of a delivery was handed over.
pub proof fn lemma_tokens_delivered_last<L: LexerEventListener>(
    after: &L,
    before: &L,
    items: Seq<TokenResult>,
) -> (middle: L)
    requires
        tokens_delivered(after, before, items),
        items.len() > 0,
    ensures
        tokens_delivered(&middle, before, items.drop_last()),
        after.after_token(&middle, items.last()),
{
    choose|middle: L|
        tokens_delivered(&middle, before, items.drop_last()) && #[trigger] after.after_token(
            &middle,
            items.last(),
        )
}

/// One more call extends a delivery by one item.
pub proof fn lemma_tokens_delivered_push<L: LexerEventListener>(
    after: &L,
    middle: &L,
    before: &L,
    items: Seq<TokenResult>,
    item: TokenResult,
)
    requires
        tokens_delivered(middle, before, items),
        after.after_token(middle, item),
    ensures
        tokens_delivered(after, before, items.push(item)),
{
    let all = items.push(item);
    assert(all.drop_last() =~= items);
    assert(all.last() == item);
    assert(after.after_token(middle, all.last()));
}

/// Hands the token to the handler that is meant for its kind.
pub fn deliver_token<L: LexerEventListener>(listener: &mut L, byte_offset: usize, token: Token)
    ensures
        final(listener).after_token(old(listener), Ok((byte_offset, token))),
{
    match token {
        Token::Int(i) => listener.handle_int(byte_offset, i),
        Token::Str { size_in_bytes } => listener.handle_str(byte_offset, size_in_bytes),
        Token::True => listener.handle_true(byte_offset),
        Token::False => listener.handle_false(byte_offset),
        Token::Null => listener.handle_null(byte_offset),
        Token::LBracket => listener.handle_lbracket(byte_offset),
        Token::RBracket => listener.handle_rbracket(byte_offset),
        Token::LBrace => listener.handle_lbrace(byte_offset),
        Token::RBrace => listener.handle_rbrace(byte_offset),
        Token::Colon => listener.handle_colon(byte_offset),
        Token::Comma => listener.handle_comma(byte_offset),
        Token::Comment { size_in_bytes } => listener.handle_comment(byte_offset, size_in_bytes),
    }
}

/// Lexes the input and delivers every token to the listener as soon as it is
/// read. The first lexical error is delivered too, and ends the delivery.
pub fn tokenize_push<L: LexerEventListener>(input: &str, listener: &mut L)
    ensures
        tokens_delivered(
            final(listener),
            old(listener),
            until_first_error(lex(input.spec_bytes())),
        ),
{
    let mut lexer = Lexer::new(input);
    let ghost all = until_first_error(lex(input.spec_bytes()));
    let ghost mut sent: Seq<TokenResult> = Seq::empty();
    assert(all =~= sent + until_first_error(lexer.remaining()));
    loop
        invariant_except_break
            all == sent + until_first_error(lexer.remaining()),
        invariant
            tokens_delivered(listener, old(listener), sent),
        ensures
            all == sent,
            tokens_delivered(listener, old(listener), sent),
        decreases lexer.remaining().len(),
    {
        let ghost middle = *listener;
        let ghost before = lexer.remaining();
        match lexer.next() {
            None => {
                assert(sent + until_first_error(before) =~= sent);
                break ;
            },
            Some(Ok((byte_offset, token))) => {
                deliver_token(listener, byte_offset, token);
                proof {
                    lemma_tokens_delivered_push(listener, &middle, old(listener), sent, before[0]);
                    assert(all =~= sent.push(before[0]) + until_first_error(lexer.remaining()));
                    sent = sent.push(before[0]);
                }
            },
            Some(Err(byte_offset)) => {
                listener.handle_error(byte_offset);
                proof {
                    lemma_tokens_delivered_push(listener, &middle, old(listener), sent, before[0]);
                    assert(all =~= sent.push(before[0]));
                    sent = sent.push(before[0]);
                }
                break ;
            },
        }
    }
}

/// A listener that collects what the lexer delivers: the tokens in order, and
/// the offset of the error that was delivered last.
pub struct PushToTokens {
    tokens: Vec<(usize, Token)>,
    error: Option<usize>,
}

impl View for PushToTokens {
    type V = (Seq<(usize, Token)>, Option<usize>);

    closed spec fn view(&self) -> Self::V {
        (self.tokens@, self.error)
    }
}

impl LexerEventListener for PushToTokens {
    open spec fn after_token(&self, before: &Self, item: TokenResult) -> bool {
        match item {
            Ok(token) => self@ == (before@.0.push(token), before@.1),
            Err(byte_offset) => self@ == (before@.0, Some(byte_offset)),
        }
    }

    fn handle_int(&mut self, byte_offset: usize, i: u64) {
        self.tokens.push((byte_offset, Token::Int(i)));
    }

    fn handle_str(&mut self, byte_offset: usize, size_in_bytes: usize) {
        self.tokens.push((byte_offset, Token::Str { size_in_bytes }));
    }

    fn handle_true(&mut self, byte_offset: usize) {
        self.tokens.push((byte_offset, Token::True));
    }

    fn handle_false(&mut self, byte_offset: usize) {
        self.tokens.push((byte_offset, Token::False));
    }

    fn handle_null(&mut self, byte_offset: usize) {
        self.tokens.push((byte_offset, Token::Null));
    }

    fn handle_lbracket(&mut self, byte_offset: usize) {
        self.tokens.push((byte_offset, Token::LBracket));
    }

    fn handle_rbracket(&mut self, byte_offset: usize) {
        self.tokens.push((byte_offset, Token::RBracket));
    }

    fn handle_lbrace(&mut self, byte_offset: usize) {
        self.tokens.push((byte_offset, Token::LBrace));
    }

    fn handle_rbrace(&mut self, byte_offset: usize) {
        self.tokens.push((byte_offset, Token::RBrace));
    }

    fn handle_colon(&mut self, byte_offset: usize) {
        self.tokens.push((byte_offset, Token::Colon));
    }

    fn handle_comma(&mut self, byte_offset: usize) {
        self.tokens.push((byte_offset, Token::Comma));
    }

    fn handle_comment(&mut self, byte_offset: usize, size_in_bytes: usize) {
        self.tokens.push((byte_offset, Token::Comment { size_in_bytes }));
    }

    fn handle_error(&mut self, byte_offset: usize) {
        self.error = Some(byte_offset);
    }
}

impl PushToTokens {
    /// A collector that has seen nothing yet.
    pub fn new() -> (listener: PushToTokens)
        ensures
            listener@ == (Seq::<(usize, Token)>::empty(), None::<usize>),
    {
        PushToTokens { tokens: Vec::new(), error: None }
    }

    /// The tokens collected, and the error that was delivered last, if any.
    pub fn into_tokens(self) -> (collected: (Vec<(usize, Token)>, Option<usize>))
        ensures
            collected.0@ == self@.0,
            collected.1 == self@.1,
    {
        (self.tokens, self.error)
    }
}

/// What a collector holds after a delivery that stopped at the first error:
/// the tokens it held before followed by the leading tokens of the delivery,
/// and the first error of the delivery, or the error it held before when the
/// delivery had none.
pub proof fn lemma_collected_tokens(
    after: &PushToTokens,
    before: &PushToTokens,
    items: Seq<TokenResult>,
)
    requires
        tokens_delivered(after, before, until_first_error(items)),
    ensures
        after@.0 == before@.0 + leading_tokens(items),
        after@.1 == match first_error(items) {
            Some(byte_offset) => Some(byte_offset),
            None => before@.1,
        },
{
    lemma_until_first_error(items);
    let tokens = leading_tokens(items);
    lemma_collected_leading(after, before, tokens, first_error(items));
}

/// What a collector holds after it was handed `tokens` and then, possibly, an
/// error.
proof fn lemma_collected_leading(
    after: &PushToTokens,
    before: &PushToTokens,
    tokens: Seq<(usize, Token)>,
    error: Option<usize>,
)
    requires
        tokens_delivered(
            after,
            before,
            match error {
                None => as_items(tokens),
                Some(byte_offset) => as_items(tokens).push(Err(byte_offset)),
            },
        ),
    ensures
        after@.0 == before@.0 + tokens,
        after@.1 == match error {
            Some(byte_offset) => Some(byte_offset),
            None => before@.1,
        },
    decreases tokens.len(), (if error is Some { 1int } else { 0int }),
{
    let items = as_items(tokens);
    match error {
        Some(byte_offset) => {
            let all = items.push(Err(byte_offset));
            assert(all.drop_last() =~= items);
            let middle = lemma_tokens_delivered_last(after, before, all);
            lemma_collected_leading(&middle, before, tokens, None);
        },
        None => {
            if tokens.len() == 0 {
                assert(after@.0 =~= before@.0 + tokens);
            } else {
                assert(items.drop_last() =~= as_items(tokens.drop_last()));
                let middle = lemma_tokens_delivered_last(after, before, items);
                lemma_collected_leading(&middle, before, tokens.drop_last(), None);
                assert(after@.0 =~= before@.0 + tokens);
            }
        },
    }
}

} // verus!
