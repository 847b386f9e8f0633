//! Lexing a whole input at once, and a token source over the result.

use vstd::prelude::*;
use vstd::string::StringSliceAdditionalSpecFns;
use crate::lexer::{lex, Lexer};
use crate::token::{as_items, first_error, leading_tokens, Token, TokenResult, TokenSource};

verus! {

/// Lexes the whole input at once. The result is the tokens of the input in
/// order, or the offset of the first lexical error.
pub fn tokenize_list(input: &str) -> (result: Result<Vec<(usize, Token)>, usize>)
    ensures
        match first_error(lex(input.spec_bytes())) {
            None => result is Ok && result->Ok_0@ == leading_tokens(lex(input.spec_bytes())),
            Some(byte_offset) => result == Err::<Vec<(usize, Token)>, usize>(byte_offset),
        },
{
    let mut tokens: Vec<(usize, Token)> = Vec::new();
    let mut lexer = Lexer::new(input);
    let ghost all = lex(input.spec_bytes());
    loop
        invariant
            all == lex(input.spec_bytes()),
            first_error(all) == first_error(lexer.remaining()),
            leading_tokens(all) == tokens@ + leading_tokens(lexer.remaining()),
        decreases lexer.remaining().len(),
    {
        let ghost before = lexer.remaining();
        match lexer.next() {
            None => {
                assert(tokens@ + leading_tokens(before) =~= tokens@);
                return Ok(tokens);
            },
            Some(Ok(token)) => {
                tokens.push(token);
                assert(leading_tokens(all) =~= tokens@ + leading_tokens(lexer.remaining()));
            },
            Some(Err(byte_offset)) => {
                return Err(byte_offset);
            },
        }
    }
}

/// A token source over tokens that were lexed beforehand.
pub struct TokenList {
    tokens: Vec<(usize, Token)>,
    position: usize,
}

impl TokenList {
    /// The tokens that the source was made from.
    pub closed spec fn tokens(&self) -> Seq<(usize, Token)> {
        self.tokens@
    }

    /// How many of them have been handed out.
    pub closed spec fn position(&self) -> int {
        self.position as int
    }

    /// Makes a source that hands out `tokens` in order.
    pub fn new(tokens: Vec<(usize, Token)>) -> (list: TokenList)
        ensures
            list.tokens() == tokens@,
            list.position() == 0,
            list.remaining() == as_items(tokens@),
    {
        let list = TokenList { tokens, position: 0 };
        assert(list.remaining() =~= as_items(list.tokens@));
        list
    }
}

impl TokenSource for TokenList {
    open spec fn remaining(&self) -> Seq<TokenResult> {
        if 0 <= self.position() <= self.tokens().len() {
            as_items(self.tokens().skip(self.position()))
        } else {
            Seq::empty()
        }
    }

    fn next(&mut self) -> (item: Option<TokenResult>)
        ensures
            final(self).tokens() == old(self).tokens(),
    {
        if self.position < self.tokens.len() {
            let token = self.tokens[self.position];
            self.position = self.position + 1;
            assert(self.remaining() =~= old(self).remaining().drop_first());
            Some(Ok(token))
        } else {
            assert(self.remaining() =~= Seq::<TokenResult>::empty());
            None
        }
    }
}

} // verus!
