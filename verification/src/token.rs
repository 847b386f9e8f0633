//! Tokens, and sources of them.

use vstd::prelude::*;

verus! {

/// A lexical unit of the input.
///
/// String and comment tokens do not own their text: they record how many
/// bytes of the input they cover, and the offset that accompanies every token
/// says where those bytes start.
#[derive(Debug, Clone, Copy, PartialEq, Eq, Structural)]
pub enum Token {
    /// An unsigned integer literal. Values beyond 64 bits wrap around.
    Int(u64),
    /// A string literal: the bytes between the quotes.
    Str { size_in_bytes: usize },
    True,
    False,
    Null,
    LBracket,
    RBracket,
    LBrace,
    RBrace,
    Colon,
    Comma,
    /// A line comment, from its first `/` through the newline that ends it
    /// (or through the end of the input).
    Comment { size_in_bytes: usize },
}

/// What a token source yields: a token with the byte offset at which it
/// starts, or the byte offset of a lexical error.
pub type TokenResult = Result<(usize, Token), usize>;

/// A finite, forward-only supply of tokens.
pub trait TokenSource {
    /// The items that have not been handed out yet, in order.
    spec fn remaining(&self) -> Seq<TokenResult>;

    /// Hands out the next item, or `None` once the source is exhausted.
    fn next(&mut self) -> (item: Option<TokenResult>)
        ensures
            old(self).remaining().len() == 0 ==> item is None && final(self).remaining()
                == old(self).remaining(),
            old(self).remaining().len() > 0 ==> item == Some(old(self).remaining()[0])
                && final(self).remaining() == old(self).remaining().drop_first(),
    ;
}

/// The tokens that come before the first error.
pub open spec fn leading_tokens(items: Seq<TokenResult>) -> Seq<(usize, Token)>
    decreases items.len(),
{
    if items.len() == 0 {
        Seq::empty()
    } else {
        match items[0] {
            Ok(token) => seq![token] + leading_tokens(items.drop_first()),
            Err(_) => Seq::empty(),
        }
    }
}

/// The offset of the first error, if there is one.
pub open spec fn first_error(items: Seq<TokenResult>) -> Option<usize>
    decreases items.len(),
{
    if items.len() == 0 {
        None
    } else {
        match items[0] {
            Ok(_) => first_error(items.drop_first()),
            Err(byte_offset) => Some(byte_offset),
        }
    }
}

/// The items up to and including the first error: what a consumer that stops
/// at the first error gets to see.
pub open spec fn until_first_error(items: Seq<TokenResult>) -> Seq<TokenResult>
    decreases items.len(),
{
    if items.len() == 0 {
        Seq::empty()
    } else {
        match items[0] {
            Ok(_) => seq![items[0]] + until_first_error(items.drop_first()),
            Err(_) => seq![items[0]],
        }
    }
}

/// The tokens of `tokens`, each as a successful item.
pub open spec fn as_items(tokens: Seq<(usize, Token)>) -> Seq<TokenResult> {
    Seq::new(tokens.len(), |i: int| Ok(tokens[i]))
}

/// What is seen up to the first error is the leading tokens, followed by the
/// error if there is one.
pub proof fn lemma_until_first_error(items: Seq<TokenResult>)
    ensures
        until_first_error(items) == match first_error(items) {
            None => as_items(leading_tokens(items)),
            Some(byte_offset) => as_items(leading_tokens(items)).push(Err(byte_offset)),
        },
    decreases items.len(),
{
    if items.len() == 0 {
        assert(until_first_error(items) =~= as_items(leading_tokens(items)));
    } else {
        let rest = items.drop_first();
        lemma_until_first_error(rest);
        match items[0] {
            Ok(token) => {
                assert(as_items(leading_tokens(items)) =~= seq![items[0]] + as_items(
                    leading_tokens(rest),
                ));
                match first_error(rest) {
                    None => {},
                    Some(byte_offset) => {
                        assert(as_items(leading_tokens(items)).push(Err(byte_offset)) =~= seq![
                            items[0],
                        ] + as_items(leading_tokens(rest)).push(Err(byte_offset)));
                    },
                }
            },
            Err(byte_offset) => {
                assert(until_first_error(items) =~= as_items(leading_tokens(items)).push(
                    Err(byte_offset),
                ));
            },
        }
    }
}

/// The first error, if there is one, stands at the position that the leading
/// tokens end at, and the leading tokens are the items before it; without an
/// error every item is a leading token.
pub proof fn lemma_first_error_position(items: Seq<TokenResult>)
    ensures
        leading_tokens(items).len() <= items.len(),
        forall|i: int|
            0 <= i < leading_tokens(items).len() ==> #[trigger] items[i] == Ok::<
                (usize, Token),
                usize,
            >(leading_tokens(items)[i]),
        first_error(items) is None ==> leading_tokens(items).len() == items.len(),
        first_error(items) matches Some(byte_offset) ==> leading_tokens(items).len() < items.len()
            && items[leading_tokens(items).len() as int] == Err::<(usize, Token), usize>(
            byte_offset,
        ),
    decreases items.len(),
{
    if items.len() > 0 {
        let rest = items.drop_first();
        lemma_first_error_position(rest);
        match items[0] {
            Ok(token) => {
                assert forall|i: int|
                    0 <= i < leading_tokens(items).len() implies #[trigger] items[i]
                    == Ok::<(usize, Token), usize>(leading_tokens(items)[i]) by {
                    if i > 0 {
                        assert(items[i] == rest[i - 1]);
                    }
                }
                if first_error(items) is Some {
                    assert(items[leading_tokens(items).len() as int] == rest[leading_tokens(
                        rest,
                    ).len() as int]);
                }
            },
            Err(_) => {},
        }
    }
}

/// Lexing all at once and lexing item by item see the same tokens: the
/// leading tokens are the items up to the first error, and they are all the
/// items when there is no error.
pub proof fn lemma_leading_tokens_are_the_items(items: Seq<TokenResult>)
    ensures
        as_items(leading_tokens(items)) == items.take(leading_tokens(items).len() as int),
        first_error(items) is None ==> as_items(leading_tokens(items)) == items,
        first_error(items) matches Some(byte_offset) ==> items[leading_tokens(items).len() as int]
            == Err::<(usize, Token), usize>(byte_offset),
{
    lemma_first_error_position(items);
    let leading = leading_tokens(items);
    assert(as_items(leading) =~= items.take(leading.len() as int));
    if first_error(items) is None {
        assert(items.take(leading.len() as int) =~= items);
    }
}

} // verus!
