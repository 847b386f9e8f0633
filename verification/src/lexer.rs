//! The lexical grammar, as a specification over the bytes of the input, and
//! the lazy lexer.

use vstd::prelude::*;
use vstd::arithmetic::div_mod::{
    lemma_add_mod_noop_right, lemma_mod_bound, lemma_mod_sub_multiples_vanish,
    lemma_mul_mod_noop_left, lemma_small_mod,
};
use vstd::string::StringSliceAdditionalSpecFns;
use vstd::utf8::is_continuation_byte;
use crate::token::{Token, TokenResult, TokenSource};

verus! {

/// A space.
pub const SPACE: u8 = 0x20;

/// A horizontal tab.
pub const TAB: u8 = 0x09;

/// A line feed, which ends a comment.
pub const LINE_FEED: u8 = 0x0a;

/// A form feed.
pub const FORM_FEED: u8 = 0x0c;

/// A carriage return.
pub const CARRIAGE_RETURN: u8 = 0x0d;

/// `"`, which starts and ends a string.
pub const QUOTE: u8 = 0x22;

/// `/`, two of which start a comment.
pub const SLASH: u8 = 0x2f;

/// `,`
pub const COMMA: u8 = 0x2c;

/// `:`
pub const COLON: u8 = 0x3a;

/// `[`
pub const LEFT_BRACKET: u8 = 0x5b;

/// `]`
pub const RIGHT_BRACKET: u8 = 0x5d;

/// `{`
pub const LEFT_BRACE: u8 = 0x7b;

/// `}`
pub const RIGHT_BRACE: u8 = 0x7d;

/// `0`, the first of the digits.
pub const DIGIT_ZERO: u8 = 0x30;

/// `9`, the last of the digits.
pub const DIGIT_NINE: u8 = 0x39;

/// `a`
pub const LOWER_A: u8 = 0x61;

/// `e`
pub const LOWER_E: u8 = 0x65;

/// `f`
pub const LOWER_F: u8 = 0x66;

/// `l`
pub const LOWER_L: u8 = 0x6c;

/// `n`
pub const LOWER_N: u8 = 0x6e;

/// `r`
pub const LOWER_R: u8 = 0x72;

/// `s`
pub const LOWER_S: u8 = 0x73;

/// `t`
pub const LOWER_T: u8 = 0x74;

/// `u`
pub const LOWER_U: u8 = 0x75;

/// ASCII whitespace: space, tab, line feed, form feed, carriage return.
pub open spec fn is_space(byte: u8) -> bool {
    byte == SPACE || byte == TAB || byte == LINE_FEED || byte == FORM_FEED
        || byte == CARRIAGE_RETURN
}

/// An ASCII decimal digit.
pub open spec fn is_digit(byte: u8) -> bool {
    DIGIT_ZERO <= byte <= DIGIT_NINE
}

/// The first position at or after `pos` that holds no whitespace.
pub open spec fn skip_spaces(bytes: Seq<u8>, pos: int) -> int
    decreases bytes.len() - pos,
{
    if 0 <= pos < bytes.len() && is_space(bytes[pos]) {
        skip_spaces(bytes, pos + 1)
    } else {
        pos
    }
}

/// The first position at or after `pos` that does not continue a multi-byte
/// character: where the character that covers `pos - 1` ends.
pub open spec fn char_end(bytes: Seq<u8>, pos: int) -> int
    decreases bytes.len() - pos,
{
    if 0 <= pos < bytes.len() && is_continuation_byte(bytes[pos]) {
        char_end(bytes, pos + 1)
    } else {
        pos
    }
}

/// The position just after the first line feed at or after `pos`, or the
/// length of the input when there is none.
pub open spec fn line_end(bytes: Seq<u8>, pos: int) -> int
    decreases bytes.len() - pos,
{
    if 0 <= pos < bytes.len() {
        if bytes[pos] == LINE_FEED {
            pos + 1
        } else {
            line_end(bytes, pos + 1)
        }
    } else {
        pos
    }
}

/// The position of the first `"` at or after `pos`, or the length of the
/// input when there is none.
pub open spec fn find_quote(bytes: Seq<u8>, pos: int) -> int
    decreases bytes.len() - pos,
{
    if 0 <= pos < bytes.len() && bytes[pos] != QUOTE {
        find_quote(bytes, pos + 1)
    } else {
        pos
    }
}

/// The position at which the last character that starts in `lo + 1 .. hi`
/// starts, or `lo` when no character starts there.
pub open spec fn last_char_start(bytes: Seq<u8>, lo: int, hi: int) -> int
    decreases hi - lo,
{
    if lo + 1 < hi <= bytes.len() {
        if is_continuation_byte(bytes[hi - 1]) {
            last_char_start(bytes, lo, hi - 1)
        } else {
            hi - 1
        }
    } else {
        lo
    }
}

/// The first position at or after `pos` that holds no digit.
pub open spec fn digits_end(bytes: Seq<u8>, pos: int) -> int
    decreases bytes.len() - pos,
{
    if 0 <= pos < bytes.len() && is_digit(bytes[pos]) {
        digits_end(bytes, pos + 1)
    } else {
        pos
    }
}

/// The number that the digits in `lo .. hi` spell, accumulated digit by digit
/// in 64 bits: overflow wraps around.
pub open spec fn digits_value(bytes: Seq<u8>, lo: int, hi: int) -> u64
    decreases hi - lo,
{
    if 0 <= lo < hi <= bytes.len() {
        digits_value(bytes, lo, hi - 1).wrapping_mul(10).wrapping_add(
            (bytes[hi - 1] - DIGIT_ZERO) as u64,
        )
    } else {
        0
    }
}

/// The number that the digits in `lo .. hi` spell in decimal notation.
pub open spec fn decimal_value(bytes: Seq<u8>, lo: int, hi: int) -> nat
    decreases hi - lo,
{
    if 0 <= lo < hi <= bytes.len() {
        decimal_value(bytes, lo, hi - 1) * 10 + (bytes[hi - 1] - DIGIT_ZERO) as nat
    } else {
        0
    }
}

/// Overflow wraps: the value of an integer token is the number that its
/// digits spell, modulo 2^64.
pub proof fn lemma_digits_wrap(bytes: Seq<u8>, lo: int, hi: int)
    requires
        forall|i: int| lo <= i < hi ==> is_digit(#[trigger] bytes[i]),
    ensures
        digits_value(bytes, lo, hi) == decimal_value(bytes, lo, hi) % 0x1_0000_0000_0000_0000,
    decreases hi - lo,
{
    let modulus = 0x1_0000_0000_0000_0000int;
    if 0 <= lo < hi <= bytes.len() {
        lemma_digits_wrap(bytes, lo, hi - 1);
        let before = decimal_value(bytes, lo, hi - 1) as int;
        let wrapped = digits_value(bytes, lo, hi - 1);
        let digit = (bytes[hi - 1] - DIGIT_ZERO) as int;
        let shifted = wrapped.wrapping_mul(10);
        assert(shifted == (wrapped * 10) % modulus);
        lemma_mul_mod_noop_left(before, 10, modulus);
        assert(shifted == (before * 10) % modulus);
        lemma_add_mod_noop_right(digit, before * 10, modulus);
        lemma_mod_bound(before * 10, modulus);
        let sum = shifted + digit;
        assert(shifted.wrapping_add(digit as u64) == sum % modulus) by {
            if sum >= modulus {
                lemma_small_mod((sum - modulus) as nat, modulus as nat);
                lemma_mod_sub_multiples_vanish(sum, modulus);
            } else {
                lemma_small_mod(sum as nat, modulus as nat);
            }
        }
    } else {
        assert(0nat % 0x1_0000_0000_0000_0000 == 0) by {
            lemma_small_mod(0, 0x1_0000_0000_0000_0000);
        }
    }
}

/// The outcome of reading one character while spelling out a keyword: whether
/// it was the expected one, and where the cursor stands afterwards. A
/// character that differs is consumed whole; at the end of the input nothing
/// is consumed.
pub open spec fn expect_byte(bytes: Seq<u8>, pos: int, byte: u8) -> (bool, int) {
    if 0 <= pos < bytes.len() {
        if bytes[pos] == byte {
            (true, pos + 1)
        } else {
            (false, char_end(bytes, pos + 1))
        }
    } else {
        (false, pos)
    }
}

/// Reads three characters in turn, stopping at the first that differs.
pub open spec fn expect_three(bytes: Seq<u8>, pos: int, a: u8, b: u8, c: u8) -> (bool, int) {
    let (first, after_first) = expect_byte(bytes, pos, a);
    if !first {
        (false, after_first)
    } else {
        let (second, after_second) = expect_byte(bytes, after_first, b);
        if !second {
            (false, after_second)
        } else {
            expect_byte(bytes, after_second, c)
        }
    }
}

/// Reads four characters in turn, stopping at the first that differs.
pub open spec fn expect_four(bytes: Seq<u8>, pos: int, a: u8, b: u8, c: u8, d: u8) -> (
    bool,
    int,
) {
    let (first, after_first) = expect_byte(bytes, pos, a);
    if !first {
        (false, after_first)
    } else {
        expect_three(bytes, after_first, b, c, d)
    }
}

/// One step of lexing: the item produced, if any, and where the cursor stands
/// afterwards.
pub ghost struct Scan {
    pub item: Option<TokenResult>,
    pub next: int,
}

/// A keyword that starts at `start` and whose remaining characters were read
/// with the given outcome.
pub open spec fn keyword_scan(start: int, token: Token, outcome: (bool, int)) -> Scan {
    if outcome.0 {
        Scan { item: Some(Ok((start as usize, token))), next: outcome.1 }
    } else {
        Scan { item: Some(Err(start as usize)), next: outcome.1 }
    }
}

/// A single-character token at `start`.
pub open spec fn punctuation_scan(start: int, token: Token) -> Scan {
    Scan { item: Some(Ok((start as usize, token))), next: start + 1 }
}

/// The token that starts at `start`, which holds a byte that is not
/// whitespace.
///
/// - `//` starts a comment, which lasts through the next line feed, or to
///   the end of the input. A `/` that no second one follows is an error at
///   the position behind it.
/// - `"` starts a string, which lasts to the next `"`: there are no escapes.
///   The token spans what stands between the quotes. A string that is not
///   closed is an error at the position where the last character of the
///   input starts.
/// - `t`, `f` and `n` start the keywords `true`, `false` and `null`, which
///   have to follow letter by letter; if they do not, that is an error at the
///   position of the first letter.
/// - A digit starts an integer, which lasts as long as digits follow.
/// - `,`, `:`, `[`, `]`, `{` and `}` are tokens by themselves.
/// - Any other character is an error at its position.
///
/// Behind an error, lexing goes on behind the last character that was read.
pub open spec fn scan_token(bytes: Seq<u8>, start: int) -> Scan
    recommends
        0 <= start < bytes.len(),
{
    let c = bytes[start];
    if c == SLASH {
        if start + 1 < bytes.len() && bytes[start + 1] == SLASH {
            let end = line_end(bytes, start + 2);
            Scan {
                item: Some(
                    Ok((start as usize, Token::Comment { size_in_bytes: (end - start) as usize })),
                ),
                next: end,
            }
        } else {
            Scan {
                item: Some(Err((start + 1) as usize)),
                next: if start + 1 < bytes.len() {
                    char_end(bytes, start + 2)
                } else {
                    start + 1
                },
            }
        }
    } else if c == QUOTE {
        let close = find_quote(bytes, start + 1);
        if close < bytes.len() {
            Scan {
                item: Some(
                    Ok(
                        (
                            (start + 1) as usize,
                            Token::Str { size_in_bytes: (close - start - 1) as usize },
                        ),
                    ),
                ),
                next: close + 1,
            }
        } else {
            Scan {
                item: Some(Err(last_char_start(bytes, start, bytes.len() as int) as usize)),
                next: bytes.len() as int,
            }
        }
    } else if c == LOWER_T {
        keyword_scan(start, Token::True, expect_three(bytes, start + 1, LOWER_R, LOWER_U, LOWER_E))
    } else if c == LOWER_F {
        keyword_scan(
            start,
            Token::False,
            expect_four(bytes, start + 1, LOWER_A, LOWER_L, LOWER_S, LOWER_E),
        )
    } else if c == LOWER_N {
        keyword_scan(start, Token::Null, expect_three(bytes, start + 1, LOWER_U, LOWER_L, LOWER_L))
    } else if is_digit(c) {
        let end = digits_end(bytes, start);
        Scan {
            item: Some(Ok((start as usize, Token::Int(digits_value(bytes, start, end))))),
            next: end,
        }
    } else if c == COMMA {
        punctuation_scan(start, Token::Comma)
    } else if c == COLON {
        punctuation_scan(start, Token::Colon)
    } else if c == LEFT_BRACKET {
        punctuation_scan(start, Token::LBracket)
    } else if c == RIGHT_BRACKET {
        punctuation_scan(start, Token::RBracket)
    } else if c == LEFT_BRACE {
        punctuation_scan(start, Token::LBrace)
    } else if c == RIGHT_BRACE {
        punctuation_scan(start, Token::RBrace)
    } else {
        Scan { item: Some(Err(start as usize)), next: char_end(bytes, start + 1) }
    }
}

/// One step of lexing from `pos`: whitespace is skipped, then one token is
/// read. At the end of the input there is no item.
pub open spec fn scan(bytes: Seq<u8>, pos: int) -> Scan {
    let start = skip_spaces(bytes, pos);
    if 0 <= start < bytes.len() {
        scan_token(bytes, start)
    } else {
        Scan { item: None, next: start }
    }
}

/// Everything that lexing yields from `pos` on, item by item. Lexing does not
/// stop at an error: it goes on behind the offending text.
pub open spec fn lex_from(bytes: Seq<u8>, pos: int) -> Seq<TokenResult>
    decreases bytes.len() - pos,
{
    let step = scan(bytes, pos);
    if step.item is Some && pos < step.next <= bytes.len() {
        seq![step.item->Some_0] + lex_from(bytes, step.next)
    } else {
        Seq::empty()
    }
}

/// Everything that lexing the whole input yields.
pub open spec fn lex(bytes: Seq<u8>) -> Seq<TokenResult> {
    lex_from(bytes, 0)
}

/// Skipping whitespace moves forward and stays inside the input.
proof fn lemma_skip_spaces(bytes: Seq<u8>, pos: int)
    requires
        0 <= pos <= bytes.len(),
    ensures
        pos <= skip_spaces(bytes, pos) <= bytes.len(),
    decreases bytes.len() - pos,
{
    if pos < bytes.len() && is_space(bytes[pos]) {
        lemma_skip_spaces(bytes, pos + 1);
    }
}

/// The end of a character lies at or behind the position, inside the input.
proof fn lemma_char_end(bytes: Seq<u8>, pos: int)
    requires
        0 <= pos <= bytes.len(),
    ensures
        pos <= char_end(bytes, pos) <= bytes.len(),
    decreases bytes.len() - pos,
{
    if pos < bytes.len() && is_continuation_byte(bytes[pos]) {
        lemma_char_end(bytes, pos + 1);
    }
}

/// The end of a line lies at or behind the position, inside the input.
proof fn lemma_line_end(bytes: Seq<u8>, pos: int)
    requires
        0 <= pos <= bytes.len(),
    ensures
        pos <= line_end(bytes, pos) <= bytes.len(),
    decreases bytes.len() - pos,
{
    if pos < bytes.len() && bytes[pos] != LINE_FEED {
        lemma_line_end(bytes, pos + 1);
    }
}

/// The search for a quote moves forward and stays inside the input.
proof fn lemma_find_quote(bytes: Seq<u8>, pos: int)
    requires
        0 <= pos <= bytes.len(),
    ensures
        pos <= find_quote(bytes, pos) <= bytes.len(),
    decreases bytes.len() - pos,
{
    if pos < bytes.len() && bytes[pos] != QUOTE {
        lemma_find_quote(bytes, pos + 1);
    }
}

/// The end of a run of digits lies at or behind the position, inside the
/// input.
proof fn lemma_digits_end(bytes: Seq<u8>, pos: int)
    requires
        0 <= pos <= bytes.len(),
    ensures
        pos <= digits_end(bytes, pos) <= bytes.len(),
    decreases bytes.len() - pos,
{
    if pos < bytes.len() && is_digit(bytes[pos]) {
        lemma_digits_end(bytes, pos + 1);
    }
}

/// The last character that starts in a range starts inside the range.
proof fn lemma_last_char_start(bytes: Seq<u8>, lo: int, hi: int)
    requires
        0 <= lo < hi <= bytes.len(),
    ensures
        lo <= last_char_start(bytes, lo, hi) < hi,
    decreases hi - lo,
{
    if lo + 1 < hi && is_continuation_byte(bytes[hi - 1]) {
        lemma_last_char_start(bytes, lo, hi - 1);
    }
}

/// Reading one character moves forward and stays inside the input.
proof fn lemma_expect_byte(bytes: Seq<u8>, pos: int, byte: u8)
    requires
        0 <= pos <= bytes.len(),
    ensures
        pos <= expect_byte(bytes, pos, byte).1 <= bytes.len(),
{
    if pos < bytes.len() {
        lemma_char_end(bytes, pos + 1);
    }
}

/// Reading three characters moves forward and stays inside the input.
proof fn lemma_expect_three(bytes: Seq<u8>, pos: int, a: u8, b: u8, c: u8)
    requires
        0 <= pos <= bytes.len(),
    ensures
        pos <= expect_three(bytes, pos, a, b, c).1 <= bytes.len(),
{
    lemma_expect_byte(bytes, pos, a);
    let p = expect_byte(bytes, pos, a).1;
    lemma_expect_byte(bytes, p, b);
    let q = expect_byte(bytes, p, b).1;
    lemma_expect_byte(bytes, q, c);
}

/// Reading four characters moves forward and stays inside the input.
proof fn lemma_expect_four(bytes: Seq<u8>, pos: int, a: u8, b: u8, c: u8, d: u8)
    requires
        0 <= pos <= bytes.len(),
    ensures
        pos <= expect_four(bytes, pos, a, b, c, d).1 <= bytes.len(),
{
    lemma_expect_byte(bytes, pos, a);
    lemma_expect_three(bytes, expect_byte(bytes, pos, a).1, b, c, d);
}

/// A step of lexing that yields an item moves the cursor forward and keeps it
/// inside the input; a step that yields none leaves it at the end.
pub proof fn lemma_scan_advances(bytes: Seq<u8>, pos: int)
    requires
        0 <= pos <= bytes.len(),
    ensures
        scan(bytes, pos).item is Some ==> pos <= skip_spaces(bytes, pos) < scan(bytes, pos).next
            <= bytes.len(),
        scan(bytes, pos).item is None ==> scan(bytes, pos).next == bytes.len(),
{
    lemma_skip_spaces(bytes, pos);
    let start = skip_spaces(bytes, pos);
    if start < bytes.len() {
        lemma_line_end(bytes, start + 1);
        if start + 2 <= bytes.len() {
            lemma_line_end(bytes, start + 2);
            lemma_char_end(bytes, start + 2);
        }
        lemma_find_quote(bytes, start + 1);
        lemma_expect_three(bytes, start + 1, LOWER_R, LOWER_U, LOWER_E);
        lemma_expect_four(bytes, start + 1, LOWER_A, LOWER_L, LOWER_S, LOWER_E);
        lemma_expect_three(bytes, start + 1, LOWER_U, LOWER_L, LOWER_L);
        lemma_digits_end(bytes, start + 1);
        lemma_char_end(bytes, start + 1);
    }
}

/// Where a token lies: a token starts at its offset, which is at or after
/// the cursor and inside the input, and lexing goes on behind it. A string
/// spans the bytes between its quotes, a comment the bytes from its first
/// `/` to where lexing goes on, and a single-character token one byte.
pub proof fn lemma_token_span(bytes: Seq<u8>, pos: int)
    requires
        0 <= pos <= bytes.len(),
        bytes.len() <= usize::MAX,
    ensures
        scan(bytes, pos).item matches Some(Ok((offset, token))) ==> {
            &&& pos <= offset < scan(bytes, pos).next <= bytes.len()
            &&& forall|i: int| pos <= i < offset - (if token is Str { 1int } else { 0int })
                ==> is_space(#[trigger] bytes[i])
            &&& match token {
                Token::Str { size_in_bytes } => {
                    &&& offset + size_in_bytes + 1 == scan(bytes, pos).next
                    &&& bytes[offset - 1] == QUOTE
                    &&& bytes[offset + size_in_bytes] == QUOTE
                    &&& forall|i: int|
                        offset <= i < offset + size_in_bytes ==> #[trigger] bytes[i] != QUOTE
                },
                Token::Comment { size_in_bytes } => {
                    &&& offset + size_in_bytes == scan(bytes, pos).next
                    &&& size_in_bytes >= 2
                    &&& bytes[offset as int] == SLASH
                    &&& bytes[offset + 1] == SLASH
                    &&& forall|i: int|
                        offset + 2 <= i < offset + size_in_bytes - 1 ==> #[trigger] bytes[i]
                            != LINE_FEED
                    &&& offset + size_in_bytes < bytes.len() ==> size_in_bytes >= 3 && bytes[offset
                        + size_in_bytes - 1] == LINE_FEED
                },
                Token::Int(value) => {
                    &&& value == digits_value(bytes, offset as int, scan(bytes, pos).next)
                    &&& forall|i: int|
                        offset <= i < scan(bytes, pos).next ==> is_digit(#[trigger] bytes[i])
                    &&& scan(bytes, pos).next < bytes.len() ==> !is_digit(
                        bytes[scan(bytes, pos).next],
                    )
                },
                Token::True => bytes.subrange(offset as int, offset + 4) == seq![
                    LOWER_T,
                    LOWER_R,
                    LOWER_U,
                    LOWER_E,
                ],
                Token::False => bytes.subrange(offset as int, offset + 5) == seq![
                    LOWER_F,
                    LOWER_A,
                    LOWER_L,
                    LOWER_S,
                    LOWER_E,
                ],
                Token::Null => bytes.subrange(offset as int, offset + 4) == seq![
                    LOWER_N,
                    LOWER_U,
                    LOWER_L,
                    LOWER_L,
                ],
                Token::LBracket => bytes[offset as int] == LEFT_BRACKET && offset + 1 == scan(
                    bytes,
                    pos,
                ).next,
                Token::RBracket => bytes[offset as int] == RIGHT_BRACKET && offset + 1 == scan(
                    bytes,
                    pos,
                ).next,
                Token::LBrace => bytes[offset as int] == LEFT_BRACE && offset + 1 == scan(
                    bytes,
                    pos,
                ).next,
                Token::RBrace => bytes[offset as int] == RIGHT_BRACE && offset + 1 == scan(
                    bytes,
                    pos,
                ).next,
                Token::Colon => bytes[offset as int] == COLON && offset + 1 == scan(
                    bytes,
                    pos,
                ).next,
                Token::Comma => bytes[offset as int] == COMMA && offset + 1 == scan(
                    bytes,
                    pos,
                ).next,
            }
        },
{
    lemma_scan_advances(bytes, pos);
    lemma_skip_spaces(bytes, pos);
    lemma_spaces_skipped(bytes, pos);
    let start = skip_spaces(bytes, pos);
    if start < bytes.len() {
        let c = bytes[start];
        if c == QUOTE {
            lemma_quote_found(bytes, start + 1);
        } else if c == SLASH {
            if start + 2 <= bytes.len() {
                lemma_line_found(bytes, start + 2);
            }
        } else if is_digit(c) {
            lemma_digits_found(bytes, start);
        } else if c == LOWER_T {
            let found = bytes.subrange(start, start + 4);
            if expect_three(bytes, start + 1, LOWER_R, LOWER_U, LOWER_E).0 {
                assert(found =~= seq![LOWER_T, LOWER_R, LOWER_U, LOWER_E]);
            }
        } else if c == LOWER_F {
            let found = bytes.subrange(start, start + 5);
            if expect_four(bytes, start + 1, LOWER_A, LOWER_L, LOWER_S, LOWER_E).0 {
                assert(found =~= seq![LOWER_F, LOWER_A, LOWER_L, LOWER_S, LOWER_E]);
            }
        } else if c == LOWER_N {
            let found = bytes.subrange(start, start + 4);
            if expect_three(bytes, start + 1, LOWER_U, LOWER_L, LOWER_L).0 {
                assert(found =~= seq![LOWER_N, LOWER_U, LOWER_L, LOWER_L]);
            }
        }
    }
}

/// Everything between a position and the first position behind it that
/// holds no whitespace is whitespace.
pub proof fn lemma_spaces_skipped(bytes: Seq<u8>, pos: int)
    requires
        0 <= pos <= bytes.len(),
    ensures
        forall|i: int| pos <= i < skip_spaces(bytes, pos) ==> is_space(#[trigger] bytes[i]),
        skip_spaces(bytes, pos) < bytes.len() ==> !is_space(bytes[skip_spaces(bytes, pos)]),
    decreases bytes.len() - pos,
{
    if pos < bytes.len() && is_space(bytes[pos]) {
        lemma_spaces_skipped(bytes, pos + 1);
    }
}

/// A line ends with the first line feed, or with the input.
pub proof fn lemma_line_found(bytes: Seq<u8>, pos: int)
    requires
        0 <= pos <= bytes.len(),
    ensures
        pos <= line_end(bytes, pos) <= bytes.len(),
        forall|i: int| pos <= i < line_end(bytes, pos) - 1 ==> #[trigger] bytes[i] != LINE_FEED,
        line_end(bytes, pos) < bytes.len() ==> pos < line_end(bytes, pos) && bytes[line_end(
            bytes,
            pos,
        ) - 1] == LINE_FEED,
    decreases bytes.len() - pos,
{
    if pos < bytes.len() && bytes[pos] != LINE_FEED {
        lemma_line_found(bytes, pos + 1);
    }
}

/// A run of digits holds digits only, and ends where no digit follows.
pub proof fn lemma_digits_found(bytes: Seq<u8>, pos: int)
    requires
        0 <= pos <= bytes.len(),
    ensures
        pos <= digits_end(bytes, pos) <= bytes.len(),
        forall|i: int| pos <= i < digits_end(bytes, pos) ==> is_digit(#[trigger] bytes[i]),
        digits_end(bytes, pos) < bytes.len() ==> !is_digit(bytes[digits_end(bytes, pos)]),
    decreases bytes.len() - pos,
{
    if pos < bytes.len() && is_digit(bytes[pos]) {
        lemma_digits_found(bytes, pos + 1);
    }
}

/// Nothing between a position and the first `"` behind it is a `"`.
pub proof fn lemma_quote_found(bytes: Seq<u8>, pos: int)
    requires
        0 <= pos <= bytes.len(),
    ensures
        pos <= find_quote(bytes, pos) <= bytes.len(),
        forall|i: int| pos <= i < find_quote(bytes, pos) ==> #[trigger] bytes[i] != QUOTE,
        find_quote(bytes, pos) < bytes.len() ==> bytes[find_quote(bytes, pos)] == QUOTE,
    decreases bytes.len() - pos,
{
    if pos < bytes.len() && bytes[pos] != QUOTE {
        lemma_quote_found(bytes, pos + 1);
    }
}

/// Lexing from a position is the item of the first step followed by lexing
/// from where that step ends.
pub proof fn lemma_lex_from_unfold(bytes: Seq<u8>, pos: int)
    requires
        0 <= pos <= bytes.len(),
    ensures
        scan(bytes, pos).item is Some ==> lex_from(bytes, pos) == seq![
            scan(bytes, pos).item->Some_0,
        ] + lex_from(bytes, scan(bytes, pos).next),
        scan(bytes, pos).item is None ==> lex_from(bytes, pos) == Seq::<TokenResult>::empty(),
{
    lemma_scan_advances(bytes, pos);
}

/// A lazy lexer: a cursor over the bytes of the input.
pub struct Lexer<'a> {
    input: &'a [u8],
    position: usize,
}

/// What a lexer is, to its contracts: the input and the cursor.
pub ghost struct LexerView {
    pub bytes: Seq<u8>,
    pub position: int,
}

impl<'a> View for Lexer<'a> {
    type V = LexerView;

    closed spec fn view(&self) -> LexerView {
        LexerView { bytes: self.input@, position: self.position as int }
    }
}

/// Makes a lexer that stands at the start of `input`.
pub fn tokenize_iter<'a>(input: &'a str) -> (lexer: Lexer<'a>)
    ensures
        lexer@ == (LexerView { bytes: input.spec_bytes(), position: 0 }),
        lexer.remaining() == lex(input.spec_bytes()),
{
    Lexer::new(input)
}

impl<'a> Lexer<'a> {
    /// Makes a lexer that stands at the start of `input`.
    pub fn new(input: &'a str) -> (lexer: Self)
        ensures
            lexer@ == (LexerView { bytes: input.spec_bytes(), position: 0 }),
            lexer.remaining() == lex(input.spec_bytes()),
    {
        Lexer { input: input.as_bytes(), position: 0 }
    }

    /// Reads one character while spelling out a keyword.
    fn next_char(&mut self, expected: u8) -> (matched: bool)
        requires
            old(self)@.position <= old(self)@.bytes.len(),
        ensures
            final(self)@.bytes == old(self)@.bytes,
            (matched, final(self)@.position) == expect_byte(
                old(self)@.bytes,
                old(self)@.position,
                expected,
            ),
            final(self)@.position <= final(self)@.bytes.len(),
    {
        if self.position < self.input.len() {
            let byte = self.input[self.position];
            self.position = self.position + 1;
            if byte == expected {
                true
            } else {
                self.skip_char();
                false
            }
        } else {
            false
        }
    }

    /// Moves the cursor to where the character that it stands in ends.
    fn skip_char(&mut self)
        requires
            old(self)@.position <= old(self)@.bytes.len(),
        ensures
            final(self)@.bytes == old(self)@.bytes,
            final(self)@.position == char_end(old(self)@.bytes, old(self)@.position),
            final(self)@.position <= final(self)@.bytes.len(),
    {
        while self.position < self.input.len() && is_continuation(self.input[self.position])
            invariant
                self.input == old(self).input,
                old(self).position <= self.position <= self.input@.len(),
                char_end(self.input@, self.position as int) == char_end(
                    self.input@,
                    old(self).position as int,
                ),
            decreases self.input@.len() - self.position,
        {
            self.position = self.position + 1;
        }
    }

    /// Finishes a keyword whose remaining characters were read with the
    /// outcome `matched`.
    fn keyword(start: usize, token: Token, matched: bool) -> (item: TokenResult)
        ensures
            forall|next: int|
                Some(item) == #[trigger] keyword_scan(start as int, token, (matched, next)).item,
    {
        if matched {
            Ok((start, token))
        } else {
            Err(start)
        }
    }
}

/// Whether `byte` is ASCII whitespace.
fn is_whitespace(byte: u8) -> (space: bool)
    ensures
        space == is_space(byte),
{
    byte == SPACE || byte == TAB || byte == LINE_FEED || byte == FORM_FEED
        || byte == CARRIAGE_RETURN
}

/// Whether `byte` is an ASCII decimal digit.
fn is_ascii_digit(byte: u8) -> (digit: bool)
    ensures
        digit == is_digit(byte),
{
    DIGIT_ZERO <= byte && byte <= DIGIT_NINE
}

/// Whether `byte` continues a multi-byte character.
fn is_continuation(byte: u8) -> (continuation: bool)
    ensures
        continuation == is_continuation_byte(byte),
{
    0x80 <= byte && byte <= 0xbf
}

impl<'a> TokenSource for Lexer<'a> {
    open spec fn remaining(&self) -> Seq<TokenResult> {
        lex_from(self@.bytes, self@.position)
    }

    /// Skips whitespace and reads one token.
    fn next(&mut self) -> (item: Option<TokenResult>)
        ensures
            final(self)@.bytes == old(self)@.bytes,
            item == scan(old(self)@.bytes, old(self)@.position).item,
            final(self)@.position == scan(old(self)@.bytes, old(self)@.position).next,
    {
        let len = self.input.len();
        if self.position > len {
            return None;
        }
        let ghost bytes = self.input@;
        let ghost pos = self.position as int;
        proof {
            lemma_scan_advances(bytes, pos);
        }
        while self.position < len && is_whitespace(self.input[self.position])
            invariant
                self.input@ == bytes,
                len == bytes.len(),
                pos <= self.position <= len,
                skip_spaces(bytes, self.position as int) == skip_spaces(bytes, pos),
            decreases len - self.position,
        {
            self.position = self.position + 1;
        }
        if self.position >= len {
            return None;
        }
        let start = self.position;
        let c = self.input[start];
        self.position = start + 1;
        if c == SLASH {
            if self.position < len && self.input[self.position] == SLASH {
                self.position = self.position + 1;
                while self.position < len && self.input[self.position] != LINE_FEED
                    invariant
                        self.input@ == bytes,
                        len == bytes.len(),
                        start + 2 <= self.position <= len,
                        line_end(bytes, self.position as int) == line_end(bytes, start + 2),
                    decreases len - self.position,
                {
                    self.position = self.position + 1;
                }
                if self.position < len {
                    self.position = self.position + 1;
                }
                Some(Ok((start, Token::Comment { size_in_bytes: self.position - start })))
            } else {
                if self.position < len {
                    self.position = self.position + 1;
                    self.skip_char();
                }
                Some(Err(start + 1))
            }
        } else if c == QUOTE {
            let mut last_byte_offset = start;
            while self.position < len && self.input[self.position] != QUOTE
                invariant
                    self.input@ == bytes,
                    len == bytes.len(),
                    start + 1 <= self.position <= len,
                    find_quote(bytes, self.position as int) == find_quote(bytes, start + 1),
                    last_byte_offset == last_char_start(
                        bytes,
                        start as int,
                        self.position as int,
                    ),
                decreases len - self.position,
            {
                if !is_continuation(self.input[self.position]) {
                    last_byte_offset = self.position;
                }
                self.position = self.position + 1;
            }
            if self.position < len {
                let close = self.position;
                self.position = self.position + 1;
                Some(Ok((start + 1, Token::Str { size_in_bytes: close - start - 1 })))
            } else {
                Some(Err(last_byte_offset))
            }
        } else if c == LOWER_T {
            let matched = self.next_char(LOWER_R) && self.next_char(LOWER_U)
                && self.next_char(LOWER_E);
            Some(Self::keyword(start, Token::True, matched))
        } else if c == LOWER_F {
            let matched = self.next_char(LOWER_A) && self.next_char(LOWER_L)
                && self.next_char(LOWER_S) && self.next_char(LOWER_E);
            Some(Self::keyword(start, Token::False, matched))
        } else if c == LOWER_N {
            let matched = self.next_char(LOWER_U) && self.next_char(LOWER_L)
                && self.next_char(LOWER_L);
            Some(Self::keyword(start, Token::Null, matched))
        } else if is_ascii_digit(c) {
            let mut i: u64 = (c - DIGIT_ZERO) as u64;
            assert(digits_value(bytes, start as int, start as int) == 0);
            while self.position < len && is_ascii_digit(self.input[self.position])
                invariant
                    self.input@ == bytes,
                    len == bytes.len(),
                    start + 1 <= self.position <= len,
                    digits_end(bytes, self.position as int) == digits_end(bytes, start as int),
                    i == digits_value(bytes, start as int, self.position as int),
                decreases len - self.position,
            {
                let digit = self.input[self.position];
                self.position = self.position + 1;
                i = i.wrapping_mul(10).wrapping_add((digit - DIGIT_ZERO) as u64);
            }
            Some(Ok((start, Token::Int(i))))
        } else if c == COMMA {
            Some(Ok((start, Token::Comma)))
        } else if c == COLON {
            Some(Ok((start, Token::Colon)))
        } else if c == LEFT_BRACKET {
            Some(Ok((start, Token::LBracket)))
        } else if c == RIGHT_BRACKET {
            Some(Ok((start, Token::RBracket)))
        } else if c == LEFT_BRACE {
            Some(Ok((start, Token::LBrace)))
        } else if c == RIGHT_BRACE {
            Some(Ok((start, Token::RBrace)))
        } else {
            self.skip_char();
            Some(Err(start))
        }
    }
}

} // verus!
