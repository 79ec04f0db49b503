//! Tokens and the reader that takes one token header from the input.

use crate::control::{category, cb_mask, control_byte, q_mask, q_value};
use crate::error::DecompressError;
use crate::reader::{read_u8, ByteReader};
use vstd::prelude::*;

verus! {

/// What a token header announces.
#[derive(Debug, Clone, Copy, PartialEq, Eq, Structural)]
pub enum Offset {
    /// A run of `length` raw bytes that follow the header in the input.
    Literal { length: usize },
    /// A run of `length` bytes that starts `offset` bytes before the end of
    /// the output decoded so far.
    Dictionary { length: usize, offset: usize },
}

/// A token with unbounded fields, as contracts speak of it.
pub enum Token {
    /// A run of `length` raw bytes.
    Literal { length: nat },
    /// A run of `length` bytes from `offset` bytes back in the output.
    Match { length: nat, offset: nat },
}

impl View for Offset {
    type V = Token;

    open spec fn view(&self) -> Token {
        match *self {
            Offset::Literal { length } => Token::Literal { length: length as nat },
            Offset::Dictionary { length, offset } => Token::Match {
                length: length as nat,
                offset: offset as nat,
            },
        }
    }
}

/// The number of bytes in the header that a control byte opens: the control
/// byte itself and the format bytes of its category.
pub open spec fn header_len(cb: u8) -> nat {
    if category(cb) == 1 {
        1
    } else if category(cb) <= 8 {
        2
    } else {
        3
    }
}

/// Whether `input` starts with a whole token header.
pub open spec fn header_complete(input: Seq<u8>) -> bool {
    input.len() > 0 && input.len() >= header_len(input[0])
}

/// The token that the header at the start of `input` announces.
///
/// With `q` the partial value of the control byte and `r`, `s` the format
/// bytes: category 1 is a literal of `1 + q` bytes; categories 3 to 8 are
/// matches of as many bytes as the category's code, at offset
/// `256 * q + r + 1`; category 9 is a match of `9 + r` bytes at offset
/// `256 * q + s + 1`.
pub open spec fn token_of(input: Seq<u8>) -> Token
    recommends
        header_complete(input),
{
    let code = category(input[0]);
    let q = q_value(input[0]);
    if code == 1 {
        Token::Literal { length: (1 + q) as nat }
    } else if code <= 8 {
        Token::Match { length: code as nat, offset: (256 * q + input[1] + 1) as nat }
    } else {
        Token::Match { length: (9 + input[1]) as nat, offset: (256 * q + input[2] + 1) as nat }
    }
}

proof fn lemma_shift(q: usize)
    by (bit_vector)
    requires
        q <= 31,
    ensures
        q << 8 == q * 256,
{
}

/// Reads the header of the next token.
///
/// At the end of the input there is no token, which is no failure. An input
/// that ends inside a header is truncated; the reader is then exhausted. The
/// payload of a literal is left in the reader.
pub fn get_control_bytes(reader: &mut ByteReader) -> (res: Result<Option<Offset>, DecompressError>)
    ensures
        match res {
            Ok(Some(token)) => header_complete(old(reader)@) && token@ == token_of(old(reader)@)
                && final(reader)@ == old(reader)@.skip(header_len(old(reader)@[0]) as int),
            Ok(None) => old(reader)@.len() == 0 && final(reader)@ == old(reader)@,
            Err(e) => e == DecompressError::TruncatedToken && old(reader)@.len() > 0
                && !header_complete(old(reader)@) && final(reader)@.len() == 0,
        },
{
    let cb = match read_u8(reader) {
        Some(cb) => cb,
        None => {
            return Ok(None);
        },
    };
    let q = q_mask(cb) as usize;
    let code = cb_mask(cb) as usize;
    proof {
        lemma_shift(q);
    }
    if code == 1 {
        Ok(Some(Offset::Literal { length: 1 + q }))
    } else if 3 <= code && code <= 8 {
        let r = match read_u8(reader) {
            Some(r) => r,
            None => {
                return Err(DecompressError::TruncatedToken);
            },
        };
        Ok(Some(Offset::Dictionary { length: code, offset: (q << 8) + r as usize + 1 }))
    } else if code == 9 {
        let r = match read_u8(reader) {
            Some(r) => r,
            None => {
                return Err(DecompressError::TruncatedToken);
            },
        };
        let s = match read_u8(reader) {
            Some(s) => s,
            None => {
                return Err(DecompressError::TruncatedToken);
            },
        };
        Ok(Some(Offset::Dictionary { length: 9 + r as usize, offset: (q << 8) + s as usize + 1 }))
    } else {
        // `cb_mask` gives one of the eight codes, so no control byte comes here.
        Err(DecompressError::MalformedControlByte)
    }
}

/// A control byte of category 1 that carries `q` is a whole header and
/// announces a literal of `q + 1` bytes.
pub proof fn lemma_literal_header(q: int, tail: Seq<u8>)
    requires
        0 <= q <= 31,
    ensures
        ({
            let input = seq![control_byte(1, q)] + tail;
            &&& header_complete(input)
            &&& header_len(input[0]) == 1
            &&& token_of(input) == Token::Literal { length: (q + 1) as nat }
        }),
{
}

/// A control byte of a category from 3 to 8 that carries `q`, with the format
/// byte `r` behind it, is a whole header and announces a match of as many
/// bytes as the category's code, at offset `256 * q + r + 1`.
pub proof fn lemma_short_match_header(code: int, q: int, r: u8, tail: Seq<u8>)
    requires
        3 <= code <= 8,
        0 <= q <= 31,
    ensures
        ({
            let input = seq![control_byte(code, q), r] + tail;
            &&& header_complete(input)
            &&& header_len(input[0]) == 2
            &&& token_of(input) == Token::Match {
                length: code as nat,
                offset: (256 * q + r + 1) as nat,
            }
        }),
{
}

/// A control byte of category 9 that carries `q`, with the format bytes `r`
/// and `s` behind it, is a whole header and announces a match of `9 + r`
/// bytes at offset `256 * q + s + 1`.
pub proof fn lemma_long_match_header(q: int, r: u8, s: u8, tail: Seq<u8>)
    requires
        0 <= q <= 31,
    ensures
        ({
            let input = seq![control_byte(9, q), r, s] + tail;
            &&& header_complete(input)
            &&& header_len(input[0]) == 3
            &&& token_of(input) == Token::Match {
                length: (9 + r) as nat,
                offset: (256 * q + s + 1) as nat,
            }
        }),
{
}

/// The fields of every token that a header can announce are small: a literal
/// has 1 to 32 bytes, a match 3 to 264 bytes at an offset from 1 to 8192.
pub proof fn lemma_token_bounds(input: Seq<u8>)
    requires
        header_complete(input),
    ensures
        match token_of(input) {
            Token::Literal { length } => 1 <= length <= 32,
            Token::Match { length, offset } => 3 <= length <= 264 && 1 <= offset <= 8192,
        },
{
}

} // verus!
