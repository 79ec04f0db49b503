//! The decode loop.

use crate::dictionary::{fetch_offset, resolve_match};
use crate::error::DecompressError;
use crate::reader::{read_bytes, ByteReader};
use crate::token::{get_control_bytes, header_complete, header_len, token_of, Offset, Token};
use vstd::prelude::*;

verus! {

/// What decoding `input` gives when `output` has been decoded before it.
///
/// An empty input ends the decoding with the output as it stands. An input
/// that ends inside a header fails. Otherwise the input starts with a token.
/// A literal moves its payload from the input to the end of the output, and
/// fails where the input is too short for it. A match appends the bytes
/// that it stands for in the output so far, and fails where it reaches back
/// before the first byte. Decoding then goes on behind the token; a failure
/// is final.
pub open spec fn decode_from(input: Seq<u8>, output: Seq<u8>) -> Result<Seq<u8>, DecompressError>
    decreases input.len(),
{
    if input.len() == 0 {
        Ok(output)
    } else if !header_complete(input) {
        Err(DecompressError::TruncatedToken)
    } else {
        let rest = input.skip(header_len(input[0]) as int);
        match token_of(input) {
            Token::Literal { length } => if length > rest.len() {
                Err(DecompressError::TruncatedLiteral)
            } else {
                decode_from(rest.skip(length as int), output + rest.take(length as int))
            },
            Token::Match { length, offset } => if offset > output.len() {
                Err(DecompressError::OffsetOutOfRange)
            } else {
                decode_from(rest, output + resolve_match(output, length, offset))
            },
        }
    }
}

/// What a whole stream decodes to.
pub open spec fn decode(input: Seq<u8>) -> Result<Seq<u8>, DecompressError> {
    decode_from(input, Seq::empty())
}

/// The sum of the lengths that the tokens of `input` announce, up to the
/// end of the input or to the first token that the input ends in.
pub open spec fn announced_length(input: Seq<u8>) -> nat
    decreases input.len(),
{
    if !header_complete(input) {
        0
    } else {
        let rest = input.skip(header_len(input[0]) as int);
        match token_of(input) {
            Token::Literal { length } => if length > rest.len() {
                0
            } else {
                length + announced_length(rest.skip(length as int))
            },
            Token::Match { length, offset } => length + announced_length(rest),
        }
    }
}

/// The outcome of a decoding as contracts speak of it: the bytes in place of
/// the vector that holds them.
pub open spec fn outcome(res: Result<Vec<u8>, DecompressError>) -> Result<
    Seq<u8>,
    DecompressError,
> {
    match res {
        Ok(bytes) => Ok(bytes@),
        Err(e) => Err(e),
    }
}

/// Decodes a compressed stream.
///
/// Returns the decoded bytes, or the reason why the stream is not one: a
/// header or a literal that the input ends in, or a match that reaches back
/// before the first decoded byte.
pub fn decompress(input: &[u8]) -> (res: Result<Vec<u8>, DecompressError>)
    ensures
        outcome(res) == decode(input@),
{
    let mut reader = ByteReader::new(input);
    let mut dictionary: Vec<u8> = Vec::new();
    loop
        invariant
            decode_from(reader@, dictionary@) == decode(input@),
        decreases reader@.len(),
    {
        match get_control_bytes(&mut reader) {
            Ok(Some(token)) => {
                match token {
                    Offset::Dictionary { length, offset } => {
                        match fetch_offset(dictionary.as_slice(), length, offset) {
                            Ok(mut dict) => {
                                dictionary.append(&mut dict);
                            },
                            Err(e) => {
                                return Err(e);
                            },
                        }
                    },
                    Offset::Literal { length } => {
                        match read_bytes(&mut reader, length) {
                            Some(mut bytes) => {
                                dictionary.append(&mut bytes);
                            },
                            None => {
                                return Err(DecompressError::TruncatedLiteral);
                            },
                        }
                    },
                }
            },
            Ok(None) => {
                return Ok(dictionary);
            },
            Err(e) => {
                return Err(e);
            },
        }
    }
}

/// Decoding only ever appends: what stood in the output stays at the start
/// of the result, and the result is longer by the sum of the lengths of all
/// the tokens.
pub proof fn lemma_decode_appends(input: Seq<u8>, output: Seq<u8>)
    ensures
        decode_from(input, output) matches Ok(bytes) ==> output.is_prefix_of(bytes) && bytes.len()
            == output.len() + announced_length(input),
    decreases input.len(),
{
    if header_complete(input) {
        let rest = input.skip(header_len(input[0]) as int);
        match token_of(input) {
            Token::Literal { length } => {
                if length <= rest.len() {
                    lemma_decode_appends(rest.skip(length as int), output + rest.take(length as int));
                }
            },
            Token::Match { length, offset } => {
                if offset <= output.len() {
                    lemma_decode_appends(rest, output + resolve_match(output, length, offset));
                }
            },
        }
    }
}

/// The length of a decoded stream is the sum of the lengths of its tokens.
pub proof fn lemma_decoded_length(input: Seq<u8>)
    ensures
        decode(input) matches Ok(bytes) ==> bytes.len() == announced_length(input),
{
    lemma_decode_appends(input, Seq::empty());
}

/// No input makes the decoding fail over a malformed control byte: every
/// control byte has a category.
pub proof fn lemma_decode_never_malformed(input: Seq<u8>, output: Seq<u8>)
    ensures
        decode_from(input, output) != Err::<Seq<u8>, DecompressError>(
            DecompressError::MalformedControlByte,
        ),
    decreases input.len(),
{
    if header_complete(input) {
        let rest = input.skip(header_len(input[0]) as int);
        match token_of(input) {
            Token::Literal { length } => {
                if length <= rest.len() {
                    lemma_decode_never_malformed(
                        rest.skip(length as int),
                        output + rest.take(length as int),
                    );
                }
            },
            Token::Match { length, offset } => {
                if offset <= output.len() {
                    lemma_decode_never_malformed(
                        rest,
                        output + resolve_match(output, length, offset),
                    );
                }
            },
        }
    }
}

} // verus!
