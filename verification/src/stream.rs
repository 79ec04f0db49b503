//! The wire format seen from the writing side: what a stream is made of, and
//! the law that decoding a stream gives back what its pieces mean.

use crate::control::control_byte;
use crate::decompress::{decode, decode_from};
use crate::dictionary::{copy_back, lemma_match_is_copy_back};
use crate::error::DecompressError;
use crate::token::{header_complete, header_len, token_of, Token};
use vstd::prelude::*;

verus! {

/// One piece of a stream: a token together with the payload that it owns.
pub enum Piece {
    /// Raw bytes that go to the output as they are.
    Literal { payload: Seq<u8> },
    /// `length` bytes taken from `offset` bytes before the end of the output.
    Match { length: nat, offset: nat },
}

/// Whether the wire format has room for a piece: a literal holds 1 to 32
/// bytes, a match 3 to 264 bytes at an offset from 1 to 8192.
pub open spec fn encodable(piece: Piece) -> bool {
    match piece {
        Piece::Literal { payload } => 1 <= payload.len() <= 32,
        Piece::Match { length, offset } => 3 <= length <= 264 && 1 <= offset <= 8192,
    }
}

/// The bytes that stand for a piece in a stream: its header, and behind it
/// the payload of a literal.
pub open spec fn wire(piece: Piece) -> Seq<u8>
    recommends
        encodable(piece),
{
    match piece {
        Piece::Literal { payload } => seq![control_byte(1, payload.len() - 1)] + payload,
        Piece::Match { length, offset } => {
            let q = (offset - 1) / 256;
            let low = ((offset - 1) % 256) as u8;
            if length <= 8 {
                seq![control_byte(length as int, q), low]
            } else {
                seq![control_byte(9, q), (length - 9) as u8, low]
            }
        },
    }
}

/// The stream that holds the given pieces in order.
pub open spec fn stream(pieces: Seq<Piece>) -> Seq<u8>
    decreases pieces.len(),
{
    if pieces.len() == 0 {
        Seq::empty()
    } else {
        wire(pieces[0]) + stream(pieces.drop_first())
    }
}

/// What the pieces mean when `output` stands before them: a literal appends
/// its payload, a match grows the output by copying from behind, byte by
/// byte, and may not reach back before the first byte.
pub open spec fn unfold_from(pieces: Seq<Piece>, output: Seq<u8>) -> Result<
    Seq<u8>,
    DecompressError,
>
    decreases pieces.len(),
{
    if pieces.len() == 0 {
        Ok(output)
    } else {
        match pieces[0] {
            Piece::Literal { payload } => unfold_from(pieces.drop_first(), output + payload),
            Piece::Match { length, offset } => if offset > output.len() {
                Err(DecompressError::OffsetOutOfRange)
            } else {
                unfold_from(pieces.drop_first(), copy_back(output, length, offset))
            },
        }
    }
}

/// What a sequence of pieces means.
pub open spec fn unfold(pieces: Seq<Piece>) -> Result<Seq<u8>, DecompressError> {
    unfold_from(pieces, Seq::empty())
}

/// `data` cut into literals of 32 bytes, the last one shorter where the
/// length asks for it: the plainest way to write `data` as pieces.
pub open spec fn literals(data: Seq<u8>) -> Seq<Piece>
    decreases data.len(),
{
    if data.len() == 0 {
        Seq::empty()
    } else {
        let n: int = if data.len() < 32 {
            data.len() as int
        } else {
            32
        };
        seq![Piece::Literal { payload: data.take(n) }] + literals(data.skip(n))
    }
}

/// The bytes of a piece are read back as the header of that piece: the token
/// has its length and offset, and behind the header stand the payload and
/// whatever follows the piece.
pub proof fn lemma_wire_header(piece: Piece, tail: Seq<u8>)
    requires
        encodable(piece),
    ensures
        ({
            let input = wire(piece) + tail;
            let rest = input.skip(header_len(input[0]) as int);
            &&& header_complete(input)
            &&& match piece {
                Piece::Literal { payload } => {
                    &&& token_of(input) == Token::Literal { length: payload.len() }
                    &&& rest == payload + tail
                },
                Piece::Match { length, offset } => {
                    &&& token_of(input) == Token::Match { length, offset }
                    &&& rest == tail
                },
            }
        }),
{
    let input = wire(piece) + tail;
    let rest = input.skip(header_len(input[0]) as int);
    match piece {
        Piece::Literal { payload } => {
            assert(rest =~= payload + tail);
        },
        Piece::Match { length, offset } => {
            assert(rest =~= tail);
        },
    }
}

/// Decoding a stream that starts with a piece does what the piece means and
/// goes on behind it.
pub proof fn lemma_decode_piece(piece: Piece, tail: Seq<u8>, output: Seq<u8>)
    requires
        encodable(piece),
    ensures
        decode_from(wire(piece) + tail, output) == match piece {
            Piece::Literal { payload } => decode_from(tail, output + payload),
            Piece::Match { length, offset } => if offset > output.len() {
                Err(DecompressError::OffsetOutOfRange)
            } else {
                decode_from(tail, copy_back(output, length, offset))
            },
        },
{
    lemma_wire_header(piece, tail);
    match piece {
        Piece::Literal { payload } => {
            let rest = payload + tail;
            assert(rest.take(payload.len() as int) =~= payload);
            assert(rest.skip(payload.len() as int) =~= tail);
        },
        Piece::Match { length, offset } => {
            if offset <= output.len() {
                lemma_match_is_copy_back(output, length, offset);
            }
        },
    }
}

/// Decoding the stream of a sequence of pieces gives what the pieces mean,
/// whatever stands in the output before them.
pub proof fn lemma_decode_stream(pieces: Seq<Piece>, output: Seq<u8>)
    requires
        forall|i: int| 0 <= i < pieces.len() ==> encodable(#[trigger] pieces[i]),
    ensures
        decode_from(stream(pieces), output) == unfold_from(pieces, output),
    decreases pieces.len(),
{
    if pieces.len() > 0 {
        let first = pieces[0];
        let others = pieces.drop_first();
        assert forall|i: int| 0 <= i < others.len() implies encodable(#[trigger] others[i]) by {
            assert(others[i] == pieces[i + 1]);
        }
        lemma_decode_piece(first, stream(others), output);
        match first {
            Piece::Literal { payload } => {
                lemma_decode_stream(others, output + payload);
            },
            Piece::Match { length, offset } => {
                if offset <= output.len() {
                    lemma_decode_stream(others, copy_back(output, length, offset));
                }
            },
        }
    }
}

/// The round trip: when an encoder turns `data` into pieces that the wire
/// format has room for and that mean `data`, decoding their stream gives
/// `data` back.
pub proof fn lemma_round_trip(data: Seq<u8>, pieces: Seq<Piece>)
    requires
        forall|i: int| 0 <= i < pieces.len() ==> encodable(#[trigger] pieces[i]),
        unfold(pieces) == Ok::<Seq<u8>, DecompressError>(data),
    ensures
        decode(stream(pieces)) == Ok::<Seq<u8>, DecompressError>(data),
{
    lemma_decode_stream(pieces, Seq::empty());
}

/// Cutting `data` into literals gives pieces that the wire format has room
/// for and that mean `data`.
pub proof fn lemma_literals_mean_data(data: Seq<u8>, output: Seq<u8>)
    ensures
        forall|i: int| 0 <= i < literals(data).len() ==> encodable(#[trigger] literals(data)[i]),
        unfold_from(literals(data), output) == Ok::<Seq<u8>, DecompressError>(output + data),
    decreases data.len(),
{
    if data.len() == 0 {
        assert(output + data =~= output);
    } else {
        let n: int = if data.len() < 32 {
            data.len() as int
        } else {
            32
        };
        let first = Piece::Literal { payload: data.take(n) };
        let others = literals(data.skip(n));
        let pieces = literals(data);
        lemma_literals_mean_data(data.skip(n), output + data.take(n));
        assert(pieces.drop_first() =~= others);
        assert((output + data.take(n)) + data.skip(n) =~= output + data);
        assert forall|i: int| 0 <= i < pieces.len() implies encodable(#[trigger] pieces[i]) by {
            if i > 0 {
                assert(pieces[i] == others[i - 1]);
            }
        }
    }
}

/// Every byte sequence is what some stream decodes to.
pub proof fn lemma_every_output_has_a_stream(data: Seq<u8>)
    ensures
        decode(stream(literals(data))) == Ok::<Seq<u8>, DecompressError>(data),
{
    lemma_literals_mean_data(data, Seq::empty());
    assert(Seq::<u8>::empty() + data =~= data);
    lemma_round_trip(data, literals(data));
}

} // verus!
