use lz77::{decompress, DecompressError};

/// One piece of a stream, as an encoder would lay it down.
enum Piece {
    Literal(Vec<u8>),
    Match { length: usize, offset: usize },
}

/// The wire bytes of the pieces.
fn wire(pieces: &[Piece]) -> Vec<u8> {
    let mut bytes = Vec::new();
    for piece in pieces {
        match piece {
            Piece::Literal(payload) => {
                assert!(1 <= payload.len() && payload.len() <= 32);
                bytes.push((payload.len() - 1) as u8);
                bytes.extend_from_slice(payload);
            }
            Piece::Match { length, offset } => {
                assert!(3 <= *length && *length <= 264);
                assert!(1 <= *offset && *offset <= 8192);
                let q = ((offset - 1) / 256) as u8;
                let low = ((offset - 1) % 256) as u8;
                if *length <= 8 {
                    bytes.push(((*length as u8 - 2) << 5) | q);
                    bytes.push(low);
                } else {
                    bytes.push(0xE0 | q);
                    bytes.push((*length - 9) as u8);
                    bytes.push(low);
                }
            }
        }
    }
    bytes
}

/// What the pieces mean: literals are appended, matches copy byte by byte
/// from behind.
fn unfold(pieces: &[Piece]) -> Result<Vec<u8>, DecompressError> {
    let mut output: Vec<u8> = Vec::new();
    for piece in pieces {
        match piece {
            Piece::Literal(payload) => output.extend_from_slice(payload),
            Piece::Match { length, offset } => {
                if *offset > output.len() {
                    return Err(DecompressError::OffsetOutOfRange);
                }
                for _ in 0..*length {
                    let byte = output[output.len() - offset];
                    output.push(byte);
                }
            }
        }
    }
    Ok(output)
}

/// A small generator of numbers that repeats from run to run.
fn next(state: &mut u32) -> u32 {
    *state = state.wrapping_mul(1664525).wrapping_add(1013904223);
    *state >> 8
}

#[test]
fn stream_of_pieces_decodes_to_what_they_mean() {
    let pieces = vec![
        Piece::Literal(b"abracadabra".to_vec()),
        Piece::Match {
            length: 4,
            offset: 7,
        },
        Piece::Match {
            length: 30,
            offset: 3,
        },
        Piece::Literal(vec![0u8]),
        Piece::Match {
            length: 264,
            offset: 1,
        },
        Piece::Match {
            length: 8,
            offset: 300,
        },
    ];
    let expected = unfold(&pieces);
    assert!(expected.is_ok());
    assert_eq!(decompress(&wire(&pieces)), expected);
    assert_eq!(expected.unwrap().len(), 11 + 4 + 30 + 1 + 264 + 8);
}

#[test]
fn stream_with_a_match_out_of_range_fails_as_its_pieces_do() {
    let pieces = vec![
        Piece::Literal(b"abc".to_vec()),
        Piece::Match {
            length: 3,
            offset: 3,
        },
        Piece::Match {
            length: 9,
            offset: 7,
        },
        Piece::Literal(b"never".to_vec()),
    ];
    assert_eq!(unfold(&pieces), Err(DecompressError::OffsetOutOfRange));
    assert_eq!(
        decompress(&wire(&pieces)),
        Err(DecompressError::OffsetOutOfRange)
    );
}

#[test]
fn generated_streams_decode_to_what_their_pieces_mean() {
    let mut state = 0x2545_F491u32;
    for _ in 0..200 {
        let mut pieces = Vec::new();
        let mut produced = 0usize;
        let count = 1 + next(&mut state) % 40;
        for _ in 0..count {
            if produced == 0 || next(&mut state) % 3 == 0 {
                let len = 1 + (next(&mut state) % 32) as usize;
                let payload: Vec<u8> = (0..len).map(|_| next(&mut state) as u8).collect();
                produced += len;
                pieces.push(Piece::Literal(payload));
            } else {
                let length = 3 + (next(&mut state) % 262) as usize;
                let reach = produced.min(8192);
                let offset = 1 + (next(&mut state) as usize) % reach;
                produced += length;
                pieces.push(Piece::Match { length, offset });
            }
        }
        let expected = unfold(&pieces).unwrap();
        assert_eq!(expected.len(), produced);
        assert_eq!(decompress(&wire(&pieces)), Ok(expected));
    }
}

#[test]
fn data_written_as_literals_comes_back() {
    let mut state = 7u32;
    for len in [0usize, 1, 31, 32, 33, 64, 65, 1000] {
        let data: Vec<u8> = (0..len).map(|_| next(&mut state) as u8).collect();
        let pieces: Vec<Piece> = data.chunks(32).map(|c| Piece::Literal(c.to_vec())).collect();
        assert_eq!(decompress(&wire(&pieces)), Ok(data));
    }
}

#[test]
fn every_prefix_of_a_stream_decodes_or_is_truncated() {
    let pieces = vec![
        Piece::Literal(b"hello, ".to_vec()),
        Piece::Match {
            length: 5,
            offset: 7,
        },
        Piece::Match {
            length: 12,
            offset: 2,
        },
        Piece::Literal(b"!".to_vec()),
    ];
    let bytes = wire(&pieces);
    // Token boundaries: a prefix that ends on one decodes; any other is cut
    // inside a header or inside a literal.
    let boundaries = [0usize, 8, 10, 13, 15];
    for cut in 0..=bytes.len() {
        let got = decompress(&bytes[..cut]);
        if boundaries.contains(&cut) {
            let whole = boundaries.iter().position(|b| *b == cut).unwrap();
            assert_eq!(got, unfold(&pieces[..whole]));
        } else if cut < 8 || cut == 14 {
            assert_eq!(got, Err(DecompressError::TruncatedLiteral));
        } else {
            assert_eq!(got, Err(DecompressError::TruncatedToken));
        }
    }
}
