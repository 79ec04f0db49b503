//! Decoder for an LZ77-family compressed byte stream.
//!
//! A stream is a sequence of tokens. Each token starts with a control byte
//! whose three high bits select a category and whose five low bits carry a
//! partial value `q`. A literal token is followed by raw payload bytes that are
//! copied to the output; a match token names a run of bytes that already
//! stands in the output, counted back from its end.

pub mod control;
pub mod decompress;
pub mod dictionary;
pub mod error;
pub mod reader;
pub mod stream;
pub mod token;

pub use control::{cb_mask, q_mask};
pub use decompress::decompress;
pub use dictionary::fetch_offset;
pub use error::DecompressError;
pub use reader::{read_bytes, read_u8, ByteReader};
pub use token::{get_control_bytes, Offset, Token};
