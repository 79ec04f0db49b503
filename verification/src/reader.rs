//! A byte source over a slice that is consumed from the front.

use vstd::prelude::*;
use vstd::slice::slice_subrange;

verus! {

/// The part of an input that has not been read yet.
pub struct ByteReader<'a> {
    rest: &'a [u8],
}

impl<'a> View for ByteReader<'a> {
    type V = Seq<u8>;

    /// The bytes that are still to be read, in order.
    closed spec fn view(&self) -> Seq<u8> {
        self.rest@
    }
}

impl<'a> ByteReader<'a> {
    /// A reader positioned at the first byte of `data`.
    pub fn new(data: &'a [u8]) -> (reader: Self)
        ensures
            reader@ == data@,
    {
        ByteReader { rest: data }
    }

    /// The number of bytes that are still to be read.
    pub fn remaining(&self) -> (n: usize)
        ensures
            n == self@.len(),
    {
        self.rest.len()
    }
}

/// Takes the next byte, or `None` at the end of the input.
pub fn read_u8(reader: &mut ByteReader) -> (byte: Option<u8>)
    ensures
        match byte {
            Some(b) => old(reader)@.len() > 0 && b == old(reader)@[0] && final(reader)@ == old(
                reader,
            )@.skip(1),
            None => old(reader)@.len() == 0 && final(reader)@ == old(reader)@,
        },
{
    if reader.rest.len() == 0 {
        return None;
    }
    let b = reader.rest[0];
    reader.rest = slice_subrange(reader.rest, 1, reader.rest.len());
    Some(b)
}

/// Takes the next `bytes` bytes, or `None` when fewer are left; the reader
/// then stays where it was.
pub fn read_bytes(reader: &mut ByteReader, bytes: usize) -> (chunk: Option<Vec<u8>>)
    ensures
        match chunk {
            Some(buf) => bytes <= old(reader)@.len() && buf@ == old(reader)@.take(bytes as int)
                && final(reader)@ == old(reader)@.skip(bytes as int),
            None => bytes > old(reader)@.len() && final(reader)@ == old(reader)@,
        },
{
    if bytes > reader.rest.len() {
        return None;
    }
    let mut buf: Vec<u8> = Vec::with_capacity(bytes);
    let mut i: usize = 0;
    while i < bytes
        invariant
            i <= bytes <= reader.rest@.len(),
            buf@ == reader.rest@.take(i as int),
        decreases bytes - i,
    {
        buf.push(reader.rest[i]);
        i += 1;
    }
    reader.rest = slice_subrange(reader.rest, bytes, reader.rest.len());
    Some(buf)
}

} // verus!
