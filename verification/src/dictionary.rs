//! Resolution of matches against the output decoded so far.

use crate::error::DecompressError;
use vstd::prelude::*;

verus! {

/// The last `offset` bytes of `buffer`: the window that a match at that
/// offset draws from.
pub open spec fn window(buffer: Seq<u8>, offset: nat) -> Seq<u8>
    recommends
        offset <= buffer.len(),
{
    buffer.subrange(buffer.len() - offset, buffer.len() as int)
}

/// The bytes that a match of `length` bytes at `offset` stands for: byte `i`
/// is the byte at `i mod offset` in the window, so a match that is longer
/// than its offset walks round the window again.
pub open spec fn resolve_match(buffer: Seq<u8>, length: nat, offset: nat) -> Seq<u8>
    recommends
        offset <= buffer.len(),
        offset > 0 || length == 0,
{
    Seq::new(length, |i: int| buffer[buffer.len() - offset + i % (offset as int)])
}

/// `window` written out `count` times in a row.
pub open spec fn repeated(window: Seq<u8>, count: nat) -> Seq<u8>
    decreases count,
{
    if count == 0 {
        Seq::empty()
    } else {
        repeated(window, (count - 1) as nat) + window
    }
}

/// `output` grown by `length` bytes, one at a time, each a copy of the byte
/// that stands `offset` places before the end at that moment.
pub open spec fn copy_back(output: Seq<u8>, length: nat, offset: nat) -> Seq<u8>
    recommends
        0 < offset <= output.len(),
    decreases length,
{
    if length == 0 {
        output
    } else {
        let grown = copy_back(output, (length - 1) as nat, offset);
        grown.push(grown[grown.len() - offset])
    }
}

/// Copies the `length` bytes of a match at `offset` out of `dictionary`.
///
/// The offset counts back from the end of the dictionary and may reach its
/// first byte, not further. A zero offset names no window and goes only with
/// a zero length.
pub fn fetch_offset(dictionary: &[u8], length: usize, offset: usize) -> (res: Result<
    Vec<u8>,
    DecompressError,
>)
    requires
        offset > 0 || length == 0,
    ensures
        match res {
            Ok(bytes) => offset <= dictionary@.len() && bytes@ == resolve_match(
                dictionary@,
                length as nat,
                offset as nat,
            ),
            Err(e) => e == DecompressError::OffsetOutOfRange && offset > dictionary@.len(),
        },
{
    if offset > dictionary.len() {
        return Err(DecompressError::OffsetOutOfRange);
    }
    let base = dictionary.len() - offset;
    let mut result: Vec<u8> = Vec::with_capacity(length);
    let mut i: usize = 0;
    while i < length
        invariant
            i <= length,
            offset > 0 || length == 0,
            offset <= dictionary@.len(),
            base + offset == dictionary.len(),
            result@ == resolve_match(dictionary@, i as nat, offset as nat),
        decreases length - i,
    {
        assert(i % offset < offset) by {
            vstd::arithmetic::div_mod::lemma_mod_bound(i as int, offset as int);
        }
        let pos = base + i % offset;
        result.push(dictionary[pos]);
        i += 1;
    }
    Ok(result)
}

/// Byte `i` of a match is byte `i mod offset` of its window.
pub proof fn lemma_match_reads_window(buffer: Seq<u8>, length: nat, offset: nat, i: int)
    requires
        0 < offset <= buffer.len(),
        0 <= i < length,
    ensures
        resolve_match(buffer, length, offset).len() == length,
        resolve_match(buffer, length, offset)[i] == window(buffer, offset)[i % (offset as int)],
{
}

/// A match that is no longer than its offset is a plain copy of the bytes
/// that start `offset` before the end of the buffer.
pub proof fn lemma_short_match_is_copy(buffer: Seq<u8>, length: nat, offset: nat)
    requires
        0 < offset <= buffer.len(),
        length <= offset,
    ensures
        resolve_match(buffer, length, offset) == buffer.subrange(
            buffer.len() - offset,
            buffer.len() - offset + length,
        ),
{
    let copy = buffer.subrange(buffer.len() - offset, buffer.len() - offset + length);
    assert forall|i: int| 0 <= i < length implies resolve_match(buffer, length, offset)[i]
        == copy[i] by {
        vstd::arithmetic::div_mod::lemma_small_mod(i as nat, offset);
    }
    assert(resolve_match(buffer, length, offset) =~= copy);
}

/// `window` written out `count` times has `count` times its length, and its
/// byte `i` is byte `i mod window.len()` of `window`.
pub proof fn lemma_repeated_index(window: Seq<u8>, count: nat, i: int)
    requires
        window.len() > 0,
        0 <= i < count * window.len(),
    ensures
        repeated(window, count).len() == count * window.len(),
        repeated(window, count)[i] == window[i % (window.len() as int)],
    decreases count,
{
    lemma_repeated_len(window, count);
    let n = window.len() as int;
    let before = (count - 1) * n;
    assert(count * n == before + n) by (nonlinear_arith)
        requires
            before == (count - 1) * n,
    ;
    lemma_repeated_len(window, (count - 1) as nat);
    if i < before {
        lemma_repeated_index(window, (count - 1) as nat, i);
    } else {
        vstd::arithmetic::div_mod::lemma_fundamental_div_mod_converse(
            i,
            n,
            count - 1,
            i - before,
        );
    }
}

/// `window` written out `count` times has `count` times its length.
pub proof fn lemma_repeated_len(window: Seq<u8>, count: nat)
    ensures
        repeated(window, count).len() == count * window.len(),
    decreases count,
{
    let n = window.len() as int;
    if count == 0 {
        assert(0 * n == 0);
    } else {
        lemma_repeated_len(window, (count - 1) as nat);
        assert(count * n == (count - 1) * n + n) by (nonlinear_arith);
    }
}

/// The wrap law: a match is its window written out over and over, cut off
/// after `length` bytes. Any number of repetitions that is long enough gives
/// the same bytes.
pub proof fn lemma_match_is_repeated_window(buffer: Seq<u8>, length: nat, offset: nat, count: nat)
    requires
        0 < offset <= buffer.len(),
        length <= count * offset,
    ensures
        resolve_match(buffer, length, offset) == repeated(window(buffer, offset), count).take(
            length as int,
        ),
{
    let w = window(buffer, offset);
    lemma_repeated_len(w, count);
    let wrapped = repeated(w, count).take(length as int);
    assert forall|i: int| 0 <= i < length implies resolve_match(buffer, length, offset)[i]
        == wrapped[i] by {
        lemma_repeated_index(w, count, i);
        vstd::arithmetic::div_mod::lemma_mod_bound(i, offset as int);
    }
    assert(resolve_match(buffer, length, offset) =~= wrapped);
}

/// Appending a match to the buffer is the same as growing the buffer byte by
/// byte, each new byte a copy of the one `offset` places back.
pub proof fn lemma_match_is_copy_back(buffer: Seq<u8>, length: nat, offset: nat)
    requires
        0 < offset <= buffer.len(),
    ensures
        copy_back(buffer, length, offset) == buffer + resolve_match(buffer, length, offset),
    decreases length,
{
    if length == 0 {
        assert(buffer + resolve_match(buffer, 0, offset) =~= buffer);
    } else {
        let shorter = (length - 1) as nat;
        lemma_match_is_copy_back(buffer, shorter, offset);
        let grown = buffer + resolve_match(buffer, shorter, offset);
        let d = offset as int;
        if shorter >= offset {
            vstd::arithmetic::div_mod::lemma_mod_sub_multiples_vanish(shorter as int, d);
            vstd::arithmetic::div_mod::lemma_mod_bound(shorter - d, d);
        } else {
            vstd::arithmetic::div_mod::lemma_small_mod(shorter, offset);
        }
        assert(grown[grown.len() - offset] == buffer[buffer.len() - offset + (shorter as int) % d]);
        assert(grown.push(grown[grown.len() - offset]) =~= buffer + resolve_match(
            buffer,
            length,
            offset,
        ));
    }
}

} // verus!
