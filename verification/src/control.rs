//! Classification of control bytes.

use vstd::prelude::*;

verus! {

/// The category code that the three high bits of a control byte select.
///
/// Code 1 is a literal run. Codes 3 to 8 are matches of that length with one
/// format byte. Code 9 is a long match with two format bytes. No byte selects
/// code 2.
pub open spec fn category(cb: u8) -> int {
    if cb < 32 {
        1
    } else {
        cb / 32 + 2
    }
}

/// The partial value `q` that the five low bits of a control byte carry.
pub open spec fn q_value(cb: u8) -> int {
    cb as int % 32
}

/// The low-bit mask that a control byte of the given category fits under:
/// every bit of the byte that the mask leaves clear is zero.
pub open spec fn category_mask(code: int) -> u8 {
    if code == 1 {
        0b0001_1111
    } else if code == 3 {
        0b0011_1111
    } else if code == 4 {
        0b0101_1111
    } else if code == 5 {
        0b0111_1111
    } else if code == 6 {
        0b1001_1111
    } else if code == 7 {
        0b1011_1111
    } else if code == 8 {
        0b1101_1111
    } else {
        0b1111_1111
    }
}

/// Whether `code` is one of the eight category codes.
pub open spec fn is_category(code: int) -> bool {
    code == 1 || 3 <= code <= 9
}

/// The control byte of category `code` that carries the partial value `q`.
pub open spec fn control_byte(code: int, q: int) -> u8
    recommends
        is_category(code),
        0 <= q <= 31,
{
    if code == 1 {
        q as u8
    } else {
        (32 * (code - 2) + q) as u8
    }
}

/// Whether a control byte fits under the mask of the given category.
pub open spec fn fits(cb: u8, code: int) -> bool {
    cb | category_mask(code) == category_mask(code)
}

proof fn lemma_masks(cb: u8)
    by (bit_vector)
    ensures
        (cb | 0b0001_1111 == 0b0001_1111) <==> cb / 32 == 0,
        (cb | 0b0011_1111 == 0b0011_1111) <==> cb / 32 <= 1,
        (cb | 0b0101_1111 == 0b0101_1111) <==> (cb / 32 == 0 || cb / 32 == 2),
        (cb | 0b0111_1111 == 0b0111_1111) <==> cb / 32 <= 3,
        (cb | 0b1001_1111 == 0b1001_1111) <==> (cb / 32 == 0 || cb / 32 == 4),
        (cb | 0b1011_1111 == 0b1011_1111) <==> (cb / 32 <= 1 || cb / 32 == 4 || cb / 32 == 5),
        (cb | 0b1101_1111 == 0b1101_1111) <==> (cb / 32 == 0 || cb / 32 == 2 || cb / 32 == 4 || cb
            / 32 == 6),
        cb | 0b1111_1111 == 0b1111_1111,
        cb & 0b0001_1111 == cb % 32,
{
}

/// The category code of a control byte.
///
/// The masks are probed in the order of the codes 1, 3, 4, 5, 6, 7, 8, 9 and
/// the first that the byte fits under decides.
pub fn cb_mask(i: u8) -> (code: u8)
    ensures
        code == category(i),
        is_category(code as int),
{
    proof {
        lemma_masks(i);
    }
    if i | 0b0001_1111 == 0b0001_1111 {
        return 1;
    }
    if i | 0b0011_1111 == 0b0011_1111 {
        return 3;
    }
    if i | 0b0101_1111 == 0b0101_1111 {
        return 4;
    }
    if i | 0b0111_1111 == 0b0111_1111 {
        return 5;
    }
    if i | 0b1001_1111 == 0b1001_1111 {
        return 6;
    }
    if i | 0b1011_1111 == 0b1011_1111 {
        return 7;
    }
    if i | 0b1101_1111 == 0b1101_1111 {
        return 8;
    }
    9
}

/// The partial value `q` of a control byte: its five low bits.
pub fn q_mask(i: u8) -> (q: u8)
    ensures
        q == q_value(i),
        q <= 31,
{
    proof {
        lemma_masks(i);
    }
    i & 0b0001_1111
}

/// Every control byte has a category, and that category is the first, in the
/// order of the codes, whose mask the byte fits under.
pub proof fn lemma_category_is_first_fit(cb: u8)
    ensures
        is_category(category(cb)),
        fits(cb, category(cb)),
        forall|code: int| is_category(code) && code < category(cb) ==> !fits(cb, code),
{
    lemma_masks(cb);
}

/// A control byte is made of its category and its partial value, and of
/// nothing else: the two can be chosen freely and read back.
pub proof fn lemma_control_byte_fields(code: int, q: int)
    requires
        is_category(code),
        0 <= q <= 31,
    ensures
        category(control_byte(code, q)) == code,
        q_value(control_byte(code, q)) == q,
{
}

/// Putting the category and the partial value of a control byte together
/// again gives the byte.
pub proof fn lemma_control_byte_of_fields(cb: u8)
    ensures
        control_byte(category(cb), q_value(cb)) == cb,
{
}

} // verus!
