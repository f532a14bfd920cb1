//! Facts about the bit layout of a packed board: a column occupies one
//! byte of a `u64` (six playable rows and two guard bits), row `r` of
//! column `c` is bit `8 * c + r`.
use vstd::prelude::*;

verus! {

/// Bit `p` of `x` is set.
pub open spec fn has_bit(x: u64, p: u64) -> bool {
    (x >> p) & 1u64 == 1u64
}

/// The byte that holds column `c`.
pub open spec fn col_byte(x: u64, c: u64) -> u64 {
    (x >> ((8 * c) as u64)) & 0xffu64
}

/// The byte of a column filled up to height `h`: the `h` low bits set.
pub open spec fn stack_byte(h: u64) -> u64 {
    ((1u64 << h) - 1) as u64
}

/// Bit `r` of a column's byte is the bit of that cell in the whole word.
pub proof fn lemma_col_bit(x: u64, c: u64, r: u64)
    requires
        c < 8,
        r < 8,
    ensures
        has_bit(col_byte(x, c), r) == has_bit(x, (8 * c + r) as u64),
{
    assert(((x >> ((8 * c) as u64)) & 0xffu64) >> r & 1u64 == (x >> ((8 * c + r) as u64)) & 1u64)
        by (bit_vector)
        requires
            c < 8,
            r < 8,
    ;
}

/// A column filled to height `h` holds exactly the rows below `h`.
pub proof fn lemma_stack_bit(h: u64, r: u64)
    requires
        h <= 8,
        r < 64,
    ensures
        has_bit(stack_byte(h), r) == (r < h),
{
    assert((((1u64 << h) - 1) as u64 >> r) & 1u64 == 1u64 <==> r < h) by (bit_vector)
        requires
            h <= 8,
            r < 64,
    ;
}


/// The column bytes that a filled-from-the-bottom column can have.
pub open spec fn is_stack_byte(v: u64) -> bool {
    v == 0 || v == 1 || v == 3 || v == 7 || v == 15 || v == 31 || v == 63
}

/// How many discs a column byte holds, for a byte of `is_stack_byte`.
pub open spec fn byte_height(v: u64) -> u64 {
    if v == 0 {
        0
    } else if v == 1 {
        1
    } else if v == 3 {
        2
    } else if v == 7 {
        3
    } else if v == 15 {
        4
    } else if v == 31 {
        5
    } else {
        6
    }
}

pub proof fn lemma_stack_byte_height(v: u64)
    requires
        is_stack_byte(v),
    ensures
        byte_height(v) <= 6,
        v == stack_byte(byte_height(v)),
{
    assert(is_stack_byte(v) ==> byte_height(v) <= 6 && v == stack_byte(byte_height(v)))
        by (bit_vector);
}

pub proof fn lemma_height_stack_byte(h: u64)
    requires
        h <= 6,
    ensures
        is_stack_byte(stack_byte(h)),
        byte_height(stack_byte(h)) == h,
{
    assert(h <= 6 ==> is_stack_byte(stack_byte(h)) && byte_height(stack_byte(h)) == h)
        by (bit_vector);
}

/// Set bits of a union, an intersection, and of disjoint words.
pub proof fn lemma_bit_or_and(x: u64, y: u64, p: u64)
    requires
        p < 64,
    ensures
        has_bit(x | y, p) == (has_bit(x, p) || has_bit(y, p)),
        has_bit(x & y, p) == (has_bit(x, p) && has_bit(y, p)),
        x & y == 0 ==> !(has_bit(x, p) && has_bit(y, p)),
{
    assert(has_bit(x | y, p) == (has_bit(x, p) || has_bit(y, p))) by (bit_vector)
        requires
            p < 64,
    ;
    assert(has_bit(x & y, p) == (has_bit(x, p) && has_bit(y, p))) by (bit_vector)
        requires
            p < 64,
    ;
    assert(x & y == 0 ==> !(has_bit(x, p) && has_bit(y, p))) by (bit_vector)
        requires
            p < 64,
    ;
}

/// Column bytes distribute over union and intersection.
pub proof fn lemma_col_byte_or_and(x: u64, y: u64, c: u64)
    requires
        c < 8,
    ensures
        col_byte(x | y, c) == col_byte(x, c) | col_byte(y, c),
        col_byte(x & y, c) == col_byte(x, c) & col_byte(y, c),
{
    assert(col_byte(x | y, c) == col_byte(x, c) | col_byte(y, c)
        && col_byte(x & y, c) == col_byte(x, c) & col_byte(y, c)) by (bit_vector)
        requires
            c < 8,
    ;
}

/// Adding a bit that is not yet set is a union, and sets exactly that bit.
pub proof fn lemma_add_bit(x: u64, p: u64, q: u64)
    requires
        p < 64,
        q < 64,
        !has_bit(x, p),
    ensures
        x + (1u64 << p) <= u64::MAX,
        (x + (1u64 << p)) as u64 == x | (1u64 << p),
        has_bit(x | (1u64 << p), q) == (has_bit(x, q) || p == q),
{
    assert(x + (1u64 << p) <= u64::MAX && (x + (1u64 << p)) as u64 == x | (1u64 << p))
        by (bit_vector)
        requires
            p < 64,
            !has_bit(x, p),
    ;
    assert(has_bit(x | (1u64 << p), q) == (has_bit(x, q) || p == q)) by (bit_vector)
        requires
            p < 64,
            q < 64,
    ;
}

/// The next free cell of a column of height `h` is one more than the
/// column byte, shifted to the column.
pub proof fn lemma_next_cell(h: u64, c: u64)
    requires
        h <= 6,
        c < 7,
    ensures
        stack_byte(h) + 1 <= 64,
        ((stack_byte(h) + 1) as u64) << ((c * 8) as u64) == 1u64 << ((8 * c + h) as u64),
{
    assert(stack_byte(h) + 1 <= 64 && ((stack_byte(h) + 1) as u64) << ((c * 8) as u64) == 1u64
        << ((8 * c + h) as u64)) by (bit_vector)
        requires
            h <= 6,
            c < 7,
    ;
}

/// Setting a cell changes the byte of its own column only, by that row's bit.
pub proof fn lemma_col_byte_set(x: u64, k: u64, h: u64, c: u64)
    requires
        k < 7,
        h < 8,
        c < 8,
    ensures
        col_byte(x | (1u64 << ((8 * k + h) as u64)), c) == if c == k {
            col_byte(x, c) | (1u64 << h)
        } else {
            col_byte(x, c)
        },
{
    assert(col_byte(x | (1u64 << ((8 * k + h) as u64)), c) == if c == k {
        col_byte(x, c) | (1u64 << h)
    } else {
        col_byte(x, c)
    }) by (bit_vector)
        requires
            k < 7,
            h < 8,
            c < 8,
    ;
}

/// A column grows by its next row.
pub proof fn lemma_stack_grow(h: u64)
    requires
        h < 8,
    ensures
        stack_byte(h) | (1u64 << h) == stack_byte((h + 1) as u64),
{
    assert(stack_byte(h) | (1u64 << h) == stack_byte((h + 1) as u64)) by (bit_vector)
        requires
            h < 8,
    ;
}

/// Setting a bit below the guard byte keeps the guard byte clear, and keeps
/// a word disjoint from one that does not hold that bit.
pub proof fn lemma_set_keeps(x: u64, y: u64, p: u64)
    requires
        p < 56,
        x >> 56u64 == 0,
        x & y == 0,
        !has_bit(y, p),
    ensures
        (x | (1u64 << p)) >> 56u64 == 0,
        (x | (1u64 << p)) & y == 0,
        (x | y) | (1u64 << p) == (x | (1u64 << p)) | y,
{
    assert((x | (1u64 << p)) >> 56u64 == 0 && (x | (1u64 << p)) & y == 0 && (x | y) | (1u64 << p)
        == (x | (1u64 << p)) | y) by (bit_vector)
        requires
            p < 56,
            x >> 56u64 == 0,
            x & y == 0,
            !has_bit(y, p),
    ;
}

/// Of two disjoint bytes that fill a column of height `h >= 1`, the one that
/// holds the top row is the larger.
pub proof fn lemma_top_owner(a: u64, b: u64, h: u64)
    requires
        a & b == 0,
        a | b == stack_byte(h),
        1 <= h <= 6,
    ensures
        (a > b) == has_bit(a, (h - 1) as u64),
        (a < b) == has_bit(b, (h - 1) as u64),
{
    assert((a > b) == has_bit(a, (h - 1) as u64) && (a < b) == has_bit(b, (h - 1) as u64))
        by (bit_vector)
        requires
            a & b == 0,
            a | b == stack_byte(h),
            1 <= h <= 6,
    ;
}

/// Four-in-a-line masks: a word contains the mask iff it holds each cell.
pub proof fn lemma_vertical_mask(x: u64, q: u64)
    requires
        q <= 60,
    ensures
        (x & (0xfu64 << q) == (0xfu64 << q)) == (has_bit(x, q) && has_bit(x, (q + 1) as u64)
            && has_bit(x, (q + 2) as u64) && has_bit(x, (q + 3) as u64)),
{
    assert((x & (0xfu64 << q) == (0xfu64 << q)) == (has_bit(x, q) && has_bit(x, (q + 1) as u64)
        && has_bit(x, (q + 2) as u64) && has_bit(x, (q + 3) as u64))) by (bit_vector)
        requires
            q <= 60,
    ;
}

pub proof fn lemma_horizontal_mask(x: u64, q: u64)
    requires
        q <= 39,
    ensures
        (x & (0x01010101u64 << q) == (0x01010101u64 << q)) == (has_bit(x, q) && has_bit(
            x,
            (q + 8) as u64,
        ) && has_bit(x, (q + 16) as u64) && has_bit(x, (q + 24) as u64)),
{
    assert((x & (0x01010101u64 << q) == (0x01010101u64 << q)) == (has_bit(x, q) && has_bit(
        x,
        (q + 8) as u64,
    ) && has_bit(x, (q + 16) as u64) && has_bit(x, (q + 24) as u64))) by (bit_vector)
        requires
            q <= 39,
    ;
}

pub proof fn lemma_rising_mask(x: u64, q: u64)
    requires
        q <= 36,
    ensures
        (x & (0x08040201u64 << q) == (0x08040201u64 << q)) == (has_bit(x, q) && has_bit(
            x,
            (q + 9) as u64,
        ) && has_bit(x, (q + 18) as u64) && has_bit(x, (q + 27) as u64)),
{
    assert((x & (0x08040201u64 << q) == (0x08040201u64 << q)) == (has_bit(x, q) && has_bit(
        x,
        (q + 9) as u64,
    ) && has_bit(x, (q + 18) as u64) && has_bit(x, (q + 27) as u64))) by (bit_vector)
        requires
            q <= 36,
    ;
}

pub proof fn lemma_falling_mask(x: u64, q: u64)
    requires
        q <= 39,
    ensures
        (x & (0x01020408u64 << q) == (0x01020408u64 << q)) == (has_bit(x, (q + 3) as u64)
            && has_bit(x, (q + 10) as u64) && has_bit(x, (q + 17) as u64) && has_bit(
            x,
            (q + 24) as u64,
        )),
{
    assert((x & (0x01020408u64 << q) == (0x01020408u64 << q)) == (has_bit(x, (q + 3) as u64)
        && has_bit(x, (q + 10) as u64) && has_bit(x, (q + 17) as u64) && has_bit(
        x,
        (q + 24) as u64,
    ))) by (bit_vector)
        requires
            q <= 39,
    ;
}

/// The empty word has empty columns.
pub proof fn lemma_col_byte_zero(c: u64)
    ensures
        col_byte(0, c) == 0,
{
    assert(col_byte(0, c) == 0) by (bit_vector);
}

/// A word with a clear guard byte is full iff each of its seven columns is.
pub proof fn lemma_full_word(x: u64)
    requires
        x >> 56u64 == 0,
    ensures
        (x == 0x3f3f3f3f3f3f3fu64) == (col_byte(x, 0) == 63 && col_byte(x, 1) == 63 && col_byte(
            x,
            2,
        ) == 63 && col_byte(x, 3) == 63 && col_byte(x, 4) == 63 && col_byte(x, 5) == 63
            && col_byte(x, 6) == 63),
{
    assert((x == 0x3f3f3f3f3f3f3fu64) == (col_byte(x, 0) == 63 && col_byte(x, 1) == 63
        && col_byte(x, 2) == 63 && col_byte(x, 3) == 63 && col_byte(x, 4) == 63 && col_byte(x, 5)
        == 63 && col_byte(x, 6) == 63)) by (bit_vector)
        requires
            x >> 56u64 == 0,
    ;
}

/// Two words with clear guard bytes and equal column bytes are equal.
pub proof fn lemma_words_by_columns(x: u64, y: u64)
    requires
        x >> 56u64 == 0,
        y >> 56u64 == 0,
        col_byte(x, 0) == col_byte(y, 0),
        col_byte(x, 1) == col_byte(y, 1),
        col_byte(x, 2) == col_byte(y, 2),
        col_byte(x, 3) == col_byte(y, 3),
        col_byte(x, 4) == col_byte(y, 4),
        col_byte(x, 5) == col_byte(y, 5),
        col_byte(x, 6) == col_byte(y, 6),
    ensures
        x == y,
{
    assert(x == y) by (bit_vector)
        requires
            x >> 56u64 == 0,
            y >> 56u64 == 0,
            col_byte(x, 0) == col_byte(y, 0),
            col_byte(x, 1) == col_byte(y, 1),
            col_byte(x, 2) == col_byte(y, 2),
            col_byte(x, 3) == col_byte(y, 3),
            col_byte(x, 4) == col_byte(y, 4),
            col_byte(x, 5) == col_byte(y, 5),
            col_byte(x, 6) == col_byte(y, 6),
    ;
}

/// Two bytes with the same eight low bits are equal.
pub proof fn lemma_bytes_by_bits(x: u64, y: u64)
    requires
        x < 256,
        y < 256,
        forall|r: u64| r < 8 ==> has_bit(x, r) == has_bit(y, r),
    ensures
        x == y,
{
    assert(has_bit(x, 0) == has_bit(y, 0));
    assert(has_bit(x, 1) == has_bit(y, 1));
    assert(has_bit(x, 2) == has_bit(y, 2));
    assert(has_bit(x, 3) == has_bit(y, 3));
    assert(has_bit(x, 4) == has_bit(y, 4));
    assert(has_bit(x, 5) == has_bit(y, 5));
    assert(has_bit(x, 6) == has_bit(y, 6));
    assert(has_bit(x, 7) == has_bit(y, 7));
    assert(x == y) by (bit_vector)
        requires
            x < 256,
            y < 256,
            has_bit(x, 0) == has_bit(y, 0),
            has_bit(x, 1) == has_bit(y, 1),
            has_bit(x, 2) == has_bit(y, 2),
            has_bit(x, 3) == has_bit(y, 3),
            has_bit(x, 4) == has_bit(y, 4),
            has_bit(x, 5) == has_bit(y, 5),
            has_bit(x, 6) == has_bit(y, 6),
            has_bit(x, 7) == has_bit(y, 7),
    ;
}

/// Simple bounds: a column byte is a byte, and a part of a word with a
/// clear guard byte has one too.
pub proof fn lemma_byte_bounds(x: u64, y: u64, c: u64)
    ensures
        col_byte(x, c) < 256,
        (x | y) >> 56u64 == 0 ==> x >> 56u64 == 0,
{
    assert(col_byte(x, c) < 256 && ((x | y) >> 56u64 == 0 ==> x >> 56u64 == 0)) by (bit_vector);
}

/// Union and intersection commute and regroup.
pub proof fn lemma_or_swap(x: u64, y: u64, z: u64)
    ensures
        x | y == y | x,
        x & y == y & x,
        (x | y) | z == (x | z) | y,
        x | (y | z) == (x | y) | z,
        x & 0 == 0,
        !has_bit(0u64, z),
{
    assert(x | y == y | x && x & y == y & x && (x | y) | z == (x | z) | y && x | (y | z) == (x
        | y) | z && x & 0 == 0 && !has_bit(0u64, z)) by (bit_vector);
}

} // verus!
