use vstd::prelude::*;

verus! {

/// Bit `t` of `b`, counted from the least significant bit.
pub open spec fn bit(b: u8, t: u8) -> bool {
    (b >> t) & 1u8 == 1u8
}

/// Mask of the `n` lowest bits of a byte.
pub open spec fn low_mask(n: u8) -> u8 {
    ((1u8 << n) - 1u8) as u8
}

/// Setting bit `t` of a value whose bits from `t` upward are clear keeps the
/// lower bits, makes bit `t` the given one and leaves the higher bits clear.
pub proof fn lemma_push_bit(v: u8, b: u8, t: u8, s: u8)
    by (bit_vector)
    requires
        t < 8,
        b <= 1,
        v >> t == 0,
    ensures
        s < t ==> bit(v | (b << t), s) == bit(v, s),
        bit(v | (b << t), t) == (b == 1),
        t < 7 ==> (v | (b << t)) >> ((t + 1) as u8) == 0,
{
}

/// The bit read out of a byte by shift and mask is the byte's bit.
pub proof fn lemma_extract_bit(x: u8, j: u8)
    by (bit_vector)
    requires
        j < 8,
    ensures
        (x >> j) & 1u8 <= 1,
        ((x >> j) & 1u8 == 1) == bit(x, j),
{
}

/// Replacing the `n` low bits of a byte by a value below `2^n` keeps the high
/// bits and gives the value's bits below `n`.
pub proof fn lemma_masked_write(old: u8, v: u8, n: u8, s: u8)
    by (bit_vector)
    requires
        1 <= n <= 7,
        v >> n == 0,
        s < n,
    ensures
        bit((old & !low_mask(n)) | v, s) == bit(v, s),
        ((old & !low_mask(n)) | v) >> n == old >> n,
{
}

/// A byte is determined by its eight bits.
pub proof fn lemma_bits_determine(a: u8, b: u8)
    by (bit_vector)
    requires
        bit(a, 0) == bit(b, 0),
        bit(a, 1) == bit(b, 1),
        bit(a, 2) == bit(b, 2),
        bit(a, 3) == bit(b, 3),
        bit(a, 4) == bit(b, 4),
        bit(a, 5) == bit(b, 5),
        bit(a, 6) == bit(b, 6),
        bit(a, 7) == bit(b, 7),
    ensures
        a == b,
{
}

} // verus!
