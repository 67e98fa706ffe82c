//! Bit-level facts about `u8` and `u32` values, proved once with the
//! bit-vector solver and used everywhere else through `bit`.
use vstd::prelude::*;

verus! {

/// Whether bit `i` (counting from the least significant bit) of `x` is set.
pub open spec fn bit(x: u8, i: int) -> bool {
    0 <= i < 8 && (x >> (i as u8)) & 1u8 == 1u8
}

/// The low `n` bits set, for `n <= 7`.
pub open spec fn mask_value(n: u8) -> u8 {
    if n == 0 {
        0u8
    } else {
        ((1u8 << n) - 1u8) as u8
    }
}

/// Index of the highest set bit of a nonzero byte (0 for zero).
pub open spec fn top(x: u8) -> nat {
    if x >= 128 {
        7
    } else if x >= 64 {
        6
    } else if x >= 32 {
        5
    } else if x >= 16 {
        4
    } else if x >= 8 {
        3
    } else if x >= 4 {
        2
    } else if x >= 2 {
        1
    } else {
        0
    }
}

pub proof fn lemma_bit_or(a: u8, b: u8, i: u8)
    by (bit_vector)
    requires
        i < 8,
    ensures
        ((a | b) >> i) & 1u8 == 1u8 <==> ((a >> i) & 1u8 == 1u8 || (b >> i) & 1u8 == 1u8),
{
}

pub proof fn lemma_bit_and(a: u8, b: u8, i: u8)
    by (bit_vector)
    requires
        i < 8,
    ensures
        ((a & b) >> i) & 1u8 == 1u8 <==> ((a >> i) & 1u8 == 1u8 && (b >> i) & 1u8 == 1u8),
{
}

pub proof fn lemma_bit_single(j: u8, i: u8)
    by (bit_vector)
    requires
        i < 8,
        j < 8,
    ensures
        ((1u8 << j) >> i) & 1u8 == 1u8 <==> i == j,
{
}

pub proof fn lemma_shift_positive(n: u8)
    by (bit_vector)
    requires
        n < 8,
    ensures
        1u8 << n >= 1u8,
{
}

pub proof fn lemma_bit_zero(i: u8)
    by (bit_vector)
    requires
        i < 8,
    ensures
        (0u8 >> i) & 1u8 != 1u8,
{
}

pub proof fn lemma_bit_mask(n: u8, i: u8)
    by (bit_vector)
    requires
        n <= 7,
        i < 8,
    ensures
        (mask_value(n) >> i) & 1u8 == 1u8 <==> i < n,
{
}

/// `x & (1 << i) != 0` tests bit `i`.
pub proof fn lemma_bit_test(x: u8, i: u8)
    by (bit_vector)
    requires
        i < 8,
    ensures
        (x & (1u8 << i) != 0u8) <==> ((x >> i) & 1u8 == 1u8),
{
}

/// Two bytes with the same eight bits are equal.
pub proof fn lemma_bits_ext(a: u8, b: u8)
    by (bit_vector)
    requires
        (a >> 0u8) & 1u8 == (b >> 0u8) & 1u8,
        (a >> 1u8) & 1u8 == (b >> 1u8) & 1u8,
        (a >> 2u8) & 1u8 == (b >> 2u8) & 1u8,
        (a >> 3u8) & 1u8 == (b >> 3u8) & 1u8,
        (a >> 4u8) & 1u8 == (b >> 4u8) & 1u8,
        (a >> 5u8) & 1u8 == (b >> 5u8) & 1u8,
        (a >> 6u8) & 1u8 == (b >> 6u8) & 1u8,
        (a >> 7u8) & 1u8 == (b >> 7u8) & 1u8,
    ensures
        a == b,
{
}

pub proof fn lemma_bit_values(a: u8, i: u8)
    by (bit_vector)
    requires
        i < 8,
    ensures
        (a >> i) & 1u8 == 1u8 || (a >> i) & 1u8 == 0u8,
{
}

pub proof fn lemma_bits_equal(a: u8, b: u8)
    requires
        forall|i: int| 0 <= i < 8 ==> bit(a, i) == bit(b, i),
    ensures
        a == b,
{
    assert forall|i: u8| i < 8 implies (a >> i) & 1u8 == (b >> i) & 1u8 by {
        lemma_bit_values(a, i);
        lemma_bit_values(b, i);
        assert(bit(a, i as int) == bit(b, i as int));
    }
    lemma_bits_ext(a, b);
}

pub proof fn lemma_top_bit(x: u8, i: u8)
    by (bit_vector)
    requires
        x >= 1,
        i < 8,
    ensures
        i == top(x) ==> (x >> i) & 1u8 == 1u8,
        i > top(x) ==> (x >> i) & 1u8 != 1u8,
{
}

/// The top set bit determines `top`.
pub proof fn lemma_top_unique(x: u8, n: int)
    requires
        0 <= n < 8,
        bit(x, n),
        forall|i: int| n < i < 8 ==> !bit(x, i),
    ensures
        top(x) == n,
{
    if x == 0 {
        lemma_bit_zero(n as u8);
    }
    lemma_top_bit(x, n as u8);
    lemma_top_bit(x, top(x) as u8);
    if top(x) > n {
        assert(!bit(x, top(x) as int));
    }
}

pub proof fn lemma_shift_down(x: u8, k: u8, i: u8)
    by (bit_vector)
    requires
        k < 7,
        i < 8,
    ensures
        k <= i < 7 ==> ((((x >> (k + 1)) << k) >> i) & 1u8 == 1u8 <==> (x >> (i + 1)) & 1u8 == 1u8),
        i < k ==> (((x >> (k + 1)) << k) >> i) & 1u8 != 1u8,
        i == 7 ==> (((x >> (k + 1)) << k) >> i) & 1u8 != 1u8,
{
}

/// Packing a byte above 24 low bits in a `u32` keeps both parts.
pub proof fn lemma_pack(hi: u8, lo: u32)
    by (bit_vector)
    requires
        lo <= 0xff_ffffu32,
    ensures
        ((((hi as u32) << 24u32) | lo) >> 24u32) as u8 == hi,
        (((hi as u32) << 24u32) | lo) & 0xff_ffffu32 == lo,
        (((hi as u32) << 24u32) | lo) >> 24u32 <= 0xffu32,
{
}

/// A packed `u32` splits into its top byte and low 24 bits.
pub proof fn lemma_id_split(x: u32)
    by (bit_vector)
    ensures
        x == ((((x >> 24u32) as u8) as u32) << 24u32) | (x & 0xff_ffffu32),
        x & 0xff_ffffu32 <= 0xff_ffffu32,
{
}

} // verus!
