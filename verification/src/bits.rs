//! The bits of a 32-bit word, as the sharing engine reads and writes them.

use vstd::prelude::*;

verus! {

/// The width of a secret and of the payload of a share, in bits.
pub const SECRET_BITS: u32 = 32;

/// Whether bit `p` of `x` is set, counted from the least significant bit.
pub open spec fn bit(x: u32, p: int) -> bool {
    x & (1u32 << (p as u32)) != 0
}

/// No bit of 0 is set.
pub proof fn lemma_bit_of_zero(q: u32)
    requires
        q < 32,
    ensures
        !bit(0, q as int),
{
    assert(0u32 & (1u32 << q) == 0) by (bit_vector);
}

/// A bit of `x | y` is set where it is set in `x` or in `y`.
pub proof fn lemma_bit_of_or(x: u32, y: u32, q: u32)
    requires
        q < 32,
    ensures
        bit(x | y, q as int) == (bit(x, q as int) || bit(y, q as int)),
{
    assert(((x | y) & (1u32 << q) != 0) == ((x & (1u32 << q) != 0) || (y & (1u32 << q) != 0)))
        by (bit_vector);
}

/// `x` cut down to its bit `p` has that bit as `x` has it, and no other.
pub proof fn lemma_bit_of_single(x: u32, p: u32, q: u32)
    requires
        p < 32,
        q < 32,
    ensures
        bit((1u32 << p) & x, q as int) == (p == q && bit(x, p as int)),
{
    assert(((((1u32 << p) & x) & (1u32 << q)) != 0) == (p == q && (x & (1u32 << p)) != 0))
        by (bit_vector)
        requires
            p < 32,
            q < 32,
    ;
}

/// The word with the single bit `p` has that bit and no other.
pub proof fn lemma_bit_of_lone(p: u32, q: u32)
    requires
        p < 32,
        q < 32,
    ensures
        bit(1u32 << p, q as int) == (p == q),
{
    assert((((1u32 << p) & (1u32 << q)) != 0) == (p == q)) by (bit_vector)
        requires
            p < 32,
            q < 32,
    ;
}

/// A word with a single bit at `p < 32` does not exceed the top bit.
pub proof fn lemma_single_bit_bound(p: u32)
    requires
        p < 32,
    ensures
        1 <= (1u32 << p) <= 0x8000_0000u32,
{
    assert(1 <= (1u32 << p) <= 0x8000_0000u32) by (bit_vector)
        requires
            p < 32,
    ;
}

/// Two words that agree in each of their 32 bits are the same word.
pub proof fn lemma_bits_determine(a: u32, b: u32)
    requires
        forall|p: int| 0 <= p < 32 ==> bit(a, p) == bit(b, p),
    ensures
        a == b,
{
    assert((1u32 << 0u32) == 0x1u32 && (1u32 << 1u32) == 0x2u32 && (1u32 << 2u32) == 0x4u32 && (1u32 << 3u32) == 0x8u32 && (1u32 << 4u32) == 0x10u32 && (1u32 << 5u32) == 0x20u32 && (1u32 << 6u32) == 0x40u32 && (1u32 << 7u32) == 0x80u32 && (1u32 << 8u32) == 0x100u32 && (1u32 << 9u32) == 0x200u32 && (1u32 << 10u32) == 0x400u32 && (1u32 << 11u32) == 0x800u32 && (1u32 << 12u32) == 0x1000u32 && (1u32 << 13u32) == 0x2000u32 && (1u32 << 14u32) == 0x4000u32 && (1u32 << 15u32) == 0x8000u32 && (1u32 << 16u32) == 0x10000u32 && (1u32 << 17u32) == 0x20000u32 && (1u32 << 18u32) == 0x40000u32 && (1u32 << 19u32) == 0x80000u32 && (1u32 << 20u32) == 0x100000u32 && (1u32 << 21u32) == 0x200000u32 && (1u32 << 22u32) == 0x400000u32 && (1u32 << 23u32) == 0x800000u32 && (1u32 << 24u32) == 0x1000000u32 && (1u32 << 25u32) == 0x2000000u32 && (1u32 << 26u32) == 0x4000000u32 && (1u32 << 27u32) == 0x8000000u32 && (1u32 << 28u32) == 0x10000000u32 && (1u32 << 29u32) == 0x20000000u32 && (1u32 << 30u32) == 0x40000000u32 && (1u32 << 31u32) == 0x80000000u32) by (bit_vector);
    assert(bit(a, 0) == bit(b, 0));
    assert(bit(a, 1) == bit(b, 1));
    assert(bit(a, 2) == bit(b, 2));
    assert(bit(a, 3) == bit(b, 3));
    assert(bit(a, 4) == bit(b, 4));
    assert(bit(a, 5) == bit(b, 5));
    assert(bit(a, 6) == bit(b, 6));
    assert(bit(a, 7) == bit(b, 7));
    assert(bit(a, 8) == bit(b, 8));
    assert(bit(a, 9) == bit(b, 9));
    assert(bit(a, 10) == bit(b, 10));
    assert(bit(a, 11) == bit(b, 11));
    assert(bit(a, 12) == bit(b, 12));
    assert(bit(a, 13) == bit(b, 13));
    assert(bit(a, 14) == bit(b, 14));
    assert(bit(a, 15) == bit(b, 15));
    assert(bit(a, 16) == bit(b, 16));
    assert(bit(a, 17) == bit(b, 17));
    assert(bit(a, 18) == bit(b, 18));
    assert(bit(a, 19) == bit(b, 19));
    assert(bit(a, 20) == bit(b, 20));
    assert(bit(a, 21) == bit(b, 21));
    assert(bit(a, 22) == bit(b, 22));
    assert(bit(a, 23) == bit(b, 23));
    assert(bit(a, 24) == bit(b, 24));
    assert(bit(a, 25) == bit(b, 25));
    assert(bit(a, 26) == bit(b, 26));
    assert(bit(a, 27) == bit(b, 27));
    assert(bit(a, 28) == bit(b, 28));
    assert(bit(a, 29) == bit(b, 29));
    assert(bit(a, 30) == bit(b, 30));
    assert(bit(a, 31) == bit(b, 31));
    assert(a == b) by (bit_vector)
        requires
            (a & 0x1u32 != 0) == (b & 0x1u32 != 0),
            (a & 0x2u32 != 0) == (b & 0x2u32 != 0),
            (a & 0x4u32 != 0) == (b & 0x4u32 != 0),
            (a & 0x8u32 != 0) == (b & 0x8u32 != 0),
            (a & 0x10u32 != 0) == (b & 0x10u32 != 0),
            (a & 0x20u32 != 0) == (b & 0x20u32 != 0),
            (a & 0x40u32 != 0) == (b & 0x40u32 != 0),
            (a & 0x80u32 != 0) == (b & 0x80u32 != 0),
            (a & 0x100u32 != 0) == (b & 0x100u32 != 0),
            (a & 0x200u32 != 0) == (b & 0x200u32 != 0),
            (a & 0x400u32 != 0) == (b & 0x400u32 != 0),
            (a & 0x800u32 != 0) == (b & 0x800u32 != 0),
            (a & 0x1000u32 != 0) == (b & 0x1000u32 != 0),
            (a & 0x2000u32 != 0) == (b & 0x2000u32 != 0),
            (a & 0x4000u32 != 0) == (b & 0x4000u32 != 0),
            (a & 0x8000u32 != 0) == (b & 0x8000u32 != 0),
            (a & 0x10000u32 != 0) == (b & 0x10000u32 != 0),
            (a & 0x20000u32 != 0) == (b & 0x20000u32 != 0),
            (a & 0x40000u32 != 0) == (b & 0x40000u32 != 0),
            (a & 0x80000u32 != 0) == (b & 0x80000u32 != 0),
            (a & 0x100000u32 != 0) == (b & 0x100000u32 != 0),
            (a & 0x200000u32 != 0) == (b & 0x200000u32 != 0),
            (a & 0x400000u32 != 0) == (b & 0x400000u32 != 0),
            (a & 0x800000u32 != 0) == (b & 0x800000u32 != 0),
            (a & 0x1000000u32 != 0) == (b & 0x1000000u32 != 0),
            (a & 0x2000000u32 != 0) == (b & 0x2000000u32 != 0),
            (a & 0x4000000u32 != 0) == (b & 0x4000000u32 != 0),
            (a & 0x8000000u32 != 0) == (b & 0x8000000u32 != 0),
            (a & 0x10000000u32 != 0) == (b & 0x10000000u32 != 0),
            (a & 0x20000000u32 != 0) == (b & 0x20000000u32 != 0),
            (a & 0x40000000u32 != 0) == (b & 0x40000000u32 != 0),
            (a & 0x80000000u32 != 0) == (b & 0x80000000u32 != 0),
    ;
}

} // verus!
