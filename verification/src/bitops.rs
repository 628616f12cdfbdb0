//! Single bits of a byte.
use vstd::prelude::*;

verus! {

/// Bit `index` of a byte, counted from the least significant one.
pub open spec fn byte_bit(value: u8, index: int) -> bool {
    (value >> (index as u8)) & 1u8 == 1u8
}

/// Whether bit `index` of `value` is set.
pub fn test_bit(value: u8, index: usize) -> (set: bool)
    requires
        index < 8,
    ensures
        set == byte_bit(value, index as int),
{
    (value >> (index as u8)) & 1u8 == 1u8
}

/// `value` with bit `index` set.
pub fn with_bit(value: u8, index: usize) -> (result: u8)
    requires
        index < 8,
    ensures
        forall|i: int|
            0 <= i < 8 ==> #[trigger] byte_bit(result, i) == (i == index || byte_bit(value, i)),
{
    let k: u8 = index as u8;
    let result: u8 = value | (1u8 << k);
    assert forall|i: int| 0 <= i < 8 implies #[trigger] byte_bit(result, i) == (i == index
        || byte_bit(value, i)) by {
        let j = i as u8;
        assert(k < 8 && j < 8 ==> ((((value | (1u8 << k)) >> j) & 1u8 == 1u8) == (j == k
            || ((value >> j) & 1u8 == 1u8)))) by (bit_vector);
    }
    result
}

/// A zero byte has no bit set.
pub proof fn lemma_zero_bits(index: int)
    requires
        0 <= index < 8,
    ensures
        !byte_bit(0, index),
{
    let j = index as u8;
    assert((0u8 >> j) & 1u8 == 0u8) by (bit_vector);
}

/// A byte is determined by its eight bits.
pub proof fn lemma_bits_determine_byte(a: u8, b: u8)
    requires
        forall|i: int| 0 <= i < 8 ==> #[trigger] byte_bit(a, i) == byte_bit(b, i),
    ensures
        a == b,
{
    assert(byte_bit(a, 0) == byte_bit(b, 0));
    assert(byte_bit(a, 1) == byte_bit(b, 1));
    assert(byte_bit(a, 2) == byte_bit(b, 2));
    assert(byte_bit(a, 3) == byte_bit(b, 3));
    assert(byte_bit(a, 4) == byte_bit(b, 4));
    assert(byte_bit(a, 5) == byte_bit(b, 5));
    assert(byte_bit(a, 6) == byte_bit(b, 6));
    assert(byte_bit(a, 7) == byte_bit(b, 7));
    assert(a == b) by (bit_vector)
        requires
            ((a >> 0u8) & 1u8 == 1u8) == ((b >> 0u8) & 1u8 == 1u8),
            ((a >> 1u8) & 1u8 == 1u8) == ((b >> 1u8) & 1u8 == 1u8),
            ((a >> 2u8) & 1u8 == 1u8) == ((b >> 2u8) & 1u8 == 1u8),
            ((a >> 3u8) & 1u8 == 1u8) == ((b >> 3u8) & 1u8 == 1u8),
            ((a >> 4u8) & 1u8 == 1u8) == ((b >> 4u8) & 1u8 == 1u8),
            ((a >> 5u8) & 1u8 == 1u8) == ((b >> 5u8) & 1u8 == 1u8),
            ((a >> 6u8) & 1u8 == 1u8) == ((b >> 6u8) & 1u8 == 1u8),
            ((a >> 7u8) & 1u8 == 1u8) == ((b >> 7u8) & 1u8 == 1u8),
    ;
}

/// Bits at or above `bits` of a value below `2^bits` are clear.
pub proof fn lemma_high_bits_clear(value: u8, bits: int, index: int)
    requires
        0 <= bits < 8,
        value < (1u8 << (bits as u8)),
        bits <= index < 8,
    ensures
        !byte_bit(value, index),
{
    let b = bits as u8;
    let j = index as u8;
    assert((value >> j) & 1u8 == 0u8) by (bit_vector)
        requires
            b < 8,
            value < (1u8 << b),
            b <= j,
            j < 8,
    ;
}

} // verus!
