use vstd::prelude::*;

verus! {

/// Number of bits in one word of a bitmap.
pub const BITS_PER_WORD: usize = 64;

/// The least multiple of `alignment` that is at least `value`.
pub open spec fn spec_align_up(value: int, alignment: int) -> int {
    ((value + alignment - 1) / alignment) * alignment
}

/// Bit `index` of `word` (bit 0 is the least significant one).
pub open spec fn word_bit(word: u64, index: int) -> bool {
    (word >> (index as u64)) & 1u64 == 1u64
}

/// Rounds `value` up to a multiple of `alignment`.
pub fn align_up(value: usize, alignment: usize) -> (aligned: usize)
    requires
        alignment > 0,
        value + alignment - 1 <= usize::MAX,
    ensures
        aligned == spec_align_up(value as int, alignment as int),
        aligned >= value,
        aligned < value + alignment,
        aligned % alignment == 0,
{
    let sum = value + (alignment - 1);
    let q = sum / alignment;
    proof {
        assert(q * alignment <= sum) by (nonlinear_arith)
            requires alignment > 0, q == sum / alignment;
        assert(sum < q * alignment + alignment) by (nonlinear_arith)
            requires alignment > 0, q == sum / alignment;
        assert((q * alignment) % (alignment as int) == 0) by (nonlinear_arith)
            requires alignment > 0, q >= 0;
    }
    q * alignment
}

/// Setting bit `b` of a word sets that bit and keeps the others.
pub proof fn lemma_set_bit(word: u64, b: u64, c: u64)
    requires
        b < 64,
        c < 64,
    ensures
        word_bit(word | (1u64 << b), c as int) == (c == b || word_bit(word, c as int)),
{
    assert(((((word | (1u64 << b)) >> c) & 1u64) == 1u64) == (c == b || ((word >> c) & 1u64) == 1u64)) by (bit_vector)
        requires b < 64, c < 64;
}

/// Clearing bit `b` of a word clears that bit and keeps the others.
pub proof fn lemma_clear_bit(word: u64, b: u64, c: u64)
    requires
        b < 64,
        c < 64,
    ensures
        word_bit(word & !(1u64 << b), c as int) == (c != b && word_bit(word, c as int)),
{
    assert(((((word & !(1u64 << b)) >> c) & 1u64) == 1u64) == (c != b && ((word >> c) & 1u64) == 1u64)) by (bit_vector)
        requires b < 64, c < 64;
}

/// No bit of the zero word is set.
pub proof fn lemma_zero_word(c: u64)
    requires
        c < 64,
    ensures
        !word_bit(0u64, c as int),
{
    assert(((0u64 >> c) & 1u64) != 1u64) by (bit_vector);
}

/// Testing a bit with a mask agrees with `word_bit`.
pub proof fn lemma_test_bit(word: u64, b: u64)
    requires
        b < 64,
    ensures
        (word & (1u64 << b) != 0) == word_bit(word, b as int),
{
    assert((word & (1u64 << b) != 0usize) == (((word >> b) & 1u64) == 1u64)) by (bit_vector)
        requires b < 64;
}

} // verus!
