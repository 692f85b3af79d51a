//! XOR algebra on 64-bit words, shared by both cell variants.

use vstd::prelude::*;

verus! {

/// XOR-ing the same value twice restores a word.
pub proof fn lemma_xor_cancel(a: u64, b: u64)
    ensures
        a ^ b ^ b == a,
{
    assert(a ^ b ^ b == a) by (bit_vector);
}

/// Two XOR adjustments of a word commute.
pub proof fn lemma_xor_comm2(a: u64, x: u64, y: u64)
    ensures
        a ^ x ^ y == a ^ y ^ x,
{
    assert(a ^ x ^ y == a ^ y ^ x) by (bit_vector);
}

/// XOR of words associates.
pub proof fn lemma_xor_assoc(a: u64, b: u64, c: u64)
    ensures
        a ^ (b ^ c) == (a ^ b) ^ c,
{
    assert(a ^ (b ^ c) == (a ^ b) ^ c) by (bit_vector);
}

/// XOR with zero is identity.
pub proof fn lemma_xor_zero(a: u64)
    ensures
        a ^ 0 == a,
{
    assert(a ^ 0u64 == a) by (bit_vector);
}

} // verus!
