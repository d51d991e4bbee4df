//! Basis indices as bit strings.
//!
//! A basis index of an `n`-qubit register is a number below `2^n` whose bit `k`
//! is the value of qubit `k`. This module states, over machine words, what it
//! means to look at one qubit of an index, to flip it, and to enumerate the
//! indices in which chosen qubits are fixed.

use vstd::prelude::*;
use vstd::arithmetic::power2::{lemma_pow2_adds, pow2};
use vstd::bits::{lemma_usize_pow2_no_overflow, lemma_usize_shl_is_mul};

verus! {

/// The index whose only set bit is bit `p`.
pub open spec fn bit_at(p: usize) -> usize {
    1usize << p
}

/// Whether bit `p` of `x` is set.
pub open spec fn has_bit(x: usize, p: usize) -> bool {
    x & (1usize << p) != 0
}

/// `x` with bit `p` inverted.
pub open spec fn flip_bit(x: usize, p: usize) -> usize {
    x ^ (1usize << p)
}

/// The bits of `x` below position `p`.
pub open spec fn low_bits(x: usize, p: usize) -> usize {
    x & (((1usize << p) - 1) as usize)
}

/// `x` with the bit `b` inserted at position `p`: the bits of `x` from `p`
/// upwards move one place up, those below stay.
pub open spec fn insert_bit(x: usize, p: usize, b: bool) -> usize {
    if b {
        ((x >> p) << ((p + 1) as usize)) | (1usize << p) | low_bits(x, p)
    } else {
        ((x >> p) << ((p + 1) as usize)) | low_bits(x, p)
    }
}

/// `x` with bit `p` removed: the bits above `p` move one place down.
pub open spec fn drop_bit(x: usize, p: usize) -> usize {
    ((x >> ((p + 1) as usize)) << p) | low_bits(x, p)
}

/// Inserting a bit and dropping it again gives the number back; the inserted
/// bit is found at its position, and the result needs one bit more.
pub proof fn lemma_drop_insert(x: usize, p: usize, b: bool, w: usize)
    by (bit_vector)
    requires
        p <= w,
        w + 1 < usize::BITS,
        x < (1usize << w),
    ensures
        drop_bit(insert_bit(x, p, b), p) == x,
        has_bit(insert_bit(x, p, b), p) == b,
        insert_bit(x, p, b) < (1usize << ((w + 1) as usize)),
{
}

/// Dropping a bit and inserting its value again gives the index back; the
/// result of dropping needs one bit less.
pub proof fn lemma_insert_drop(x: usize, p: usize, w: usize)
    by (bit_vector)
    requires
        p <= w,
        w + 1 < usize::BITS,
        x < (1usize << ((w + 1) as usize)),
    ensures
        insert_bit(drop_bit(x, p), p, has_bit(x, p)) == x,
        drop_bit(x, p) < (1usize << w),
{
}

/// The two indices that arise from one number by inserting 0 or 1 at the same
/// position differ in that bit only.
pub proof fn lemma_insert_flip(x: usize, p: usize, b: bool)
    by (bit_vector)
    requires
        p + 1 < usize::BITS,
    ensures
        flip_bit(insert_bit(x, p, b), p) == insert_bit(x, p, !b),
        drop_bit(flip_bit(x, p), p) == drop_bit(x, p),
{
}

/// Inserting a bit leaves the bits below it where they are.
pub proof fn lemma_insert_above(x: usize, q: usize, b: bool, p: usize)
    by (bit_vector)
    requires
        p < q,
        q + 1 < usize::BITS,
    ensures
        has_bit(insert_bit(x, q, b), p) == has_bit(x, p),
        flip_bit(insert_bit(x, q, b), p) == insert_bit(flip_bit(x, p), q, b),
{
}

/// Dropping a bit leaves the bits below it where they are.
pub proof fn lemma_drop_above(x: usize, q: usize, p: usize)
    by (bit_vector)
    requires
        p < q,
        q + 1 < usize::BITS,
    ensures
        has_bit(drop_bit(x, q), p) == has_bit(x, p),
{
}

/// Flipping one bit of an index of `w` bits gives another index of `w` bits,
/// leaves every other bit as it is, and is undone by flipping the bit again.
pub proof fn lemma_flip_bit(x: usize, p: usize, q: usize, w: usize)
    by (bit_vector)
    requires
        p < w,
        w < usize::BITS,
        x < (1usize << w),
    ensures
        flip_bit(x, p) < (1usize << w),
        flip_bit(flip_bit(x, p), p) == x,
        flip_bit(x, p) != x,
        has_bit(flip_bit(x, p), p) == !has_bit(x, p),
        q != p ==> has_bit(flip_bit(x, p), q) == has_bit(x, q),
{
}

/// The index whose only set bit is bit `k` is the number `2^k`.
pub proof fn lemma_bit_at_is_pow2(k: usize)
    requires
        k < usize::BITS,
    ensures
        bit_at(k) == pow2(k as nat),
{
    lemma_usize_pow2_no_overflow(k as nat);
    lemma_usize_shl_is_mul(1usize, k);
}

/// A register of `a + b` qubits has as many basis indices as the pairs of one
/// of a register of `a` and one of a register of `b` qubits.
pub proof fn lemma_bit_at_adds(a: usize, b: usize)
    requires
        a + b < usize::BITS,
    ensures
        bit_at(a) * bit_at(b) == bit_at((a + b) as usize),
{
    lemma_bit_at_is_pow2(a);
    lemma_bit_at_is_pow2(b);
    lemma_bit_at_is_pow2((a + b) as usize);
    lemma_pow2_adds(a as nat, b as nat);
}

/// The basis index 0 has no bit set.
pub proof fn lemma_zero_has_no_bit(x: usize, p: usize)
    by (bit_vector)
    requires
        has_bit(x, p),
    ensures
        x != 0,
{
}

/// The number of times that `n` can be halved before it falls below 2: the
/// number of qubits of a register with `n` basis indices.
pub open spec fn floor_log2(n: nat) -> nat
    decreases n,
{
    if n < 2 {
        0
    } else {
        1 + floor_log2(n / 2)
    }
}

/// A number is at least its logarithm.
pub proof fn lemma_floor_log2_bound(n: nat)
    ensures
        floor_log2(n) <= n,
    decreases n,
{
    if n >= 2 {
        lemma_floor_log2_bound(n / 2);
    }
}

/// A register of `k` qubits has `2^k` basis indices, and the other way round.
pub proof fn lemma_floor_log2_of_bit(k: usize)
    requires
        k < usize::BITS,
    ensures
        floor_log2(bit_at(k) as nat) == k,
    decreases k,
{
    if k == 0 {
        assert(1usize << 0usize == 1usize) by (bit_vector);
    } else {
        let j = (k - 1) as usize;
        assert((1usize << k) >= 2 && (1usize << k) / 2 == (1usize << j)) by (bit_vector)
            requires
                0 < k < usize::BITS,
                j == k - 1,
        ;
        lemma_floor_log2_of_bit(j);
    }
}

/// `2^k` as a machine word.
pub fn power_of_two(k: usize) -> (r: usize)
    requires
        k < usize::BITS,
    ensures
        r == bit_at(k),
        r >= 1,
{
    assert((1usize << k) >= 1) by (bit_vector)
        requires
            k < usize::BITS,
    ;
    1usize << k
}

/// Whether bit `p` of `x` is set.
pub fn test_bit(x: usize, p: usize) -> (r: bool)
    requires
        p < usize::BITS,
    ensures
        r == has_bit(x, p),
{
    x & power_of_two(p) != 0
}

/// Inserts the bit `b` at position `p` of `x`.
pub fn with_bit(x: usize, p: usize, b: bool) -> (r: usize)
    requires
        p + 1 < usize::BITS,
    ensures
        r == insert_bit(x, p, b),
{
    let below: usize = power_of_two(p) - 1;
    let spread: usize = ((x >> p) << (p + 1)) | (x & below);
    if b {
        let r: usize = spread | power_of_two(p);
        assert(r == insert_bit(x, p, true)) by (bit_vector)
            requires
                r == (((x >> p) << ((p + 1) as usize)) | low_bits(x, p)) | (1usize << p),
        ;
        r
    } else {
        spread
    }
}

} // verus!
