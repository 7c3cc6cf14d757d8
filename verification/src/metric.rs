use vstd::prelude::*;

verus! {

/// Number of set bits among the binary digits of `x`.
pub open spec fn popcount(x: u64) -> nat
    decreases x,
    via popcount_decreases
{
    if x == 0 {
        0
    } else {
        ((x & 1) + popcount(x >> 1)) as nat
    }
}

#[via_fn]
proof fn popcount_decreases(x: u64) {
    assert(x != 0 ==> (x >> 1) < x) by (bit_vector);
}

/// Hamming distance between two 64-bit values: the number of bit positions
/// at which they differ.
pub open spec fn distance(a: u64, b: u64) -> nat {
    popcount(a ^ b)
}

/// `u64::count_ones` of the standard library. Its documentation says that it
/// returns the number of ones in the binary representation of its argument;
/// that is taken on trust here.
pub assume_specification[ u64::count_ones ](x: u64) -> (r: u32)
    ensures
        r == popcount(x),
;

/// Unfolding of `popcount` that also holds at zero.
pub proof fn lemma_popcount_step(x: u64)
    ensures
        popcount(x) == (x & 1) + popcount(x >> 1),
        (x & 1) == 0 || (x & 1) == 1,
{
    assert((x & 1) == 0 || (x & 1) == 1) by (bit_vector);
    if x == 0 {
        assert(0u64 & 1 == 0) by (bit_vector);
        assert(0u64 >> 1 == 0) by (bit_vector);
    }
}

/// A value below `2^n` has at most `n` set bits.
proof fn lemma_popcount_below(x: u64, n: nat)
    requires
        n <= 64,
        n < 64 ==> (x >> (n as u64)) == 0,
    ensures
        popcount(x) <= n,
    decreases n,
{
    lemma_popcount_step(x);
    if n == 0 {
        assert((x >> 0) == x) by (bit_vector);
    } else {
        let m = (n - 1) as u64;
        let k = n as u64;
        assert(((x >> 1) >> m) == 0) by (bit_vector)
            requires
                1 <= k <= 64,
                m == k - 1,
                k < 64 ==> (x >> k) == 0,
        ;
        lemma_popcount_below(x >> 1, (n - 1) as nat);
    }
}

/// No 64-bit value has more than 64 set bits.
pub proof fn lemma_popcount_bound(x: u64)
    ensures
        popcount(x) <= 64,
{
    lemma_popcount_below(x, 64);
}

/// Only zero has no set bit.
pub proof fn lemma_popcount_zero(x: u64)
    ensures
        popcount(x) == 0 <==> x == 0,
    decreases x,
{
    if x != 0 {
        assert(x != 0 ==> (x >> 1) < x) by (bit_vector);
        assert((x & 1) == 0 || (x & 1) == 1) by (bit_vector);
        assert(x != 0 && (x & 1) == 0 ==> (x >> 1) != 0) by (bit_vector);
        lemma_popcount_zero(x >> 1);
    }
}

/// The set bits of `a ^ c` are among those of `a ^ b` and `b ^ c`.
proof fn lemma_popcount_xor_triangle(a: u64, b: u64, c: u64)
    ensures
        popcount(a ^ c) <= popcount(a ^ b) + popcount(b ^ c),
    decreases a + b + c,
{
    if a == 0 && b == 0 && c == 0 {
        assert(0u64 ^ 0u64 == 0) by (bit_vector);
    } else {
        lemma_popcount_step(a ^ c);
        lemma_popcount_step(a ^ b);
        lemma_popcount_step(b ^ c);
        assert(((a ^ c) & 1) <= ((a ^ b) & 1) + ((b ^ c) & 1)) by (bit_vector);
        assert((a ^ c) >> 1 == (a >> 1) ^ (c >> 1)) by (bit_vector);
        assert((a ^ b) >> 1 == (a >> 1) ^ (b >> 1)) by (bit_vector);
        assert((b ^ c) >> 1 == (b >> 1) ^ (c >> 1)) by (bit_vector);
        assert((a >> 1) <= a && (a != 0 ==> (a >> 1) < a)) by (bit_vector);
        assert((b >> 1) <= b && (b != 0 ==> (b >> 1) < b)) by (bit_vector);
        assert((c >> 1) <= c && (c != 0 ==> (c >> 1) < c)) by (bit_vector);
        lemma_popcount_xor_triangle(a >> 1, b >> 1, c >> 1);
    }
}

/// A value is at distance zero from itself and from nothing else.
pub proof fn lemma_distance_zero(a: u64, b: u64)
    ensures
        distance(a, b) == 0 <==> a == b,
{
    lemma_popcount_zero(a ^ b);
    assert((a ^ b) == 0 <==> a == b) by (bit_vector);
}

/// Distance does not depend on the order of its arguments.
pub proof fn lemma_distance_symmetric(a: u64, b: u64)
    ensures
        distance(a, b) == distance(b, a),
{
    assert(a ^ b == b ^ a) by (bit_vector);
}

/// No two 64-bit values differ in more than 64 positions.
pub proof fn lemma_distance_bound(a: u64, b: u64)
    ensures
        distance(a, b) <= 64,
{
    lemma_popcount_bound(a ^ b);
}

/// Triangle inequality of the Hamming distance.
pub proof fn lemma_distance_triangle(a: u64, b: u64, c: u64)
    ensures
        distance(a, c) <= distance(a, b) + distance(b, c),
{
    lemma_popcount_xor_triangle(a, b, c);
}

} // verus!
