//! Integer distances and the order of floating-point ones.

use vstd::prelude::*;
use crate::single::{order_is_numeric, order_of, value, SIGN};

verus! {

/// How vectors are compared.
#[derive(Clone, Copy, Debug, PartialEq, Eq, Structural)]
pub enum Metric {
    L2,
    InnerProduct,
    Cosine,
}

/// Key of a distance, given by its bit pattern: keys compare as unsigned
/// integers the way the distances compare as numbers.
pub fn ord_key(bits: u32) -> (key: u32)
    ensures
        key == order_of(bits),
{
    if bits >= SIGN {
        u32::MAX - bits
    } else {
        bits + SIGN
    }
}

/// The pattern that `ord_key` gave `key` for.
pub open spec fn pattern_of(key: u32) -> u32 {
    if key >= SIGN {
        (key - SIGN) as u32
    } else {
        (u32::MAX - key) as u32
    }
}

/// Bit pattern of the distance with this key.
pub fn from_ord_key(key: u32) -> (bits: u32)
    ensures
        bits == pattern_of(key),
{
    if key >= SIGN {
        key - SIGN
    } else {
        u32::MAX - key
    }
}

/// Keys and bit patterns are in one-to-one correspondence.
pub proof fn ord_key_round_trip(x: u32)
    ensures
        pattern_of(order_of(x)) == x,
        order_of(pattern_of(x)) == x,
{
}

/// A larger number never has a smaller key, and distances that differ as
/// numbers differ in their keys.
pub proof fn ord_key_is_monotone(a: u32, b: u32)
    ensures
        value(a) < value(b) ==> order_of(a) < order_of(b),
        order_of(a) <= order_of(b) ==> value(a) <= value(b),
{
    order_is_numeric(a, b);
    order_is_numeric(b, a);
}

/// Squared Euclidean distance of two byte vectors.
pub open spec fn square_sum(a: Seq<u8>, b: Seq<u8>) -> nat
    decreases a.len(),
{
    if a.len() == 0 {
        0
    } else {
        square_sum(a.drop_last(), b.drop_last()) + ((a.last() - b.last()) * (a.last() - b.last())) as nat
    }
}

/// The distance as a 64-bit number, which holds it exactly below `2^48`
/// dimensions.
pub open spec fn byte_distance(a: Seq<u8>, b: Seq<u8>) -> u64 {
    (square_sum(a, b) % 0x1_0000_0000_0000_0000) as u64
}

/// Squared Euclidean distance of two byte vectors of equal length.
pub fn l2_sq8(a: &[u8], b: &[u8]) -> (distance: u64)
    requires
        a@.len() == b@.len(),
    ensures
        distance == byte_distance(a@, b@),
        a@.len() < 0x1_0000_0000_0000 ==> distance == square_sum(a@, b@),
{
    let mut sum: u64 = 0;
    let mut i: usize = 0;
    assert(square_sum(a@.take(0), b@.take(0)) == 0);
    while i < a.len()
        invariant
            i <= a@.len(),
            a@.len() == b@.len(),
            sum == square_sum(a@.take(i as int), b@.take(i as int)) % 0x1_0000_0000_0000_0000,
            square_sum(a@.take(i as int), b@.take(i as int)) <= 65025 * i,
        decreases a@.len() - i,
    {
        let x: u8 = a[i];
        let y: u8 = b[i];
        let gap: u64 = if x >= y { (x - y) as u64 } else { (y - x) as u64 };
        assert(gap * gap <= 65025) by (nonlinear_arith)
            requires
                0 <= gap <= 255,
        ;
        assert(gap * gap == (x - y) * (x - y)) by (nonlinear_arith)
            requires
                gap == x - y || gap == y - x,
        ;
        proof {
            let next_a = a@.take(i + 1);
            let next_b = b@.take(i + 1);
            assert(next_a.drop_last() =~= a@.take(i as int));
            assert(next_b.drop_last() =~= b@.take(i as int));
        }
        sum = sum.wrapping_add(gap * gap);
        i = i + 1;
    }
    assert(a@.take(a@.len() as int) =~= a@);
    assert(b@.take(b@.len() as int) =~= b@);
    sum
}

/// Number of ones in the binary notation of `word`.
pub open spec fn ones(word: u64) -> nat
    decreases word,
{
    if word == 0 {
        0
    } else {
        (word % 2) as nat + ones(word / 2)
    }
}

/// Number of bit positions in which two codes differ.
pub open spec fn differing_bits(a: Seq<u64>, b: Seq<u64>) -> nat
    decreases a.len(),
{
    if a.len() == 0 {
        0
    } else {
        differing_bits(a.drop_last(), b.drop_last()) + ones(a.last() ^ b.last())
    }
}

/// The number of differing bits as a 64-bit number, which holds it exactly for
/// codes below `2^57` words.
pub open spec fn code_distance(a: Seq<u64>, b: Seq<u64>) -> u64 {
    (differing_bits(a, b) % 0x1_0000_0000_0000_0000) as u64
}

fn count_ones(word: u64) -> (count: u64)
    ensures
        count == ones(word),
        count <= 64,
{
    let mut rest: u64 = word;
    let mut count: u64 = 0;
    let mut room: u64 = 64;
    let ghost mut bound: nat = 0x1_0000_0000_0000_0000;
    proof {
        vstd::arithmetic::power2::lemma2_to64_rest();
    }
    while rest != 0
        invariant
            count + ones(rest) == ones(word),
            count + room <= 64,
            rest < bound,
            bound == vstd::arithmetic::power2::pow2(room as nat),
        decreases rest,
    {
        proof {
            if room == 0 {
                vstd::arithmetic::power2::lemma2_to64();
            }
            vstd::arithmetic::power2::lemma_pow2_unfold(room as nat);
            bound = bound / 2;
        }
        count = count + rest % 2;
        rest = rest / 2;
        room = room - 1;
    }
    count
}

/// Number of bit positions in which two codes of equal length differ.
pub fn hamming(a: &[u64], b: &[u64]) -> (distance: u64)
    requires
        a@.len() == b@.len(),
    ensures
        distance == code_distance(a@, b@),
        a@.len() < 0x200_0000_0000_0000 ==> distance == differing_bits(a@, b@),
{
    let mut sum: u64 = 0;
    let mut i: usize = 0;
    assert(differing_bits(a@.take(0), b@.take(0)) == 0);
    while i < a.len()
        invariant
            i <= a@.len(),
            a@.len() == b@.len(),
            sum == differing_bits(a@.take(i as int), b@.take(i as int)) % 0x1_0000_0000_0000_0000,
            differing_bits(a@.take(i as int), b@.take(i as int)) <= 64 * i,
        decreases a@.len() - i,
    {
        proof {
            assert(a@.take(i + 1).drop_last() =~= a@.take(i as int));
            assert(b@.take(i + 1).drop_last() =~= b@.take(i as int));
        }
        let count: u64 = count_ones(a[i] ^ b[i]);
        sum = sum.wrapping_add(count);
        i = i + 1;
    }
    assert(a@.take(a@.len() as int) =~= a@);
    assert(b@.take(b@.len() as int) =~= b@);
    sum
}

} // verus!
