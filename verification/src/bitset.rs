//! A set of small numbers, one bit each.

use vstd::prelude::*;

verus! {

/// A set of small numbers.
pub struct Bitset {
    pub bits: Vec<u64>,
}

/// Bit `i` of a word.
pub open spec fn bit_at(word: u64, i: u64) -> bool {
    word & (1u64 << i) != 0
}

proof fn setting_a_bit(word: u64, i: u64, j: u64)
    by (bit_vector)
    requires
        i < 64,
        j < 64,
    ensures
        (word | (1u64 << i)) & (1u64 << j) != 0 <==> (word & (1u64 << j) != 0 || i == j),
{
}

proof fn no_bits(i: u64)
    by (bit_vector)
    requires
        i < 64,
    ensures
        0u64 & (1u64 << i) == 0,
{
}

proof fn splits_by_shift(i: u32)
    by (bit_vector)
    ensures
        i >> 6 == i / 64,
        i & 63 == i % 64,
{
}

impl Bitset {
    /// Whether the set holds `i`.
    pub open spec fn has(&self, i: int) -> bool {
        bit_at(self.bits@[i / 64], (i % 64) as u64)
    }

    /// Which of the first `n` numbers the set holds.
    pub open spec fn flags(&self, n: int) -> Seq<bool> {
        Seq::new(n as nat, |i: int| self.has(i))
    }

    /// The set has room for the first `n` numbers.
    pub open spec fn fits(&self, n: int) -> bool {
        n <= 64 * self.bits@.len()
    }

    /// An empty set with room for the first `n` numbers.
    pub fn new(n: usize) -> (set: Bitset)
        ensures
            set.fits(n as int),
            forall|i: int| 0 <= i < n ==> !#[trigger] set.has(i),
    {
        let words: usize = n / 64 + (if n % 64 == 0 { 0 } else { 1 });
        let mut bits: Vec<u64> = Vec::new();
        while bits.len() < words
            invariant
                bits@.len() <= words,
                forall|w: int| 0 <= w < bits@.len() ==> #[trigger] bits@[w] == 0,
            decreases words - bits@.len(),
        {
            bits.push(0);
        }
        let set = Bitset { bits };
        assert forall|i: int| 0 <= i < n implies !#[trigger] set.has(i) by {
            no_bits((i % 64) as u64);
            assert(0 <= i / 64 < words);
        }
        set
    }

    /// Adds a number; tells whether it was new.
    pub fn insert(&mut self, i: u32) -> (fresh: bool)
        requires
            old(self).fits(i + 1),
        ensures
            final(self).bits@.len() == old(self).bits@.len(),
            fresh == !old(self).has(i as int),
            forall|j: int|
                0 <= j < 64 * old(self).bits@.len() ==> (#[trigger] final(self).has(j) <==> old(self).has(
                    j,
                ) || j == i),
    {
        proof {
            splits_by_shift(i);
        }
        let word: usize = (i >> 6) as usize;
        let place: u64 = (i & 63) as u64;
        let bit: u64 = 1u64 << place;
        let found: u64 = self.bits[word];
        if found & bit != 0 {
            false
        } else {
            let ghost before = self.bits@;
            self.bits.set(word, found | bit);
            proof {
                assert forall|j: int| 0 <= j < 64 * before.len() implies (#[trigger] self.has(j) <==> bit_at(
                    before[j / 64],
                    (j % 64) as u64,
                ) || j == i) by {
                    setting_a_bit(found, place, (j % 64) as u64);
                    if j / 64 == word && j % 64 == place {
                        assert(j == i);
                    }
                }
            }
            true
        }
    }

    /// Whether the set holds a number.
    pub fn contains(&self, i: u32) -> (found: bool)
        requires
            self.fits(i + 1),
        ensures
            found == self.has(i as int),
    {
        proof {
            splits_by_shift(i);
        }
        let word: usize = (i >> 6) as usize;
        let bit: u64 = 1u64 << ((i & 63) as u64);
        self.bits[word] & bit != 0
    }
}

} // verus!
