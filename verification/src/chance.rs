//! Seeded randomness.

use rand::rngs::StdRng;
use rand::seq::SliceRandom;
use rand::{Rng, SeedableRng};
use vstd::prelude::*;

verus! {

/// `rand`'s standard generator.
#[verifier::external_type_specification]
#[verifier::external_body]
pub struct ExStdRng(rand::rngs::StdRng);

/// What a generator holds: its key, its counter and what it has left of its
/// last block of numbers.
pub uninterp spec fn held(rng: StdRng) -> Seq<u32>;

/// What the standard generator holds that a seed starts.
pub uninterp spec fn started(seed: u64) -> Seq<u32>;

/// A fair coin flip by a generator that holds `state`, and what the generator
/// then holds.
pub uninterp spec fn flip(state: Seq<u32>) -> (bool, Seq<u32>);

/// A number below `bound` drawn by a generator that holds `state`, on a machine
/// with words of `word` bits, and what the generator then holds.
pub uninterp spec fn draw(state: Seq<u32>, bound: nat, word: nat) -> (nat, Seq<u32>);

/// The order in which a generator that holds `state` shuffles `count` items,
/// and what the generator then holds.
pub uninterp spec fn arrange(state: Seq<u32>, count: nat) -> (Seq<nat>, Seq<u32>);

/// `rand::SeedableRng::seed_from_u64` of `rand::rngs::StdRng`: the generator
/// depends on the seed alone.
#[verifier::external_body]
pub(crate) fn seeded(seed: u64) -> (rng: StdRng)
    ensures
        held(rng) == started(seed),
{
    StdRng::seed_from_u64(seed)
}

/// `rand::Rng::gen_ratio(1, 2)`: the flip and the generator after it depend on
/// the generator alone.
#[verifier::external_body]
pub(crate) fn flip_coin(rng: &mut StdRng) -> (heads: bool)
    ensures
        (heads, held(*final(rng))) == flip(held(*old(rng))),
{
    rng.gen_ratio(1, 2)
}

/// `rand::Rng::gen_range(0 .. bound)` for `usize`: a number below `bound`.  It
/// and the generator after it depend on the generator, on the bound and on the
/// width of a word.
#[verifier::external_body]
pub(crate) fn draw_below(rng: &mut StdRng, bound: usize) -> (drawn: usize)
    requires
        bound > 0,
    ensures
        drawn < bound,
        (drawn as nat, held(*final(rng))) == draw(held(*old(rng)), bound as nat, usize::BITS as nat),
{
    rng.gen_range(0..bound)
}

/// `rand::seq::SliceRandom::shuffle`: rearranges the items.  The order and the
/// generator after it depend on the generator and on the number of items; for
/// no more items than `u32` counts, the width of a word plays no part.
#[verifier::external_body]
pub(crate) fn shuffle(rng: &mut StdRng, items: &mut Vec<usize>)
    requires
        old(items)@.len() <= u32::MAX,
    ensures
        ({
            let (order, after) = arrange(held(*old(rng)), old(items)@.len());
            &&& is_arrangement(order, old(items)@.len())
            &&& final(items)@ == arranged(old(items)@, order)
            &&& held(*final(rng)) == after
        }),
{
    items.shuffle(rng);
}

/// Each number below `count` once.
pub open spec fn is_arrangement(order: Seq<nat>, count: nat) -> bool {
    &&& order.len() == count
    &&& order.no_duplicates()
    &&& forall|i: int| 0 <= i < count ==> #[trigger] order[i] < count
}

/// Items in another order.
pub open spec fn arranged(items: Seq<usize>, order: Seq<nat>) -> Seq<usize> {
    Seq::new(order.len(), |i: int| items[order[i] as int])
}

/// The generator after some flips.
pub open spec fn after_flips(state: Seq<u32>, count: nat) -> Seq<u32>
    decreases count,
{
    if count == 0 {
        state
    } else {
        flip(after_flips(state, (count - 1) as nat)).1
    }
}

/// The `index`-th fair coin flip of the standard generator started with `seed`.
pub open spec fn coin(seed: u64, index: nat) -> bool {
    flip(after_flips(started(seed), index)).0
}

/// The first `count` coin flips of the standard generator.
pub(crate) fn coin_flips(seed: u64, count: usize) -> (flips: Vec<bool>)
    ensures
        flips@.len() == count,
        forall|i: int| 0 <= i < count ==> flips@[i] == coin(seed, i as nat),
{
    let mut rng = seeded(seed);
    let mut flips: Vec<bool> = Vec::new();
    while flips.len() < count
        invariant
            flips@.len() <= count,
            held(rng) == after_flips(started(seed), flips@.len()),
            forall|i: int| 0 <= i < flips@.len() ==> flips@[i] == coin(seed, i as nat),
        decreases count - flips@.len(),
    {
        flips.push(flip_coin(&mut rng));
    }
    flips
}

/// The numbers below `n` in the order in which a generator shuffles them.
pub open spec fn shuffled(state: Seq<u32>, n: nat) -> Seq<usize> {
    arrange(state, n).0.map_values(|x: nat| x as usize)
}

/// The numbers below `n`, shuffled, and the first `c` of them.
pub(crate) fn shuffled_prefix(rng: &mut StdRng, n: usize, c: usize) -> (ids: Vec<usize>)
    requires
        c <= n <= u32::MAX,
    ensures
        ids@ == shuffled(held(*old(rng)), n as nat).take(c as int),
        held(*final(rng)) == arrange(held(*old(rng)), n as nat).1,
        is_arrangement(arrange(held(*old(rng)), n as nat).0, n as nat),
        ids@.len() == c,
        ids@.no_duplicates(),
        forall|j: int| 0 <= j < c ==> #[trigger] ids@[j] < n,
{
    let mut all: Vec<usize> = Vec::new();
    while all.len() < n
        invariant
            all@.len() <= n,
            forall|i: int| 0 <= i < all@.len() ==> #[trigger] all@[i] == i,
        decreases n - all@.len(),
    {
        all.push(all.len());
    }
    let ghost order = arrange(held(*rng), n as nat).0;
    shuffle(rng, &mut all);
    assert(all@ =~= order.map_values(|x: nat| x as usize));
    assert forall|i: int, j: int| 0 <= i < n && 0 <= j < n && i != j implies all@[i] != all@[j] by {
        assert(order[i] != order[j]);
        assert(order[i] < n && order[j] < n);
    }
    all.truncate(c);
    assert(all@ =~= shuffled(held(*old(rng)), n as nat).take(c as int));
    all
}

/// The generator after some shuffles of `n` items.
pub open spec fn after_shuffles(state: Seq<u32>, n: nat, rounds: nat) -> Seq<u32>
    decreases rounds,
{
    if rounds == 0 {
        state
    } else {
        arrange(after_shuffles(state, n, (rounds - 1) as nat), n).1
    }
}

/// The `round`-th shuffle of `0 .. n` by the standard generator started with
/// `seed`.
pub open spec fn shuffle_round(seed: u64, n: u32, round: nat) -> Seq<u32> {
    arrange(after_shuffles(started(seed), n as nat, round), n as nat).0.map_values(|x: nat| x as u32)
}

/// `rounds` shuffles of `0 .. n`, one after the other.
pub(crate) fn shuffle_rounds(seed: u64, n: u32, rounds: usize) -> (orders: Vec<Vec<u32>>)
    ensures
        orders@.len() == rounds,
        forall|r: int|
            0 <= r < rounds ==> {
                &&& (#[trigger] orders@[r])@ == shuffle_round(seed, n, r as nat)
                &&& orders@[r]@.len() == n
                &&& orders@[r]@.no_duplicates()
                &&& forall|i: int| 0 <= i < n ==> #[trigger] orders@[r]@[i] < n
            },
{
    let mut rng = seeded(seed);
    let mut orders: Vec<Vec<u32>> = Vec::new();
    while orders.len() < rounds
        invariant
            orders@.len() <= rounds,
            held(rng) == after_shuffles(started(seed), n as nat, orders@.len()),
            forall|r: int|
                0 <= r < orders@.len() ==> {
                    &&& (#[trigger] orders@[r])@ == shuffle_round(seed, n, r as nat)
                    &&& orders@[r]@.len() == n
                    &&& orders@[r]@.no_duplicates()
                    &&& forall|i: int| 0 <= i < n ==> #[trigger] orders@[r]@[i] < n
                },
        decreases rounds - orders@.len(),
    {
        let ghost state = held(rng);
        let wide = shuffled_prefix(&mut rng, n as usize, n as usize);
        let mut order: Vec<u32> = Vec::new();
        while order.len() < n as usize
            invariant
                order@.len() <= n,
                wide@.len() == n,
                forall|i: int| 0 <= i < n ==> #[trigger] wide@[i] < n,
                forall|i: int| 0 <= i < order@.len() ==> #[trigger] order@[i] == wide@[i],
            decreases n - order@.len(),
        {
            order.push(wide[order.len()] as u32);
        }
        proof {
            let plain = arrange(state, n as nat).0;
            assert(wide@ =~= shuffled(state, n as nat).take(n as int));
            assert forall|i: int| 0 <= i < n implies order@[i] == plain[i] as u32 by {
                assert(order@[i] == wide@[i]);
                assert(wide@[i] == plain[i] as usize);
            }
            assert(order@ =~= shuffle_round(seed, n, orders@.len()));
            assert forall|i: int, j: int| 0 <= i < n && 0 <= j < n && i != j implies order@[i] != order@[j] by {
                assert(wide@[i] != wide@[j]);
            }
        }
        orders.push(order);
    }
    orders
}

} // verus!
