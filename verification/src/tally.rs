//! What the figures of an evaluation count.

use vstd::prelude::*;
use crate::chance::{after_shuffles, arrange, shuffle_round, started};
use crate::evaluate::{capped_sum, credit, hits, reached};

verus! {

/// The true neighbours among the first `k` entries of an answer.
pub open spec fn found_among(row: Seq<u32>, truth: Seq<u32>, k: int) -> Set<u32> {
    Set::new(
        |id: u32|
            truth.contains(id) && exists|i: int|
                0 <= i < row.len() && i < k && #[trigger] row[i] == id,
    )
}

/// An answer has credit for the true neighbours among its first `k` entries,
/// each once, out of all of them; where there are none, for being empty.
pub proof fn credit_counts_true_neighbours(row: Seq<u32>, truth: Seq<u32>, k: int)
    requires
        0 <= k,
    ensures
        ({
            let (found, due) = credit(row, truth, k);
            let some = found_among(row, truth, k);
            &&& some.finite()
            &&& truth.len() > 0 ==> found == some.len() && due == truth.len()
            &&& truth.len() == 0 ==> due == 1 && (found == 1 <==> row.len() == 0) && 0 <= found <= 1
            &&& truth.len() > 0 && truth.no_duplicates() ==> found <= due
        }),
{
    let few = if k < row.len() {
        row.take(k)
    } else {
        row
    };
    let good = |id: u32| truth.contains(id);
    let list = hits(row, truth, k);
    let some = found_among(row, truth, k);
    assert(list == few.filter(good));
    assert(list.to_set() =~= some) by {
        assert forall|id: u32| list.to_set().contains(id) <==> some.contains(id) by {
            if list.contains(id) {
                let i = choose|i: int| 0 <= i < list.len() && list[i] == id;
                few.lemma_filter_pred(good, i);
                few.lemma_filter_contains_rev(good, id);
                let j = choose|j: int| 0 <= j < few.len() && few[j] == id;
                assert(row[j] == id);
            }
            if some.contains(id) {
                let i = choose|i: int| 0 <= i < row.len() && i < k && #[trigger] row[i] == id;
                assert(few[i] == id);
                few.lemma_filter_contains(good, i);
            }
        }
    }
    vstd::seq_lib::seq_to_set_is_finite(list);
    if truth.no_duplicates() {
        truth.unique_seq_to_set();
        vstd::seq_lib::seq_to_set_is_finite(truth);
        assert(some.subset_of(truth.to_set()));
        vstd::set_lib::lemma_len_subset(some, truth.to_set());
    }
}

/// How many counts reach the target, and what all of them have of it together,
/// of two series one after the other: both add up.  A single count has at most
/// the target.
pub proof fn completeness_adds_up(one: Seq<usize>, two: Seq<usize>, count: usize, target: int)
    requires
        0 <= target,
    ensures
        capped_sum(one + two, target) == capped_sum(one, target) + capped_sum(two, target),
        reached(one + two, target) == reached(one, target) + reached(two, target),
        capped_sum(seq![count], target) == if count < target {
            count as int
        } else {
            target
        },
        reached(seq![count], target) == if count < target {
            0int
        } else {
            1int
        },
        capped_sum(one, target) <= one.len() * target,
        reached(one, target) == one.len() ==> capped_sum(one, target) == one.len() * target,
    decreases two.len(),
{
    let single = seq![count];
    assert(single.drop_last() =~= Seq::<usize>::empty());
    assert(capped_sum(single.drop_last(), target) == 0);
    assert(reached(single.drop_last(), target) == 0);
    if two.len() == 0 {
        assert(one + two =~= one);
    } else {
        let few = two.drop_last();
        completeness_adds_up(one, few, count, target);
        assert((one + two).drop_last() =~= one + few);
        assert((one + two).last() == two.last());
    }
    sums_are_capped(one, target);
}

proof fn sums_are_capped(counts: Seq<usize>, target: int)
    requires
        0 <= target,
    ensures
        capped_sum(counts, target) <= counts.len() * target,
        reached(counts, target) <= counts.len(),
        reached(counts, target) == counts.len() ==> capped_sum(counts, target) == counts.len()
            * target,
    decreases counts.len(),
{
    if counts.len() == 0 {
        assert(counts.len() * target == 0) by (nonlinear_arith)
            requires
                counts.len() == 0,
        ;
    } else {
        let few = counts.drop_last();
        sums_are_capped(few, target);
        assert((few.len() + 1) * target == few.len() * target + target) by (nonlinear_arith);
    }
}

/// The shuffles of a series follow each other: each starts where the generator
/// stood after the one before.
pub proof fn shuffles_follow_each_other(seed: u64, n: u32, rounds: nat) -> (held: Seq<Seq<u32>>)
    ensures
        held.len() == rounds + 1,
        held[0] == started(seed),
        forall|r: int| 0 <= r < rounds ==> #[trigger] held[r + 1] == arrange(held[r], n as nat).1,
        forall|r: int, i: int|
            #![trigger shuffle_round(seed, n, r as nat)[i]]
            0 <= r < rounds && 0 <= i < arrange(held[r], n as nat).0.len() ==> shuffle_round(
                seed,
                n,
                r as nat,
            )[i] == arrange(held[r], n as nat).0[i] as u32,
{
    let held = Seq::new(
        rounds + 1,
        |r: int| after_shuffles(started(seed), n as nat, r as nat),
    );
    assert forall|r: int| 0 <= r < rounds implies #[trigger] held[r + 1] == arrange(
        held[r],
        n as nat,
    ).1 by {
        assert((r + 1 - 1) as nat == r as nat);
    }
    held
}

} // verus!
