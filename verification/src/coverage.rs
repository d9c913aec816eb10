//! How much of the attribute space a choice of neighbours covers.

use vstd::prelude::*;
use vstd::arithmetic::power::pow;
use vstd::arithmetic::power2::{lemma_pow2_pos, pow2};
use crate::config::MAX_COVERING_SUBSETS;
use crate::covering::{
    agree, candidate_score, choice_rounds, choices_are_distinct, chosen, ids_at, is_new, leader,
    new_tuples, new_tuples_diminish, NEGATIVE_INFINITY,
};
use crate::point::PointStore;
use crate::single::{
    less, magnitude_is_not_negative, pattern_of_count, pattern_of_count_is_exact, value,
};

verus! {

/// Values of the attributes in `combo` at point `q`.
pub open spec fn projection(store: &PointStore, q: u32, combo: Seq<usize>) -> Seq<u32> {
    combo.map_values(|j: usize| store.attr_at(q as int, j as int))
}

/// The projections onto `combo` that some points have.
pub open spec fn projections(store: &PointStore, points: Seq<u32>, combo: Seq<usize>) -> Set<Seq<u32>>
    decreases points.len(),
{
    if points.len() == 0 {
        Set::empty()
    } else {
        projections(store, points.drop_last(), combo).insert(projection(store, points.last(), combo))
    }
}

/// How many different projections onto the first `upto` subsets of attributes
/// some points have.
pub open spec fn coverage(store: &PointStore, points: Seq<u32>, subsets: Seq<Vec<usize>>, upto: int) -> int
    decreases upto,
{
    if upto <= 0 {
        0
    } else {
        coverage(store, points, subsets, upto - 1) + projections(store, points, subsets[upto - 1]@).len()
    }
}

/// All candidates, as points.
pub open spec fn candidate_ids(candidates: Seq<(u32, u32)>) -> Seq<u32> {
    candidates.map_values(|c: (u32, u32)| c.0)
}

/// Counts have scores, and more is better.
proof fn counts_are_ranked(fewer: int, more: int)
    requires
        0 <= fewer <= more <= MAX_COVERING_SUBSETS,
    ensures
        less(NEGATIVE_INFINITY, pattern_of_count(fewer)),
        fewer < more ==> less(pattern_of_count(fewer), pattern_of_count(more)),
{
    pattern_of_count_is_exact(fewer);
    pattern_of_count_is_exact(more);
    magnitude_is_not_negative(NEGATIVE_INFINITY);
    lemma_pow2_pos(149);
    assert(fewer * pow2(149) >= 0) by (nonlinear_arith)
        requires
            fewer >= 0,
            pow2(149) > 0,
    ;
    if fewer < more {
        assert(fewer * pow2(149) < more * pow2(149)) by (nonlinear_arith)
            requires
                fewer < more,
                pow2(149) > 0,
        ;
    }
}

proof fn projections_are_exact(store: &PointStore, points: Seq<u32>, combo: Seq<usize>)
    ensures
        projections(store, points, combo).finite(),
        forall|i: int|
            0 <= i < points.len() ==> projections(store, points, combo).contains(
                #[trigger] projection(store, points[i], combo),
            ),
        forall|x: Seq<u32>| #[trigger]
            projections(store, points, combo).contains(x) ==> exists|i: int|
                0 <= i < points.len() && x == projection(store, #[trigger] points[i], combo),
    decreases points.len(),
{
    if points.len() > 0 {
        let fewer = points.drop_last();
        projections_are_exact(store, fewer, combo);
        assert forall|i: int| 0 <= i < points.len() implies projections(store, points, combo).contains(
            #[trigger] projection(store, points[i], combo),
        ) by {
            if i < fewer.len() {
                assert(fewer[i] == points[i]);
                assert(projections(store, fewer, combo).contains(projection(store, fewer[i], combo)));
            }
        }
        assert forall|x: Seq<u32>| #[trigger]
            projections(store, points, combo).contains(x) implies exists|i: int|
            0 <= i < points.len() && x == projection(store, #[trigger] points[i], combo) by {
            if projections(store, fewer, combo).contains(x) {
                let i = choose|i: int|
                    0 <= i < fewer.len() && x == projection(store, #[trigger] fewer[i], combo);
                assert(points[i] == fewer[i]);
            } else {
                assert(points[points.len() - 1] == points.last());
            }
        }
    }
}

proof fn agreement_is_projection(store: &PointStore, q: u32, s: u32, combo: Seq<usize>)
    ensures
        agree(store, q, s, combo) <==> projection(store, q, combo) == projection(store, s, combo),
{
    let a = projection(store, q, combo);
    let b = projection(store, s, combo);
    if agree(store, q, s, combo) {
        assert(a =~= b);
    } else {
        let i = choose|i: int|
            0 <= i < combo.len() && store.attr_at(q as int, (#[trigger] combo[i]) as int)
                != store.attr_at(s as int, combo[i] as int);
        assert(a[i] != b[i]);
    }
}

/// A further point adds its new projections, and only those.
pub proof fn coverage_grows_by_new_tuples(
    store: &PointStore,
    points: Seq<u32>,
    q: u32,
    subsets: Seq<Vec<usize>>,
    upto: int,
)
    ensures
        coverage(store, points.push(q), subsets, upto) == coverage(store, points, subsets, upto)
            + new_tuples(store, q, points, subsets, upto),
    decreases upto,
{
    if upto > 0 {
        coverage_grows_by_new_tuples(store, points, q, subsets, upto - 1);
        let combo = subsets[upto - 1]@;
        projections_are_exact(store, points, combo);
        assert(points.push(q).drop_last() =~= points);
        let known = projections(store, points, combo);
        let own = projection(store, q, combo);
        assert(projections(store, points.push(q), combo) == known.insert(own));
        if is_new(store, q, points, combo) {
            if known.contains(own) {
                let i = choose|i: int|
                    0 <= i < points.len() && own == projection(store, #[trigger] points[i], combo);
                agreement_is_projection(store, q, points[i], combo);
                assert(!agree(store, q, points[i], combo));
            }
        } else {
            let i = choose|i: int|
                0 <= i < points.len() && agree(store, q, #[trigger] points[i], combo);
            agreement_is_projection(store, q, points[i], combo);
            assert(known.contains(projection(store, points[i], combo)));
            assert(known.insert(own) =~= known);
        }
    }
}

/// More points cover at least as much.
pub proof fn coverage_is_monotone(
    store: &PointStore,
    fewer: Seq<u32>,
    more: Seq<u32>,
    subsets: Seq<Vec<usize>>,
    upto: int,
)
    requires
        forall|i: int| 0 <= i < fewer.len() ==> more.contains(#[trigger] fewer[i]),
    ensures
        0 <= coverage(store, fewer, subsets, upto) <= coverage(store, more, subsets, upto),
    decreases upto,
{
    if upto > 0 {
        coverage_is_monotone(store, fewer, more, subsets, upto - 1);
        let combo = subsets[upto - 1]@;
        projections_are_exact(store, fewer, combo);
        projections_are_exact(store, more, combo);
        let small = projections(store, fewer, combo);
        let large = projections(store, more, combo);
        assert forall|x: Seq<u32>| #[trigger] small.contains(x) implies large.contains(x) by {
            let i = choose|i: int|
                0 <= i < fewer.len() && x == projection(store, #[trigger] fewer[i], combo);
            assert(more.contains(fewer[i]));
            let j = choose|j: int| 0 <= j < more.len() && more[j] == fewer[i];
            assert(large.contains(projection(store, more[j], combo)));
        }
        vstd::set_lib::lemma_len_subset(small, large);
    }
}

/// Points add at most what each would add alone.
proof fn joint_gain_is_bounded(
    store: &PointStore,
    base: Seq<u32>,
    others: Seq<u32>,
    subsets: Seq<Vec<usize>>,
    most: int,
)
    requires
        forall|i: int|
            0 <= i < others.len() ==> new_tuples(
                store,
                #[trigger] others[i],
                base,
                subsets,
                subsets.len() as int,
            ) <= most,
    ensures
        coverage(store, base + others, subsets, subsets.len() as int) <= coverage(
            store,
            base,
            subsets,
            subsets.len() as int,
        ) + others.len() * most,
    decreases others.len(),
{
    let upto = subsets.len() as int;
    if others.len() == 0 {
        assert(base + others =~= base);
    } else {
        let fewer = others.drop_last();
        let q = others.last();
        assert forall|i: int| 0 <= i < fewer.len() implies new_tuples(
            store,
            #[trigger] fewer[i],
            base,
            subsets,
            upto,
        ) <= most by {
            assert(fewer[i] == others[i]);
        }
        joint_gain_is_bounded(store, base, fewer, subsets, most);
        assert((base + fewer).push(q) =~= base + others);
        coverage_grows_by_new_tuples(store, base + fewer, q, subsets, upto);
        assert forall|p: u32| #[trigger] base.contains(p) implies (base + fewer).contains(p) by {
            let i = choose|i: int| 0 <= i < base.len() && base[i] == p;
            assert((base + fewer)[i] == p);
        }
        new_tuples_diminish(store, q, base, base + fewer, subsets, upto);
        assert(others[others.len() - 1] == q);
        assert(fewer.len() * most + most == others.len() * most) by (nonlinear_arith)
            requires
                others.len() == fewer.len() + 1,
        ;
    }
}

/// There are no more new projections than subsets.
proof fn new_tuples_are_few(
    store: &PointStore,
    q: u32,
    points: Seq<u32>,
    subsets: Seq<Vec<usize>>,
    upto: int,
)
    ensures
        0 <= new_tuples(store, q, points, subsets, upto) <= if upto < 0 {
            0
        } else {
            upto
        },
    decreases upto,
{
    if upto > 0 {
        new_tuples_are_few(store, q, points, subsets, upto - 1);
    }
}

/// A point adds nothing to points that hold it.
proof fn known_points_add_nothing(
    store: &PointStore,
    q: u32,
    points: Seq<u32>,
    subsets: Seq<Vec<usize>>,
    upto: int,
)
    requires
        points.contains(q),
    ensures
        new_tuples(store, q, points, subsets, upto) == 0,
    decreases upto,
{
    if upto > 0 {
        known_points_add_nothing(store, q, points, subsets, upto - 1);
        let j = choose|j: int| 0 <= j < points.len() && points[j] == q;
        assert(agree(store, q, points[j], subsets[upto - 1]@));
    }
}

/// The leader is unsurpassed, and there is one where an open candidate has a score.
proof fn leader_is_unsurpassed(score: spec_fn(int) -> u32, taken: Seq<int>, upto: int)
    ensures
        ({
            let (best, high) = leader(score, taken, upto);
            &&& best matches Some(i) ==> 0 <= i < upto && !taken.contains(i) && high == score(i)
            &&& best is None ==> high == NEGATIVE_INFINITY
            &&& forall|j: int|
                0 <= j < upto && !taken.contains(j) ==> !less(high, #[trigger] score(j))
        }),
    decreases upto,
{
    if upto > 0 {
        leader_is_unsurpassed(score, taken, upto - 1);
    }
}

/// What a round of choice adds: the most that any candidate would.
proof fn round_takes_the_best<W: Fn(u32, usize, u32) -> u32>(
    store: &PointStore,
    candidates: Seq<(u32, u32)>,
    subsets: Seq<Vec<usize>>,
    alpha: u32,
    score: W,
    rounds: int,
) -> (gain: int)
    requires
        0 < rounds <= candidates.len(),
        subsets.len() <= MAX_COVERING_SUBSETS,
        value(alpha) == 0,
    ensures
        ({
            let upto = subsets.len() as int;
            let before = ids_at(candidates, chosen(store, candidates, subsets, alpha, score, rounds - 1));
            let after = ids_at(candidates, chosen(store, candidates, subsets, alpha, score, rounds));
            &&& 0 <= gain
            &&& coverage(store, after, subsets, upto) == coverage(store, before, subsets, upto) + gain
            &&& forall|i: int|
                0 <= i < candidates.len() ==> new_tuples(
                    store,
                    (#[trigger] candidates[i]).0,
                    before,
                    subsets,
                    upto,
                ) <= gain
        }),
        chosen(store, candidates, subsets, alpha, score, rounds).len() == chosen(
            store,
            candidates,
            subsets,
            alpha,
            score,
            rounds - 1,
        ).len() + 1,
{
    let upto = subsets.len() as int;
    let taken = chosen(store, candidates, subsets, alpha, score, rounds - 1);
    let before = ids_at(candidates, taken);
    let scored = |i: int| candidate_score(store, candidates, subsets, alpha, score, taken, i);
    let n = candidates.len() as int;
    choices_are_distinct(store, candidates, subsets, alpha, score, rounds - 1);
    leader_is_unsurpassed(scored, taken, n);
    let (best, high) = leader(scored, taken, n);
    let open = some_position_is_open(taken, n);
    new_tuples_are_few(store, candidates[open].0, before, subsets, upto);
    counts_are_ranked(
        new_tuples(store, candidates[open].0, before, subsets, upto),
        MAX_COVERING_SUBSETS as int,
    );
    assert(less(NEGATIVE_INFINITY, scored(open)));
    let pick = best->0;
    let gain = new_tuples(store, candidates[pick].0, before, subsets, upto);
    new_tuples_are_few(store, candidates[pick].0, before, subsets, upto);
    assert forall|i: int| 0 <= i < n implies new_tuples(
        store,
        (#[trigger] candidates[i]).0,
        before,
        subsets,
        upto,
    ) <= gain by {
        let own = new_tuples(store, candidates[i].0, before, subsets, upto);
        new_tuples_are_few(store, candidates[i].0, before, subsets, upto);
        if taken.contains(i) {
            let j = choose|j: int| 0 <= j < taken.len() && taken[j] == i;
            assert(before[j] == candidates[i].0);
            assert(before.contains(candidates[i].0));
            known_points_add_nothing(store, candidates[i].0, before, subsets, upto);
        } else if own > gain {
            counts_are_ranked(gain, own);
            assert(less(high, scored(i)));
        }
    }
    let after = ids_at(candidates, chosen(store, candidates, subsets, alpha, score, rounds));
    assert(after =~= before.push(candidates[pick].0));
    coverage_grows_by_new_tuples(store, before, candidates[pick].0, subsets, upto);
    gain
}

/// Fewer positions than there are leave one open.
proof fn some_position_is_open(taken: Seq<int>, n: int) -> (open: int)
    requires
        taken.no_duplicates(),
        taken.len() < n,
        forall|j: int| 0 <= j < taken.len() ==> 0 <= #[trigger] taken[j] < n,
    ensures
        0 <= open < n,
        !taken.contains(open),
{
    if forall|i: int| 0 <= i < n ==> taken.contains(i) {
        let all = vstd::set_lib::set_int_range(0, n);
        vstd::set_lib::lemma_int_range(0, n);
        taken.unique_seq_to_set();
        assert(all.subset_of(taken.to_set())) by {
            assert forall|i: int| #[trigger] all.contains(i) implies taken.to_set().contains(i) by {
                assert(taken.contains(i));
            }
        }
        vstd::set_lib::lemma_len_subset(all, taken.to_set());
    }
    choose|i: int| 0 <= i < n && !taken.contains(i)
}

/// After `rounds` rounds the shortfall against any choice of `budget`
/// candidates has shrunk by the factor `(1 - 1/budget)` per round.
pub proof fn shortfall_shrinks<W: Fn(u32, usize, u32) -> u32>(
    store: &PointStore,
    candidates: Seq<(u32, u32)>,
    subsets: Seq<Vec<usize>>,
    alpha: u32,
    score: W,
    others: Seq<u32>,
    budget: int,
    rounds: int,
)
    requires
        0 <= rounds <= candidates.len(),
        subsets.len() <= MAX_COVERING_SUBSETS,
        value(alpha) == 0,
        others.len() <= budget,
        0 < budget,
        forall|i: int|
            0 <= i < others.len() ==> candidate_ids(candidates).contains(#[trigger] others[i]),
    ensures
        ({
            let upto = subsets.len() as int;
            let taken = ids_at(candidates, chosen(store, candidates, subsets, alpha, score, rounds));
            pow(budget, rounds as nat) * (coverage(store, others, subsets, upto) - coverage(
                store,
                taken,
                subsets,
                upto,
            )) <= pow(budget - 1, rounds as nat) * coverage(store, others, subsets, upto)
        }),
    decreases rounds,
{
    let upto = subsets.len() as int;
    let best = coverage(store, others, subsets, upto);
    reveal(pow);
    coverage_is_monotone(store, others, others, subsets, upto);
    let taken = ids_at(candidates, chosen(store, candidates, subsets, alpha, score, rounds));
    if rounds == 0 {
        assert(taken =~= Seq::<u32>::empty());
        coverage_is_monotone(store, taken, taken, subsets, upto);
        assert(pow(budget, 0) == 1 && pow(budget - 1, 0) == 1);
    } else {
        shortfall_shrinks(store, candidates, subsets, alpha, score, others, budget, rounds - 1);
        let gain = round_takes_the_best(store, candidates, subsets, alpha, score, rounds);
        let before = ids_at(candidates, chosen(store, candidates, subsets, alpha, score, rounds - 1));
        assert forall|i: int| 0 <= i < others.len() implies new_tuples(
            store,
            #[trigger] others[i],
            before,
            subsets,
            upto,
        ) <= gain by {
            assert(candidate_ids(candidates).contains(others[i]));
            let c = choose|c: int|
                0 <= c < candidates.len() && #[trigger] candidate_ids(candidates)[c] == others[i];
            assert(new_tuples(store, candidates[c].0, before, subsets, upto) <= gain);
        }
        joint_gain_is_bounded(store, before, others, subsets, gain);
        assert forall|i: int| 0 <= i < others.len() implies (before + others).contains(
            #[trigger] others[i],
        ) by {
            assert((before + others)[before.len() + i] == others[i]);
        }
        coverage_is_monotone(store, others, before + others, subsets, upto);
        let had = best - coverage(store, before, subsets, upto);
        let has = best - coverage(store, taken, subsets, upto);
        let up = pow(budget, (rounds - 1) as nat);
        let down = pow(budget - 1, (rounds - 1) as nat);
        vstd::arithmetic::power::lemma_pow_positive(budget, (rounds - 1) as nat);
        assert(others.len() * gain <= budget * gain) by (nonlinear_arith)
            requires
                0 <= gain,
                others.len() <= budget,
        ;
        assert(has == had - gain);
        assert((budget * up) * has <= ((budget - 1) * down) * best) by (nonlinear_arith)
            requires
                has == had - gain,
                had <= budget * gain,
                up * had <= down * best,
                up > 0,
                budget > 0,
        ;
    }
}

/// Where proximity has no weight, greedy choice of as many candidates covers
/// all but the part `(1 - 1/m)^m`, below `1/e`, of what any `m` candidates
/// cover.
pub proof fn greedy_choice_is_near_best<W: Fn(u32, usize, u32) -> u32>(
    store: &PointStore,
    candidates: Seq<(u32, u32)>,
    subsets: Seq<Vec<usize>>,
    alpha: u32,
    score: W,
    limit: int,
    others: Seq<u32>,
)
    requires
        0 <= limit,
        subsets.len() <= MAX_COVERING_SUBSETS,
        value(alpha) == 0,
        others.len() <= choice_rounds(candidates, limit),
        forall|i: int|
            0 <= i < others.len() ==> candidate_ids(candidates).contains(#[trigger] others[i]),
    ensures
        ({
            let upto = subsets.len() as int;
            let m = choice_rounds(candidates, limit);
            let selected = ids_at(candidates, chosen(store, candidates, subsets, alpha, score, m));
            pow(m, m as nat) * (coverage(store, others, subsets, upto) - coverage(
                store,
                selected,
                subsets,
                upto,
            )) <= pow(m - 1, m as nat) * coverage(store, others, subsets, upto)
        }),
{
    let m = choice_rounds(candidates, limit);
    if m > 0 {
        shortfall_shrinks(store, candidates, subsets, alpha, score, others, m, m);
    } else {
        let selected = ids_at(candidates, chosen(store, candidates, subsets, alpha, score, m));
        assert(selected =~= others);
        reveal(pow);
        assert(pow(0, 0) == 1 && pow(-1, 0) == 1);
        coverage_is_monotone(store, others, others, subsets, subsets.len() as int);
    }
}

/// No candidate has a projection that the points lack.
spec fn nothing_is_new(
    store: &PointStore,
    candidates: Seq<(u32, u32)>,
    points: Seq<u32>,
    subsets: Seq<Vec<usize>>,
) -> bool {
    forall|c: int|
        0 <= c < candidates.len() ==> new_tuples(
            store,
            (#[trigger] candidates[c]).0,
            points,
            subsets,
            subsets.len() as int,
        ) == 0
}

/// Each round covers something more, or nothing is left to cover.
proof fn rounds_make_progress<W: Fn(u32, usize, u32) -> u32>(
    store: &PointStore,
    candidates: Seq<(u32, u32)>,
    subsets: Seq<Vec<usize>>,
    alpha: u32,
    score: W,
    rounds: int,
)
    requires
        0 <= rounds <= candidates.len(),
        subsets.len() <= MAX_COVERING_SUBSETS,
        value(alpha) == 0,
    ensures
        ({
            let taken = ids_at(candidates, chosen(store, candidates, subsets, alpha, score, rounds));
            coverage(store, taken, subsets, subsets.len() as int) >= rounds || nothing_is_new(
                store,
                candidates,
                taken,
                subsets,
            )
        }),
    decreases rounds,
{
    let upto = subsets.len() as int;
    let taken = ids_at(candidates, chosen(store, candidates, subsets, alpha, score, rounds));
    coverage_is_monotone(store, taken, taken, subsets, upto);
    if rounds > 0 {
        rounds_make_progress(store, candidates, subsets, alpha, score, rounds - 1);
        let gain = round_takes_the_best(store, candidates, subsets, alpha, score, rounds);
        let before = ids_at(candidates, chosen(store, candidates, subsets, alpha, score, rounds - 1));
        if nothing_is_new(store, candidates, before, subsets) {
            assert(before =~= taken.take(before.len() as int));
            assert forall|p: u32| #[trigger] before.contains(p) implies taken.contains(p) by {
                let i = choose|i: int| 0 <= i < before.len() && before[i] == p;
                assert(taken[i] == p);
            }
            assert forall|c: int| 0 <= c < candidates.len() implies new_tuples(
                store,
                (#[trigger] candidates[c]).0,
                taken,
                subsets,
                upto,
            ) == 0 by {
                new_tuples_diminish(store, candidates[c].0, before, taken, subsets, upto);
            }
        } else {
            let c = choose|c: int|
                0 <= c < candidates.len() && new_tuples(
                    store,
                    (#[trigger] candidates[c]).0,
                    before,
                    subsets,
                    upto,
                ) != 0;
            new_tuples_are_few(store, candidates[c].0, before, subsets, upto);
            assert(new_tuples(store, candidates[c].0, before, subsets, upto) <= gain);
        }
    }
}

/// A projection that no chosen point has is new.
proof fn missing_projection_is_new(
    store: &PointStore,
    q: u32,
    points: Seq<u32>,
    subsets: Seq<Vec<usize>>,
    r: int,
    upto: int,
)
    requires
        0 <= r < upto,
        is_new(store, q, points, subsets[r]@),
    ensures
        new_tuples(store, q, points, subsets, upto) > 0,
    decreases upto,
{
    new_tuples_are_few(store, q, points, subsets, upto - 1);
    if r < upto - 1 {
        missing_projection_is_new(store, q, points, subsets, r, upto - 1);
    }
}

/// Where proximity has no weight and as many candidates are chosen as there are
/// projections, every projection that a candidate has, a chosen one has: a
/// filter that fixes the attributes of one subset and passes a candidate passes
/// a chosen one.
pub proof fn enough_choices_cover_everything<W: Fn(u32, usize, u32) -> u32>(
    store: &PointStore,
    candidates: Seq<(u32, u32)>,
    subsets: Seq<Vec<usize>>,
    alpha: u32,
    score: W,
    limit: int,
    c: int,
    r: int,
)
    requires
        subsets.len() <= MAX_COVERING_SUBSETS,
        value(alpha) == 0,
        coverage(store, candidate_ids(candidates), subsets, subsets.len() as int) <= choice_rounds(
            candidates,
            limit,
        ),
        0 <= c < candidates.len(),
        0 <= r < subsets.len(),
    ensures
        ({
            let selected = ids_at(
                candidates,
                chosen(store, candidates, subsets, alpha, score, choice_rounds(candidates, limit)),
            );
            exists|j: int|
                0 <= j < selected.len() && agree(
                    store,
                    candidates[c].0,
                    #[trigger] selected[j],
                    subsets[r]@,
                )
        }),
{
    let upto = subsets.len() as int;
    let m = choice_rounds(candidates, limit);
    let all = candidate_ids(candidates);
    let positions = chosen(store, candidates, subsets, alpha, score, m);
    let selected = ids_at(candidates, positions);
    coverage_is_monotone(store, all, all, subsets, upto);
    rounds_make_progress(store, candidates, subsets, alpha, score, m);
    if is_new(store, candidates[c].0, selected, subsets[r]@) {
        missing_projection_is_new(store, candidates[c].0, selected, subsets, r, upto);
        let more = selected.push(candidates[c].0);
        coverage_grows_by_new_tuples(store, selected, candidates[c].0, subsets, upto);
        choices_are_distinct(store, candidates, subsets, alpha, score, m);
        assert forall|i: int| 0 <= i < more.len() implies all.contains(#[trigger] more[i]) by {
            let at = if i < selected.len() {
                positions[i]
            } else {
                c
            };
            assert(all[at] == more[i]);
        }
        coverage_is_monotone(store, more, all, subsets, upto);
    }
}

} // verus!
