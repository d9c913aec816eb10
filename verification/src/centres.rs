//! What a round of clustering does to points and centroids.

use vstd::arithmetic::power2::{lemma_pow2_pos, lemma_pow2_strictly_increases, lemma_pow2_unfold, pow2};
use vstd::prelude::*;
use crate::chance::{arrange, draw, started};
use crate::kmeans::{
    after_draws, after_picks, after_rounds, assigned, centroid_distance, closest, closest_is_first,
    cluster, donor, donor_is_largest, farthest, home, joined_rows, members_are_exact, one_round,
    pick_fits, pick_is_drawn, point_row, populated, recentred, repaired, reseeded, reseeding_fills,
    round_fits, State,
};
use crate::order::{ascending, ascending_is_unique};
use crate::pure::mean_of;
use crate::single::{exponent, fraction, is_nan, magnitude, pattern_of_byte, value, INFINITY};
use crate::vecstore::{row_of, VecStore};

verus! {

/// Some point is assigned to cluster `d`.
pub open spec fn has_member(assignments: Seq<u16>, d: int) -> bool {
    exists|i: int| 0 <= i < assignments.len() && #[trigger] assignments[i] == d
}

/// Every point is assigned to a centroid that is as near as any, the first one
/// of several.
pub open spec fn nearest_homes<M: Fn(&[u32], &[u32]) -> u32>(
    base: &VecStore,
    dim: int,
    measure: M,
    centroids: Seq<Seq<u32>>,
    assignments: Seq<u16>,
) -> bool {
    forall|i: int, j: int|
        #![trigger assignments[i], centroids[j]]
        0 <= i < assignments.len() && 0 <= j < centroids.len() ==> {
            let here = centroid_distance(
                base,
                dim,
                measure,
                i,
                centroids[assignments[i] as int],
            );
            let there = centroid_distance(base, dim, measure, i, centroids[j]);
            assignments[i] < centroids.len() && here <= there && (j < assignments[i] ==> here
                < there)
        }
}

/// `rows` are the rows of the points of cluster `d`, one after another, and
/// `ids` are these points.
pub open spec fn lays_out(
    base: &VecStore,
    dim: int,
    assignments: Seq<u16>,
    d: int,
    ids: Seq<u32>,
    rows: Seq<u32>,
) -> bool {
    &&& ascending(ids)
    &&& forall|p: u32| #[trigger]
        ids.contains(p) <==> p < assignments.len() && assignments[p as int] == d
    &&& rows.len() == ids.len() * dim
    &&& forall|i: int|
        0 <= i < ids.len() ==> #[trigger] row_of(rows, i, dim) == point_row(
            base,
            dim,
            ids[i] as int,
        )
}

/// `centroid` is the mean of the points of cluster `d`.
pub open spec fn is_mean<G: Fn(&[u32], usize) -> Vec<u32>>(
    base: &VecStore,
    dim: int,
    mean: G,
    assignments: Seq<u16>,
    d: int,
    centroid: Seq<u32>,
) -> bool {
    exists|ids: Seq<u32>, rows: Seq<u32>| #[trigger]
        lays_out(base, dim, assignments, d, ids, rows) && centroid == mean_of(
            mean,
            rows,
            dim as usize,
        )
}

/// Point `p` is in a cluster that no other one exceeds, the last one of several.
pub open spec fn in_largest(assignments: Seq<u16>, c: int, p: int) -> bool {
    &&& 0 <= p < assignments.len()
    &&& forall|e: int|
        0 <= e < c ==> (#[trigger] cluster(assignments, e)).len() <= cluster(
            assignments,
            assignments[p] as int,
        ).len() && (e > assignments[p] ==> cluster(assignments, e).len() < cluster(
            assignments,
            assignments[p] as int,
        ).len())
}

/// The clustering before and after cluster `d` came up, and what the generator
/// held then and after: where the cluster has no member it gets one of a largest
/// cluster, which the generator draws, as its only member and its centroid.
pub open spec fn is_mended(
    base: &VecStore,
    dim: int,
    before: State,
    held: Seq<u32>,
    d: int,
    after: State,
    left: Seq<u32>,
) -> bool {
    if has_member(before.0, d) {
        after == before && left == held
    } else {
        exists|p: int| #[trigger]
            in_largest(before.0, before.1.len() as int, p) && {
                let all = cluster(before.0, before.0[p] as int);
                let (pick, then) = draw(held, all.len(), usize::BITS as nat);
                &&& p == all[pick as int]
                &&& left == then
                &&& after == (
                    before.0.update(p, d as u16),
                    before.1.update(d, point_row(base, dim, p)),
                )
            }
    }
}

/// A clustering with what the generator holds.
pub type Stage = (State, Seq<u32>);

/// From centroids to a clustering in one round: every point goes to the nearest
/// centroid, every centroid moves to the mean of its points, and then the
/// clusters without points are given one, in turn.
pub open spec fn round_follows<M: Fn(&[u32], &[u32]) -> u32, G: Fn(&[u32], usize) -> Vec<u32>>(
    base: &VecStore,
    n: int,
    dim: int,
    measure: M,
    mean: G,
    before: Seq<Seq<u32>>,
    held: Seq<u32>,
    stages: Seq<Stage>,
) -> bool {
    let c = before.len() as int;
    let (homes, means) = stages[0].0;
    &&& stages.len() == c + 1
    &&& stages[0].1 == held
    &&& homes.len() == n
    &&& means.len() == c
    &&& nearest_homes(base, dim, measure, before, homes)
    &&& forall|d: int|
        0 <= d < c ==> if has_member(homes, d) {
            is_mean(base, dim, mean, homes, d, #[trigger] means[d])
        } else {
            means[d] == before[d]
        }
    &&& forall|d: int|
        0 <= d < c ==> #[trigger] is_mended(
            base,
            dim,
            stages[d].0,
            stages[d].1,
            d,
            stages[d + 1].0,
            stages[d + 1].1,
        )
}

/// No number exceeds infinity.
proof fn infinity_is_last(bits: u32)
    requires
        !is_nan(bits),
    ensures
        value(bits) <= value(INFINITY),
        0 <= value(INFINITY),
{
    let e = exponent(bits);
    let f = fraction(bits);
    assert(exponent(INFINITY) == 255 && fraction(INFINITY) == 0);
    assert(!crate::single::is_negative(INFINITY));
    lemma_pow2_pos(254);
    let last = pow2(254) as int;
    assert(magnitude(INFINITY) == 0x80_0000 * last);
    assert(0 <= f < 0x80_0000);
    assert(0 <= e <= 255);
    if e == 0 {
        assert(magnitude(bits) == f);
        assert(f <= 0x80_0000 * last) by (nonlinear_arith)
            requires
                last >= 1,
                0 <= f < 0x80_0000,
        ;
    } else {
        let p = pow2((e - 1) as nat) as int;
        lemma_pow2_pos((e - 1) as nat);
        assert(magnitude(bits) == (f + 0x80_0000) * p);
        if e < 255 {
            lemma_pow2_unfold(254);
            if e - 1 < 253 {
                lemma_pow2_strictly_increases((e - 1) as nat, 253);
            }
            assert(2 * p <= last);
            assert((f + 0x80_0000) * p <= 0x80_0000 * last) by (nonlinear_arith)
                requires
                    2 * p <= last,
                    0 < p,
                    0 <= f < 0x80_0000,
            ;
        } else {
            assert(f == 0);
        }
        assert(0 <= (f + 0x80_0000) * p) by (nonlinear_arith)
            requires
                0 < p,
                0 <= f,
        ;
    }
    assert(0 <= 0x80_0000 * last);
}

proof fn assigning_goes_home<M: Fn(&[u32], &[u32]) -> u32>(
    base: &VecStore,
    n: int,
    dim: int,
    measure: M,
    centroids: Seq<Seq<u32>>,
)
    requires
        0 <= n,
        0 < centroids.len() <= 0x1_0000,
    ensures
        nearest_homes(base, dim, measure, centroids, assigned(base, n, dim, measure, centroids)),
{
    let homes = assigned(base, n, dim, measure, centroids);
    let c = centroids.len() as int;
    assert forall|i: int, j: int|
        #![trigger homes[i], centroids[j]]
        0 <= i < homes.len() && 0 <= j < c implies {
        let here = centroid_distance(base, dim, measure, i, centroids[homes[i] as int]);
        let there = centroid_distance(base, dim, measure, i, centroids[j]);
        homes[i] < c && here <= there && (j < homes[i] ==> here < there)
    } by {
        let distance = |j: int| centroid_distance(base, dim, measure, i, centroids[j]);
        let top = farthest(base);
        closest_is_first(distance, top, c);
        let (best, least) = closest(distance, top, c);
        assert(homes[i] == home(base, dim, measure, centroids, i));
        assert(homes[i] == best as u16);
        assert(best == homes[i]);
        assert(distance(best) <= top) by {
            match base {
                VecStore::U8(_) => {},
                VecStore::F32(patterns) => {
                    let bits = crate::pure::pair_value(
                        measure,
                        row_of(patterns@, i, dim),
                        centroids[best],
                    );
                    if !is_nan(bits) {
                        infinity_is_last(bits);
                    }
                },
            }
        }
        assert(least <= distance(j));
        if j < best {
            assert(least < top);
            assert(least < distance(j));
        }
    }
}

/// Rows one after another, each where it belongs.
proof fn joining_lays_out(base: &VecStore, dim: int, ids: Seq<u32>)
    requires
        dim > 0,
        forall|i: int|
            0 <= i < ids.len() ==> (#[trigger] point_row(base, dim, ids[i] as int)).len() == dim,
    ensures
        joined_rows(base, dim, ids).len() == ids.len() * dim,
        forall|i: int|
            0 <= i < ids.len() ==> #[trigger] row_of(joined_rows(base, dim, ids), i, dim)
                == point_row(base, dim, ids[i] as int),
    decreases ids.len(),
{
    let rows = joined_rows(base, dim, ids);
    if ids.len() == 0 {
        assert(ids.len() * dim == 0) by (nonlinear_arith)
            requires
                ids.len() == 0,
        ;
    } else {
        let few = ids.drop_last();
        let m = few.len() as int;
        assert forall|i: int| 0 <= i < few.len() implies (#[trigger] point_row(
            base,
            dim,
            few[i] as int,
        )).len() == dim by {
            assert(few[i] == ids[i]);
            assert(point_row(base, dim, ids[i] as int).len() == dim);
        }
        joining_lays_out(base, dim, few);
        let before = joined_rows(base, dim, few);
        let last = point_row(base, dim, ids.last() as int);
        assert(point_row(base, dim, ids[m] as int).len() == dim);
        assert(m * dim + dim == (m + 1) * dim) by (nonlinear_arith);
        assert forall|i: int| 0 <= i < ids.len() implies #[trigger] row_of(rows, i, dim) == point_row(
            base,
            dim,
            ids[i] as int,
        ) by {
            assert(0 <= i * dim && (i + 1) * dim <= (m + 1) * dim && (i + 1) * dim == i * dim + dim)
                by (nonlinear_arith)
                requires
                    0 <= i <= m,
                    dim > 0,
            ;
            if i < m {
                assert((i + 1) * dim <= m * dim) by (nonlinear_arith)
                    requires
                        i + 1 <= m,
                        dim > 0,
                ;
                assert(row_of(rows, i, dim) =~= row_of(before, i, dim));
                assert(row_of(before, i, dim) == point_row(base, dim, few[i] as int));
            } else {
                assert(row_of(rows, i, dim) =~= last);
            }
        }
    }
}

/// A row of the store has `dim` coordinates.
proof fn rows_are_whole(base: &VecStore, n: int, dim: int, p: int)
    requires
        base.count() == n * dim,
        0 <= p < n,
        dim > 0,
    ensures
        point_row(base, dim, p).len() == dim,
{
    assert(0 <= p * dim && (p + 1) * dim <= n * dim && (p + 1) * dim == p * dim + dim)
        by (nonlinear_arith)
        requires
            0 <= p < n,
            dim > 0,
    ;
}

proof fn recentring_takes_means<G: Fn(&[u32], usize) -> Vec<u32>>(
    base: &VecStore,
    n: int,
    dim: int,
    mean: G,
    assignments: Seq<u16>,
    centroids: Seq<Seq<u32>>,
    d: int,
)
    requires
        base.count() == n * dim,
        dim > 0,
        assignments.len() == n <= u32::MAX,
        0 <= d < centroids.len(),
    ensures
        if has_member(assignments, d) {
            is_mean(
                base,
                dim,
                mean,
                assignments,
                d,
                recentred(base, dim, mean, assignments, centroids)[d],
            )
        } else {
            recentred(base, dim, mean, assignments, centroids)[d] == centroids[d]
        },
{
    populated(assignments, d);
    let ids = cluster(assignments, d);
    members_are_exact(assignments, d, n);
    if ids.len() > 0 {
        assert forall|i: int| 0 <= i < ids.len() implies (#[trigger] point_row(
            base,
            dim,
            ids[i] as int,
        )).len() == dim by {
            assert(ids[i] < n);
            rows_are_whole(base, n, dim, ids[i] as int);
        }
        joining_lays_out(base, dim, ids);
        let rows = joined_rows(base, dim, ids);
        assert forall|p: u32| #[trigger] ids.contains(p) <==> p < assignments.len()
            && assignments[p as int] == d by {
            if ids.contains(p) {
                let i = choose|i: int| 0 <= i < ids.len() && ids[i] == p;
                assert(ids[i] < n);
            }
            if p < n && assignments[p as int] == d {
                assert(assignments[p as int] == d);
            }
        }
        assert(lays_out(base, dim, assignments, d, ids, rows));
    }
}

proof fn reseeding_mends(
    base: &VecStore,
    dim: int,
    state: State,
    held: Seq<u32>,
    d: int,
    pick: int,
    left: Seq<u32>,
)
    requires
        state.0.len() <= u32::MAX,
        0 <= d < state.1.len(),
        forall|i: int| 0 <= i < state.0.len() ==> #[trigger] state.0[i] < state.1.len(),
        0 <= pick < cluster(state.0, donor(state.0, state.1.len() as int)).len(),
        ({
            let all = cluster(state.0, donor(state.0, state.1.len() as int));
            let drawn = draw(held, all.len(), usize::BITS as nat);
            if cluster(state.0, d).len() > 0 {
                left == held
            } else {
                pick == drawn.0 && left == drawn.1
            }
        }),
    ensures
        is_mended(base, dim, state, held, d, reseeded(base, dim, state, d, pick), left),
{
    populated(state.0, d);
    if !has_member(state.0, d) {
        let c = state.1.len() as int;
        let from = donor(state.0, c);
        donor_is_largest(state.0, c);
        members_are_exact(state.0, from, state.0.len() as int);
        let p = cluster(state.0, from)[pick] as int;
        assert(cluster(state.0, from)[pick] < state.0.len());
        assert(state.0[p] == from);
        donor_is_last(state.0, c);
        assert(in_largest(state.0, c, p));
    }
}

/// The donor is the last one of several largest clusters.
proof fn donor_is_last(assignments: Seq<u16>, count: int)
    requires
        count > 0,
    ensures
        forall|e: int|
            donor(assignments, count) < e < count ==> (#[trigger] cluster(assignments, e)).len()
                < cluster(assignments, donor(assignments, count)).len(),
    decreases count,
{
    if count > 1 {
        donor_is_last(assignments, count - 1);
        donor_is_largest(assignments, count - 1);
    }
}

proof fn repairing_mends(
    base: &VecStore,
    dim: int,
    state: State,
    picks: Seq<int>,
    held: Seq<u32>,
    d: int,
)
    requires
        state.0.len() <= u32::MAX,
        0 <= d < state.1.len() <= state.0.len(),
        state.1.len() <= 0x1_0000,
        forall|i: int| 0 <= i < state.0.len() ==> #[trigger] state.0[i] < state.1.len(),
        forall|e: int| 0 <= e <= d ==> #[trigger] pick_fits(base, dim, state, picks, e),
        forall|e: int|
            0 <= e <= d ==> #[trigger] pick_is_drawn(base, dim, state, picks, held, e),
    ensures
        is_mended(
            base,
            dim,
            repaired(base, dim, state, picks, d),
            after_picks(base, dim, state, picks, held, d),
            d,
            repaired(base, dim, state, picks, d + 1),
            after_picks(base, dim, state, picks, held, d + 1),
        ),
        ({
            let after = repaired(base, dim, state, picks, d + 1);
            &&& after.0.len() == state.0.len()
            &&& after.1.len() == state.1.len()
            &&& forall|i: int| 0 <= i < state.0.len() ==> #[trigger] after.0[i] < state.1.len()
        }),
    decreases d,
{
    if d > 0 {
        assert forall|e: int| 0 <= e <= d - 1 implies #[trigger] pick_fits(
            base,
            dim,
            state,
            picks,
            e,
        ) by {}
        assert forall|e: int| 0 <= e <= d - 1 implies #[trigger] pick_is_drawn(
            base,
            dim,
            state,
            picks,
            held,
            e,
        ) by {}
        repairing_mends(base, dim, state, picks, held, d - 1);
    }
    let before = repaired(base, dim, state, picks, d);
    assert(pick_fits(base, dim, state, picks, d));
    assert(pick_is_drawn(base, dim, state, picks, held, d));
    reseeding_mends(
        base,
        dim,
        before,
        after_picks(base, dim, state, picks, held, d),
        d,
        picks[d],
        after_picks(base, dim, state, picks, held, d + 1),
    );
    reseeding_fills(base, dim, before, d, picks[d]);
}

/// The rounds of a clustering, each from where the one before ended.
pub open spec fn rounds_follow<M: Fn(&[u32], &[u32]) -> u32, G: Fn(&[u32], usize) -> Vec<u32>>(
    base: &VecStore,
    n: int,
    dim: int,
    measure: M,
    mean: G,
    start: Seq<Seq<u32>>,
    held: Seq<u32>,
    rounds: Seq<Seq<Stage>>,
) -> bool {
    forall|t: int|
        0 <= t < rounds.len() ==> round_follows(
            base,
            n,
            dim,
            measure,
            mean,
            if t == 0 {
                start
            } else {
                rounds[t - 1].last().0.1
            },
            if t == 0 {
                held
            } else {
                rounds[t - 1].last().1
            },
            #[trigger] rounds[t],
        )
}

/// The centroids are rows of different points, those that a shuffle puts first.
pub open spec fn starts_apart(
    base: &VecStore,
    n: int,
    dim: int,
    ids: Seq<usize>,
    start: Seq<Seq<u32>>,
) -> bool {
    &&& ids.len() == start.len()
    &&& ids.no_duplicates()
    &&& forall|j: int|
        0 <= j < ids.len() ==> #[trigger] ids[j] < n && start[j] == point_row(
            base,
            dim,
            ids[j] as int,
        ) && ids[j] == arrange(started(42), n as nat).0[j]
}

/// Centroids and points as so many rounds leave them, from centroids at rows of
/// different points.
pub open spec fn comes_of_rounds<M: Fn(&[u32], &[u32]) -> u32, G: Fn(&[u32], usize) -> Vec<u32>>(
    base: &VecStore,
    n: int,
    dim: int,
    c: int,
    iters: int,
    measure: M,
    mean: G,
    state: State,
) -> bool {
    exists|ids: Seq<usize>, start: Seq<Seq<u32>>, rounds: Seq<Seq<Stage>>|
        #![trigger
            starts_apart(base, n, dim, ids, start),
            rounds_follow(
                base,
                n,
                dim,
                measure,
                mean,
                start,
                arrange(started(42), n as nat).1,
                rounds,
            )
        ]
        starts_apart(base, n, dim, ids, start) && rounds_follow(
            base,
            n,
            dim,
            measure,
            mean,
            start,
            arrange(started(42), n as nat).1,
            rounds,
        ) && start.len() == c && rounds.len() == iters && rounds.last().last().0 == state
}

/// The rounds of a clustering, told from stage to stage.
pub proof fn clusterings_follow_rounds<
    M: Fn(&[u32], &[u32]) -> u32,
    G: Fn(&[u32], usize) -> Vec<u32>,
>(
    base: &VecStore,
    n: int,
    dim: int,
    iters: int,
    measure: M,
    mean: G,
    ids: Seq<usize>,
    start: Seq<Seq<u32>>,
    picks: Seq<Seq<int>>,
    held: Seq<u32>,
)
    requires
        base.count() == n * dim,
        dim > 0,
        0 < start.len() <= n <= u32::MAX,
        start.len() <= 0x1_0000,
        iters > 0,
        starts_apart(base, n, dim, ids, start),
        held == arrange(started(42), n as nat).1,
        forall|r: int|
            0 <= r < iters ==> #[trigger] round_fits(
                base,
                n,
                dim,
                measure,
                mean,
                start,
                picks,
                held,
                r,
            ),
    ensures
        comes_of_rounds(
            base,
            n,
            dim,
            start.len() as int,
            iters,
            measure,
            mean,
            after_rounds(base, n, dim, measure, mean, start, picks, iters),
        ),
{
    let c = start.len() as int;
    let rounds = Seq::new(
        iters as nat,
        |t: int|
            Seq::new(
                (c + 1) as nat,
                |d: int|
                    stage_of(
                        base,
                        dim,
                        one_round(
                            base,
                            n,
                            dim,
                            measure,
                            mean,
                            after_rounds(base, n, dim, measure, mean, start, picks, t).1,
                        ),
                        picks[t],
                        after_draws(base, n, dim, measure, mean, start, picks, held, t),
                        d,
                    ),
            ),
    );
    assert forall|t: int| 0 <= t < iters implies (#[trigger] rounds[t]).last() == (
        after_rounds(base, n, dim, measure, mean, start, picks, t + 1),
        after_draws(base, n, dim, measure, mean, start, picks, held, t + 1),
    ) by {}
    assert forall|t: int| 0 <= t < rounds.len() implies round_follows(
        base,
        n,
        dim,
        measure,
        mean,
        if t == 0 {
            start
        } else {
            rounds[t - 1].last().0.1
        },
        if t == 0 {
            held
        } else {
            rounds[t - 1].last().1
        },
        #[trigger] rounds[t],
    ) by {
        let before = after_rounds(base, n, dim, measure, mean, start, picks, t);
        let drawn = after_draws(base, n, dim, measure, mean, start, picks, held, t);
        if t > 0 {
            assert(rounds[t - 1].last() == (before, drawn));
        }
        rounds_keep_count(base, n, dim, measure, mean, start, picks, held, iters, t);
        let first = one_round(base, n, dim, measure, mean, before.1);
        assert(round_fits(base, n, dim, measure, mean, start, picks, held, t));
        round_goes_on(base, n, dim, measure, mean, before.1, picks[t], drawn);
        assert(rounds[t] =~= Seq::new(
            (c + 1) as nat,
            |d: int| stage_of(base, dim, first, picks[t], drawn, d),
        ));
    }
    assert(rounds_follow(base, n, dim, measure, mean, start, held, rounds));
    assert(rounds.last() == rounds[iters - 1]);
}

/// Where a repair stands when cluster `d` comes up.
spec fn stage_of(
    base: &VecStore,
    dim: int,
    state: State,
    picks: Seq<int>,
    held: Seq<u32>,
    d: int,
) -> Stage {
    (repaired(base, dim, state, picks, d), after_picks(base, dim, state, picks, held, d))
}

/// One round, told from stage to stage.
proof fn round_goes_on<M: Fn(&[u32], &[u32]) -> u32, G: Fn(&[u32], usize) -> Vec<u32>>(
    base: &VecStore,
    n: int,
    dim: int,
    measure: M,
    mean: G,
    before: Seq<Seq<u32>>,
    some: Seq<int>,
    held: Seq<u32>,
)
    requires
        base.count() == n * dim,
        dim > 0,
        0 < before.len() <= n <= u32::MAX,
        before.len() <= 0x1_0000,
        forall|d: int|
            0 <= d < before.len() ==> #[trigger] pick_fits(
                base,
                dim,
                one_round(base, n, dim, measure, mean, before),
                some,
                d,
            ),
        forall|d: int|
            0 <= d < before.len() ==> #[trigger] pick_is_drawn(
                base,
                dim,
                one_round(base, n, dim, measure, mean, before),
                some,
                held,
                d,
            ),
    ensures
        round_follows(
            base,
            n,
            dim,
            measure,
            mean,
            before,
            held,
            Seq::new(
                (before.len() + 1) as nat,
                |d: int|
                    stage_of(
                        base,
                        dim,
                        one_round(base, n, dim, measure, mean, before),
                        some,
                        held,
                        d,
                    ),
            ),
        ),
{
    let c = before.len() as int;
    let first = one_round(base, n, dim, measure, mean, before);
    let stages = Seq::new((c + 1) as nat, |d: int| stage_of(base, dim, first, some, held, d));
    assigning_goes_home(base, n, dim, measure, before);
    rounds_assign(base, n, dim, measure, mean, before);
    assert forall|d: int| 0 <= d < c implies if has_member(first.0, d) {
        is_mean(base, dim, mean, first.0, d, #[trigger] first.1[d])
    } else {
        first.1[d] == before[d]
    } by {
        recentring_takes_means(base, n, dim, mean, first.0, before, d);
    }
    assert forall|d: int| 0 <= d < c implies #[trigger] is_mended(
        base,
        dim,
        stages[d].0,
        stages[d].1,
        d,
        stages[d + 1].0,
        stages[d + 1].1,
    ) by {
        assert forall|e: int| 0 <= e <= d implies #[trigger] pick_fits(base, dim, first, some, e) by {}
        assert forall|e: int| 0 <= e <= d implies #[trigger] pick_is_drawn(
            base,
            dim,
            first,
            some,
            held,
            e,
        ) by {}
        repairing_mends(base, dim, first, some, held, d);
    }
    assert(stages[0] == (first, held));
}

/// The coordinates of all points, as bit patterns.
pub open spec fn all_coordinates(base: &VecStore) -> Seq<u32> {
    match base {
        VecStore::U8(bytes) => bytes@.map_values(|byte: u8| pattern_of_byte(byte)),
        VecStore::F32(patterns) => patterns@,
    }
}

/// A single cluster holds all points, and its centroid is the mean of them all,
/// after every round.
pub proof fn one_cluster_has_the_mean<
    M: Fn(&[u32], &[u32]) -> u32,
    G: Fn(&[u32], usize) -> Vec<u32>,
>(
    base: &VecStore,
    n: int,
    dim: int,
    iters: int,
    measure: M,
    mean: G,
    state: State,
)
    requires
        comes_of_rounds(base, n, dim, 1, iters, measure, mean, state),
        base.count() == n * dim,
        dim > 0,
        0 < n <= u32::MAX,
        iters > 0,
    ensures
        state.0.len() == n,
        forall|i: int| 0 <= i < n ==> #[trigger] state.0[i] == 0,
        state.1 == seq![mean_of(mean, all_coordinates(base), dim as usize)],
{
    let (ids, start, rounds) = choose|
        ids: Seq<usize>,
        start: Seq<Seq<u32>>,
        rounds: Seq<Seq<Stage>>,
    |
        #![trigger
            starts_apart(base, n, dim, ids, start),
            rounds_follow(
                base,
                n,
                dim,
                measure,
                mean,
                start,
                arrange(started(42), n as nat).1,
                rounds,
            )
        ]
        starts_apart(base, n, dim, ids, start) && rounds_follow(
            base,
            n,
            dim,
            measure,
            mean,
            start,
            arrange(started(42), n as nat).1,
            rounds,
        ) && start.len() == 1 && rounds.len() == iters && rounds.last().last().0 == state;
    let began = arrange(started(42), n as nat).1;
    single_rounds(base, n, dim, measure, mean, start, began, rounds, iters - 1);
    let t = iters - 1;
    let before = if t == 0 {
        start
    } else {
        rounds[t - 1].last().0.1
    };
    let held = if t == 0 {
        began
    } else {
        rounds[t - 1].last().1
    };
    let stages = rounds[t];
    if t > 0 {
        single_rounds(base, n, dim, measure, mean, start, began, rounds, t - 1);
    }
    assert(round_follows(base, n, dim, measure, mean, before, held, stages));
    let homes = stages[0].0.0;
    assert forall|i: int| 0 <= i < n implies #[trigger] homes[i] == 0 by {
        let one = before[0];
    }
    assert(has_member(homes, 0)) by {
        assert(homes[0] == 0);
    }
    assert(is_mended(
        base,
        dim,
        stages[0].0,
        stages[0].1,
        0,
        stages[0int + 1].0,
        stages[0int + 1].1,
    ));
    assert(stages.last().0 == stages[0].0);
    let means = stages[0].0.1;
    assert(is_mean(base, dim, mean, homes, 0, means[0]));
    let (all, rows) = choose|all: Seq<u32>, rows: Seq<u32>| #[trigger]
        lays_out(base, dim, homes, 0, all, rows) && means[0] == mean_of(
            mean,
            rows,
            dim as usize,
        );
    whole_layout(base, n, dim, homes, all, rows);
    assert(state.1 =~= seq![mean_of(mean, all_coordinates(base), dim as usize)]);
}

proof fn single_rounds<M: Fn(&[u32], &[u32]) -> u32, G: Fn(&[u32], usize) -> Vec<u32>>(
    base: &VecStore,
    n: int,
    dim: int,
    measure: M,
    mean: G,
    start: Seq<Seq<u32>>,
    began: Seq<u32>,
    rounds: Seq<Seq<Stage>>,
    t: int,
)
    requires
        rounds_follow(base, n, dim, measure, mean, start, began, rounds),
        start.len() == 1,
        0 < n,
        0 <= t < rounds.len(),
    ensures
        rounds[t].len() == 2,
        rounds[t].last().0.1.len() == 1,
    decreases t,
{
    if t > 0 {
        single_rounds(base, n, dim, measure, mean, start, began, rounds, t - 1);
    }
    let before = if t == 0 {
        start
    } else {
        rounds[t - 1].last().0.1
    };
    let held = if t == 0 {
        began
    } else {
        rounds[t - 1].last().1
    };
    let stages = rounds[t];
    assert(round_follows(base, n, dim, measure, mean, before, held, stages));
    assert(is_mended(
        base,
        dim,
        stages[0].0,
        stages[0].1,
        0,
        stages[0int + 1].0,
        stages[0int + 1].1,
    ));
}

/// The rows of all points are the coordinates as they are stored.
proof fn whole_layout(
    base: &VecStore,
    n: int,
    dim: int,
    homes: Seq<u16>,
    ids: Seq<u32>,
    rows: Seq<u32>,
)
    requires
        lays_out(base, dim, homes, 0, ids, rows),
        base.count() == n * dim,
        dim > 0,
        homes.len() == n <= u32::MAX,
        forall|i: int| 0 <= i < n ==> #[trigger] homes[i] == 0,
    ensures
        rows == all_coordinates(base),
{
    let plain = Seq::new(n as nat, |i: int| i as u32);
    assert forall|p: u32| ids.contains(p) <==> plain.contains(p) by {
        if p < n {
            assert(plain[p as int] == p);
            assert(homes[p as int] == 0);
        }
        if plain.contains(p) {
            let i = choose|i: int| 0 <= i < plain.len() && plain[i] == p;
        }
    }
    ascending_is_unique(ids, plain);
    let flat = all_coordinates(base);
    assert(flat.len() == n * dim);
    assert forall|k: int| 0 <= k < rows.len() implies rows[k] == flat[k] by {
        let i = k / dim;
        let r = k % dim;
        assert(0 <= i < n && 0 <= r < dim && k == i * dim + r && (i + 1) * dim == i * dim + dim && (i
            + 1) * dim <= n * dim && 0 <= i * dim) by (nonlinear_arith)
            requires
                0 <= k < n * dim,
                dim > 0,
                i == k / dim,
                r == k % dim,
        ;
        assert(ids[i] == i);
        assert(row_of(rows, i, dim)[r] == rows[k]);
        assert(point_row(base, dim, i)[r] == flat[k]);
        assert(row_of(rows, i, dim) == point_row(base, dim, ids[i] as int));
    }
    assert(rows =~= flat);
}

proof fn rounds_assign<M: Fn(&[u32], &[u32]) -> u32, G: Fn(&[u32], usize) -> Vec<u32>>(
    base: &VecStore,
    n: int,
    dim: int,
    measure: M,
    mean: G,
    centroids: Seq<Seq<u32>>,
)
    requires
        0 <= n,
        0 < centroids.len() <= 0x1_0000,
    ensures
        ({
            let first = one_round(base, n, dim, measure, mean, centroids);
            &&& first.0.len() == n
            &&& first.1.len() == centroids.len()
            &&& forall|i: int| 0 <= i < n ==> #[trigger] first.0[i] < centroids.len()
        }),
{
    let first = one_round(base, n, dim, measure, mean, centroids);
    assigning_goes_home(base, n, dim, measure, centroids);
    assert forall|i: int| 0 <= i < n implies #[trigger] first.0[i] < centroids.len() by {
        let probe = centroids[0];
    }
}

proof fn rounds_keep_count<M: Fn(&[u32], &[u32]) -> u32, G: Fn(&[u32], usize) -> Vec<u32>>(
    base: &VecStore,
    n: int,
    dim: int,
    measure: M,
    mean: G,
    start: Seq<Seq<u32>>,
    picks: Seq<Seq<int>>,
    held: Seq<u32>,
    iters: int,
    t: int,
)
    requires
        0 <= t <= iters,
        0 < start.len() <= n <= u32::MAX,
        start.len() <= 0x1_0000,
        forall|r: int|
            0 <= r < iters ==> #[trigger] round_fits(
                base,
                n,
                dim,
                measure,
                mean,
                start,
                picks,
                held,
                r,
            ),
    ensures
        after_rounds(base, n, dim, measure, mean, start, picks, t).1.len() == start.len(),
    decreases t,
{
    if t > 0 {
        rounds_keep_count(base, n, dim, measure, mean, start, picks, held, iters, t - 1);
        let before = after_rounds(base, n, dim, measure, mean, start, picks, t - 1);
        let first = one_round(base, n, dim, measure, mean, before.1);
        rounds_assign(base, n, dim, measure, mean, before.1);
        assert(round_fits(base, n, dim, measure, mean, start, picks, held, t - 1));
        let c = start.len() as int;
        assert forall|e: int| 0 <= e <= c - 1 implies #[trigger] pick_fits(
            base,
            dim,
            first,
            picks[t - 1],
            e,
        ) by {}
        let drawn = after_draws(base, n, dim, measure, mean, start, picks, held, t - 1);
        assert forall|e: int| 0 <= e <= c - 1 implies #[trigger] pick_is_drawn(
            base,
            dim,
            first,
            picks[t - 1],
            drawn,
            e,
        ) by {}
        repairing_mends(base, dim, first, picks[t - 1], drawn, c - 1);
    }
}

} // verus!
