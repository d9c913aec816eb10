//! Which points of other cells a point is linked to.
//!
//! A cell looks to the cells whose entries are nearest.  Of their points the
//! nearest ones are measured, and of these a point takes one after the other the
//! one that is worth most.

use vstd::prelude::*;
use crate::config::PrismConfig;
use crate::covering::{
    agree, candidate_score, choice_rounds, choices_are_distinct, chosen, ids_at, is_new, leader,
    new_tuples, NEGATIVE_INFINITY,
};
use crate::cross::{
    all_contributed, cell_scores, cell_share, cell_width, contributed, cross_neighbors, exact_order,
    exactly_nearest, pool_size, ranked_cells, ranked_cells_are_foreign, scan_scores, strata_split,
    stratum_cell, target_count, targets_of,
};
use crate::distance::Metric;
use crate::explore::{code_walks_explore, explored};
use crate::graph::Graph;
use crate::order::{arranged, arranged_holds, arranged_is_sorted, lowest, Ranked};
use crate::partition::Cell;
use crate::point::PointStore;
use crate::pure::{of3, Measure};
use crate::quantize::SQ8Store;
use crate::select::{rank_orders_distances, Scored};
use crate::single::{is_nan, less, order_of, pattern_of_count, value};
use crate::thorough::nearest_few;
use crate::walk::{beam_found, code_key};

verus! {

/// The projections of `q` that none of some points has.
pub open spec fn fresh_projections(
    store: &PointStore,
    q: u32,
    others: Seq<u32>,
    subsets: Seq<Vec<usize>>,
) -> Set<int> {
    Set::new(
        |r: int|
            0 <= r < subsets.len() && forall|j: int|
                0 <= j < others.len() ==> !agree(store, q, #[trigger] others[j], subsets[r]@),
    )
}

/// What candidate `i` is worth after some were taken: as much as it brings
/// projections that none of these has, weighed with its distance.
pub open spec fn worth<W: Fn(u32, usize, u32) -> u32>(
    store: &PointStore,
    candidates: Seq<(u32, u32)>,
    subsets: Seq<Vec<usize>>,
    alpha: u32,
    score: W,
    taken: Seq<int>,
    i: int,
) -> u32 {
    let (q, distance) = candidates[i];
    let others = Seq::new(taken.len(), |j: int| candidates[taken[j]].0);
    let count = fresh_projections(store, q, others, subsets).len();
    if value(alpha) == 0 || value(distance) == 0 {
        pattern_of_count(count as int)
    } else {
        of3(score, alpha, count as usize, distance)
    }
}

/// Of the candidates that are not taken yet none is worth more than `i`, and the
/// ones before it are worth less.
pub open spec fn is_worth_most<W: Fn(u32, usize, u32) -> u32>(
    store: &PointStore,
    candidates: Seq<(u32, u32)>,
    subsets: Seq<Vec<usize>>,
    alpha: u32,
    score: W,
    taken: Seq<int>,
    i: int,
) -> bool {
    let best = worth(store, candidates, subsets, alpha, score, taken, i);
    &&& less(NEGATIVE_INFINITY, best)
    &&& forall|j: int|
        0 <= j < candidates.len() && !(#[trigger] taken.contains(j)) ==> {
            let other = worth(store, candidates, subsets, alpha, score, taken, j);
            !less(best, other) && (j < i ==> is_nan(other) || less(other, best))
        }
}

/// The candidates at the positions in `taken` were taken one after the other,
/// each the one that is worth most, up to the limit or until none is worth
/// anything.
pub open spec fn well_chosen<W: Fn(u32, usize, u32) -> u32>(
    store: &PointStore,
    candidates: Seq<(u32, u32)>,
    subsets: Seq<Vec<usize>>,
    alpha: u32,
    score: W,
    limit: int,
    taken: Seq<int>,
) -> bool {
    &&& taken.no_duplicates()
    &&& taken.len() <= limit
    &&& taken.len() <= candidates.len()
    &&& forall|r: int|
        0 <= r < taken.len() ==> 0 <= #[trigger] taken[r] < candidates.len() && is_worth_most(
            store,
            candidates,
            subsets,
            alpha,
            score,
            taken.take(r),
            taken[r],
        )
    &&& taken.len() < limit && taken.len() < candidates.len() ==> forall|j: int|
        0 <= j < candidates.len() && !(#[trigger] taken.contains(j)) ==> !less(
            NEGATIVE_INFINITY,
            worth(store, candidates, subsets, alpha, score, taken, j),
        )
}

proof fn tuples_are_counted(
    store: &PointStore,
    q: u32,
    others: Seq<u32>,
    subsets: Seq<Vec<usize>>,
    upto: int,
)
    requires
        0 <= upto <= subsets.len(),
    ensures
        ({
            let some = fresh_projections(store, q, others, subsets.take(upto));
            some.finite() && new_tuples(store, q, others, subsets, upto) == some.len()
        }),
    decreases upto,
{
    let some = fresh_projections(store, q, others, subsets.take(upto));
    if upto == 0 {
        assert(some =~= Set::empty());
    } else {
        tuples_are_counted(store, q, others, subsets, upto - 1);
        let few = fresh_projections(store, q, others, subsets.take(upto - 1));
        let r = upto - 1;
        if is_new(store, q, others, subsets[r]@) {
            assert(some =~= few.insert(r));
        } else {
            assert(some =~= few);
        }
    }
}

proof fn scores_are_worth<W: Fn(u32, usize, u32) -> u32>(
    store: &PointStore,
    candidates: Seq<(u32, u32)>,
    subsets: Seq<Vec<usize>>,
    alpha: u32,
    score: W,
    taken: Seq<int>,
    i: int,
)
    ensures
        candidate_score(store, candidates, subsets, alpha, score, taken, i) == worth(
            store,
            candidates,
            subsets,
            alpha,
            score,
            taken,
            i,
        ),
{
    let others = Seq::new(taken.len(), |j: int| candidates[taken[j]].0);
    assert(ids_at(candidates, taken) =~= others);
    tuples_are_counted(store, candidates[i].0, others, subsets, subsets.len() as int);
    assert(subsets.take(subsets.len() as int) =~= subsets);
}

/// The leader scores highest.
proof fn leader_leads(score: spec_fn(int) -> u32, taken: Seq<int>, upto: int)
    requires
        0 <= upto,
    ensures
        ({
            let (best, high) = leader(score, taken, upto);
            match best {
                Some(i) => {
                    &&& 0 <= i < upto
                    &&& !taken.contains(i)
                    &&& high == score(i)
                    &&& less(NEGATIVE_INFINITY, high)
                    &&& forall|j: int|
                        0 <= j < upto && !(#[trigger] taken.contains(j)) ==> !less(
                            high,
                            score(j),
                        ) && (j < i ==> is_nan(score(j)) || less(score(j), high))
                },
                None => high == NEGATIVE_INFINITY && forall|j: int|
                    0 <= j < upto && !(#[trigger] taken.contains(j)) ==> !less(
                        NEGATIVE_INFINITY,
                        score(j),
                    ),
            }
        }),
    decreases upto,
{
    if upto > 0 {
        leader_leads(score, taken, upto - 1);
    }
}

/// Choices are greedy.
proof fn choosing_chooses_well<W: Fn(u32, usize, u32) -> u32>(
    store: &PointStore,
    candidates: Seq<(u32, u32)>,
    subsets: Seq<Vec<usize>>,
    alpha: u32,
    score: W,
    rounds: int,
)
    requires
        0 <= rounds <= candidates.len(),
    ensures
        well_chosen(
            store,
            candidates,
            subsets,
            alpha,
            score,
            rounds,
            chosen(store, candidates, subsets, alpha, score, rounds),
        ),
    decreases rounds,
{
    let taken = chosen(store, candidates, subsets, alpha, score, rounds);
    choices_are_distinct(store, candidates, subsets, alpha, score, rounds);
    if rounds > 0 {
        choosing_chooses_well(store, candidates, subsets, alpha, score, rounds - 1);
        let before = chosen(store, candidates, subsets, alpha, score, rounds - 1);
        let count = candidates.len() as int;
        let scored = |i: int|
            candidate_score(store, candidates, subsets, alpha, score, before, i);
        leader_leads(scored, before, count);
        assert forall|j: int| #[trigger] scored(j) == worth(
            store,
            candidates,
            subsets,
            alpha,
            score,
            before,
            j,
        ) by {
            scores_are_worth(store, candidates, subsets, alpha, score, before, j);
        }
        match leader(scored, before, count).0 {
            Some(i) => {
                assert(is_worth_most(store, candidates, subsets, alpha, score, before, i)) by {
                    let best = scored(i);
                    assert forall|j: int| 0 <= j < count && !(#[trigger] before.contains(j)) implies {
                        let other = worth(store, candidates, subsets, alpha, score, before, j);
                        !less(best, other) && (j < i ==> is_nan(other) || less(other, best))
                    } by {
                        assert(!less(best, scored(j)));
                    }
                }
                assert forall|r: int| 0 <= r < taken.len() implies 0 <= #[trigger] taken[r]
                    < candidates.len() && is_worth_most(
                    store,
                    candidates,
                    subsets,
                    alpha,
                    score,
                    taken.take(r),
                    taken[r],
                ) by {
                    assert(taken.take(r) =~= before.take(r));
                    if r < before.len() {
                        assert(before[r] == taken[r]);
                    } else {
                        assert(before.take(r) =~= before);
                    }
                }
                if taken.len() < rounds {
                    assert(before.len() < rounds - 1);
                    assert(!before.contains(i));
                    assert(!less(
                        NEGATIVE_INFINITY,
                        worth(store, candidates, subsets, alpha, score, before, i),
                    ));
                    assert(less(NEGATIVE_INFINITY, scored(i)));
                    assert(false);
                }
            },
            None => {
                assert(taken == before);
                assert forall|j: int| 0 <= j < count && !(#[trigger] before.contains(j)) implies !less(
                    NEGATIVE_INFINITY,
                    worth(store, candidates, subsets, alpha, score, before, j),
                ) by {
                    assert(!less(NEGATIVE_INFINITY, scored(j)));
                }
            },
        }
    }
}

/// The lowest-scored ones are the nearest ones.
proof fn lowest_are_nearest(distance: spec_fn(u32) -> u64, from: Seq<u32>, k: int)
    requires
        from.no_duplicates(),
        0 <= k,
    ensures
        nearest_few(
            |q: u32| distance(q) as int,
            from,
            k,
            lowest(from.map_values(|q: u32| (distance(q), q)), k).map_values(
                |entry: Scored| entry.1,
            ),
        ),
{
    let scores = from.map_values(|q: u32| (distance(q), q));
    let order = arranged(scores);
    let low = lowest(scores, k);
    let out = low.map_values(|entry: Scored| entry.1);
    arranged_is_sorted(scores);
    assert forall|i: int| 0 <= i < low.len() implies #[trigger] low[i] == order[i] by {}
    assert(scores.no_duplicates()) by {
        assert forall|i: int, j: int| 0 <= i < scores.len() && 0 <= j < scores.len() && i != j implies scores[i]
            != scores[j] by {
            assert(from[i] != from[j]);
        }
    }
    scores.lemma_multiset_has_no_duplicates();
    order.lemma_multiset_has_no_duplicates_conv();
    assert forall|i: int| 0 <= i < order.len() implies from.contains((#[trigger] order[i]).1)
        && order[i].0 == distance(order[i].1) by {
        arranged_holds(scores, order[i]);
        assert(order.contains(order[i]));
        let j = choose|j: int| 0 <= j < scores.len() && scores[j] == order[i];
        assert(from[j] == order[i].1);
    }
    assert forall|i: int| 0 <= i < out.len() implies from.contains(#[trigger] out[i]) by {
        assert(low[i] == order[i]);
    }
    assert forall|i: int, j: int| 0 <= i < out.len() && 0 <= j < out.len() && i != j implies out[i]
        != out[j] by {
        assert(order[i] != order[j]);
        assert(low[i] == order[i] && low[j] == order[j]);
    }
    assert forall|q: u32, i: int|
        #![trigger from.contains(q), out[i]]
        from.contains(q) && !out.contains(q) && 0 <= i < out.len() implies distance(out[i])
        <= distance(q) by {
        let j = choose|j: int| 0 <= j < from.len() && from[j] == q;
        arranged_holds(scores, scores[j]);
        assert(scores.contains(scores[j]));
        let m = choose|m: int| 0 <= m < order.len() && order[m] == scores[j];
        if m < low.len() {
            assert(low[m] == order[m]);
            assert(out[m] == q);
        }
        assert(low[i] == order[i]);
        assert(order[i].rank() <= order[m].rank());
        rank_orders_distances(order[i], order[m]);
    }
}

/// The cells that cell `source` looks to.
///
/// `pool` are the cells that were considered: all others where these are few
/// enough to rank them all, otherwise one of each stretch of them.  Of these the
/// ones with the nearest entries were taken.
pub open spec fn well_targeted<Q: Fn(&[u8], &[u8], &[u32]) -> u32>(
    sq8: &SQ8Store,
    compare: Q,
    medoids: Seq<u32>,
    config: &PrismConfig,
    beam: int,
    source: int,
    pool: Seq<u32>,
    targets: Seq<u32>,
) -> bool {
    let others = medoids.len() - 1;
    let size = targets.len() as int;
    &&& size <= others && size <= beam && (size <= 4 || size <= config.m_greedy)
    &&& size == others || size == beam || (size >= 4 && size >= config.m_greedy)
    &&& pool.no_duplicates()
    &&& forall|i: int|
        0 <= i < pool.len() ==> #[trigger] pool[i] < medoids.len() && pool[i] != source
    &&& if 0 < config.cross_cell_exact_ranking_limit && medoids.len()
        <= config.cross_cell_exact_ranking_limit {
        forall|c: u32| c < medoids.len() && c != source ==> #[trigger] pool.contains(c)
    } else {
        &&& pool.len() <= others
        &&& pool.len() == others || (pool.len() >= beam && pool.len() >= 4 * size && (pool.len()
            == beam || pool.len() == 4 * size))
        &&& forall|i: int|
            0 <= i < pool.len() ==> i * others / (pool.len() as int) <= place_among(
                #[trigger] pool[i] as int,
                source,
            ) < (i + 1) * others / (pool.len() as int)
    }
    &&& nearest_few(
        |c: u32| code_key(sq8, compare, medoids[source], medoids[c as int]) as int,
        pool,
        size,
        targets,
    )
}

/// The place of a cell among all cells but `source`.
pub open spec fn place_among(c: int, source: int) -> int {
    if c > source {
        c - 1
    } else {
        c
    }
}

/// The cells that are ranked, as numbers.
spec fn pool_of(config: &PrismConfig, count: int, beam: int, source: int) -> Seq<u32> {
    ranked_cells(config, count, beam, source).map_values(|c: int| c as u32)
}

proof fn strata_are_apart(a: int, b: int, foreign: int, pool: int)
    requires
        0 <= a < b < pool <= foreign,
    ensures
        (a + 1) * foreign / pool <= b * foreign / pool,
{
    assert((a + 1) * foreign <= b * foreign) by (nonlinear_arith)
        requires
            a + 1 <= b,
            foreign >= 0,
    ;
    vstd::arithmetic::div_mod::lemma_div_is_ordered((a + 1) * foreign, b * foreign, pool);
}

proof fn pools_are_spread(config: &PrismConfig, count: int, beam: int, source: int)
    requires
        1 < count <= u32::MAX,
        0 < beam,
        0 <= source < count,
    ensures
        ({
            let pool = pool_of(config, count, beam, source);
            let others = count - 1;
            let size = target_count(count, config.m_greedy as int, beam);
            &&& pool.no_duplicates()
            &&& forall|i: int|
                0 <= i < pool.len() ==> #[trigger] pool[i] < count && pool[i] != source
            &&& if 0 < config.cross_cell_exact_ranking_limit && count
                <= config.cross_cell_exact_ranking_limit {
                forall|c: u32| c < count && c != source ==> #[trigger] pool.contains(c)
            } else {
                &&& pool.len() == pool_size(count, size, beam)
                &&& forall|i: int|
                    0 <= i < pool.len() ==> i * others / (pool.len() as int) <= place_among(
                        #[trigger] pool[i] as int,
                        source,
                    ) < (i + 1) * others / (pool.len() as int)
            }
        }),
{
    let cells = ranked_cells(config, count, beam, source);
    let pool = pool_of(config, count, beam, source);
    let others = count - 1;
    let size = target_count(count, config.m_greedy as int, beam);
    ranked_cells_are_foreign(config, count, beam, source);
    assert forall|i: int| 0 <= i < pool.len() implies #[trigger] pool[i] < count && pool[i] != source
        && pool[i] == cells[i] by {
        assert(0 <= cells[i] < count);
    }
    if 0 < config.cross_cell_exact_ranking_limit && count <= config.cross_cell_exact_ranking_limit {
        assert forall|c: u32| c < count && c != source implies #[trigger] pool.contains(c) by {
            assert(pool[place_among(c as int, source)] == c);
        }
        assert forall|i: int, j: int| 0 <= i < pool.len() && 0 <= j < pool.len() && i != j implies pool[i]
            != pool[j] by {
            assert(pool[i] == cells[i] && pool[j] == cells[j]);
        }
    } else {
        let p = pool_size(count, size, beam);
        assert(pool.len() == p);
        assert forall|i: int| 0 <= i < pool.len() implies i * others / (pool.len() as int)
            <= place_among(#[trigger] pool[i] as int, source) < (i + 1) * others / (pool.len() as int) by {
            strata_split(i, others, p);
            assert(pool[i] == stratum_cell(count, p, config.build_seed, source, i));
            let start = i * others / p;
            let width = (i + 1) * others / p - start;
            let stream = crate::cross::STRATUM_STREAM ^ ((source as u64) << 32) ^ (i as u64);
            let drawn = crate::cross::mixed(config.build_seed, stream) as int;
            vstd::arithmetic::div_mod::lemma_mod_bound(drawn, width);
            assert(0 <= drawn % width < width);
        }
        assert forall|i: int, j: int| 0 <= i < j < pool.len() implies pool[i] != pool[j] by {
            strata_are_apart(i, j, others, p);
            let a = place_among(pool[i] as int, source);
            let b = place_among(pool[j] as int, source);
            assert(a < (i + 1) * others / (pool.len() as int));
            assert(j * others / (pool.len() as int) <= b);
        }
        assert forall|i: int, j: int| 0 <= i < pool.len() && 0 <= j < pool.len() && i != j implies pool[i]
            != pool[j] by {
            if i < j {
                assert(pool[i] != pool[j]);
            } else {
                assert(pool[j] != pool[i]);
            }
        }
    }
}

/// A cell looks to the cells whose entries are nearest.
pub proof fn cells_look_to_the_nearest<Q: Fn(&[u8], &[u8], &[u32]) -> u32>(
    sq8: &SQ8Store,
    compare: Q,
    medoids: Seq<u32>,
    config: &PrismConfig,
    beam: int,
    source: int,
) -> (pool: Seq<u32>)
    requires
        1 < medoids.len() <= u32::MAX,
        0 < beam,
        0 <= source < medoids.len(),
    ensures
        well_targeted(
            sq8,
            compare,
            medoids,
            config,
            beam,
            source,
            pool,
            targets_of(sq8, compare, medoids, config, beam, source),
        ),
{
    let count = medoids.len() as int;
    let size = target_count(count, config.m_greedy as int, beam);
    let cells = ranked_cells(config, count, beam, source);
    let pool = pool_of(config, count, beam, source);
    pools_are_spread(config, count, beam, source);
    ranked_cells_are_foreign(config, count, beam, source);
    let distance = |c: u32| code_key(sq8, compare, medoids[source], medoids[c as int]);
    let scores = cell_scores(sq8, compare, medoids, source, cells);
    assert forall|i: int| 0 <= i < scores.len() implies scores[i] == pool.map_values(
        |c: u32| (distance(c), c),
    )[i] by {
        assert(0 <= cells[i] < count);
        assert(pool[i] == cells[i]);
    }
    assert(scores =~= pool.map_values(|c: u32| (distance(c), c)));
    lowest_are_nearest(distance, pool, size);
    assert((|c: u32| distance(c) as int) =~= (|c: u32|
        code_key(sq8, compare, medoids[source], medoids[c as int]) as int));
    let targets = targets_of(sq8, compare, medoids, config, beam, source);
    assert(targets.len() == size);
    pool
}

/// A walk between codes that met the points in `met` and found `found`.
pub open spec fn walks_codes<Q: Fn(&[u8], &[u8], &[u32]) -> u32>(
    sq8: &SQ8Store,
    compare: Q,
    graph: &Graph,
    p: u32,
    entry: u32,
    width: int,
    found: Seq<Scored>,
    met: Set<u32>,
) -> bool {
    explored(
        |w: u32| graph.row(w as int),
        |w: u32| true,
        |w: u32| code_key(sq8, compare, p, w),
        |d: u64, worst: u64| worst < d,
        entry,
        width,
        found,
        met,
    )
}

/// The points that cell `c` contributes for `p`: by inner product the nearest
/// ones; otherwise those whose codes are nearest, as far as a walk from the
/// entry of a large cell finds them.
pub open spec fn well_contributed<
    D: Fn(Metric, &[u32], &[u32]) -> u32,
    Q: Fn(&[u8], &[u8], &[u32]) -> u32,
>(
    store: &PointStore,
    measure: Measure<D>,
    sq8: &SQ8Store,
    compare: Q,
    local: &Graph,
    cells: Seq<Cell>,
    medoids: Seq<u32>,
    p: u32,
    c: int,
    share: int,
    width: int,
    some: Seq<u32>,
) -> bool {
    let ids = cells[c].point_ids@;
    if measure.metric == Metric::InnerProduct {
        nearest_few(
            |q: u32|
                order_of(measure.gives(store.row(p as int), store.row(q as int))) as int,
            ids,
            share,
            some,
        )
    } else if ids.len() > 2 * width {
        exists|found: Seq<Scored>, met: Set<u32>| #[trigger]
            walks_codes(sq8, compare, local, p, medoids[c], width, found, met) && some.len() == (
            if share < found.len() {
                share
            } else {
                found.len() as int
            }) && forall|i: int| 0 <= i < some.len() ==> #[trigger] some[i] == found[i].1
    } else {
        nearest_few(|q: u32| code_key(sq8, compare, p, q) as int, ids, share, some)
    }
}

/// Points by exact distance, each with it.
proof fn nearest_are_measured<D: Fn(Metric, &[u32], &[u32]) -> u32>(
    store: &PointStore,
    measure: Measure<D>,
    p: u32,
    ids: Seq<u32>,
    beam: int,
)
    requires
        ids.len() <= u64::MAX,
        0 <= beam,
    ensures
        ({
            let near = exactly_nearest(store, measure, p, ids, beam);
            let distance = |q: u32| measure.gives(store.row(p as int), store.row(q as int));
            &&& near.len() == if beam < ids.len() {
                beam
            } else {
                ids.len() as int
            }
            &&& forall|i: int|
                0 <= i < near.len() ==> (#[trigger] near[i]).1 == distance(near[i].0)
                    && ids.contains(near[i].0)
            &&& forall|i: int, j: int|
                0 <= i <= j < near.len() ==> order_of((#[trigger] near[i]).1) <= order_of(
                    (#[trigger] near[j]).1,
                )
            &&& ids.no_duplicates() ==> forall|i: int, j: int|
                0 <= i < near.len() && 0 <= j < near.len() && i != j ==> (#[trigger] near[i]).0 != (
                #[trigger] near[j]).0
            &&& forall|q: u32| #[trigger]
                ids.contains(q) ==> near.contains((q, distance(q))) || (near.len() == beam
                    && forall|i: int|
                    0 <= i < near.len() ==> order_of((#[trigger] near[i]).1) <= order_of(distance(q)))
        }),
{
    let distance = |q: u32| measure.gives(store.row(p as int), store.row(q as int));
    let scores = Seq::new(
        ids.len(),
        |i: int|
            (
                order_of(measure.gives(store.row(p as int), store.row(ids[i] as int))) as u64,
                i as u64,
            ),
    );
    let order = exact_order(store, measure, p, ids);
    let near = exactly_nearest(store, measure, p, ids, beam);
    arranged_is_sorted(scores);
    assert(scores.no_duplicates()) by {
        assert forall|i: int, j: int| 0 <= i < scores.len() && 0 <= j < scores.len() && i != j implies scores[i]
            != scores[j] by {
            assert(scores[i].1 == i as u64 && scores[j].1 == j as u64);
        }
    }
    scores.lemma_multiset_has_no_duplicates();
    order.lemma_multiset_has_no_duplicates_conv();
    assert forall|i: int| 0 <= i < order.len() implies (#[trigger] order[i]).1 < ids.len()
        && order[i].0 == order_of(distance(ids[order[i].1 as int])) by {
        arranged_holds(scores, order[i]);
        assert(order.contains(order[i]));
        let j = choose|j: int| 0 <= j < scores.len() && scores[j] == order[i];
        assert(order[i].1 == j as u64);
    }
    assert forall|i: int| 0 <= i < near.len() implies (#[trigger] near[i]).0
        == ids[order[i].1 as int] && near[i].1 == distance(near[i].0) && ids.contains(near[i].0) by {
        assert(order[i].1 < ids.len());
    }
    assert forall|i: int, j: int| 0 <= i <= j < near.len() implies order_of((#[trigger] near[i]).1)
        <= order_of((#[trigger] near[j]).1) by {
        assert(order[i].rank() <= order[j].rank());
        assert(order[i].0 == order_of(distance(ids[order[i].1 as int])));
        assert(order[j].0 == order_of(distance(ids[order[j].1 as int])));
        pairs_rank_distances(order[i], order[j]);
    }
    if ids.no_duplicates() {
        assert forall|i: int, j: int| 0 <= i < near.len() && 0 <= j < near.len() && i != j implies (
        #[trigger] near[i]).0 != (#[trigger] near[j]).0 by {
            assert(order[i] != order[j]);
            let a = order[i].1 as int;
            let b = order[j].1 as int;
            assert(order[i].0 == order_of(distance(ids[a])));
            assert(order[j].0 == order_of(distance(ids[b])));
            assert(a != b);
            assert(ids[a] != ids[b]);
        }
    }
    assert forall|q: u32| #[trigger] ids.contains(q) implies near.contains((q, distance(q))) || (
    near.len() == beam && forall|i: int|
        0 <= i < near.len() ==> order_of((#[trigger] near[i]).1) <= order_of(distance(q))) by {
        let w = choose|w: int| 0 <= w < ids.len() && ids[w] == q;
        arranged_holds(scores, scores[w]);
        assert(scores.contains(scores[w]));
        let m = choose|m: int| 0 <= m < order.len() && order[m] == scores[w];
        assert(order[m].1 == w);
        if m < near.len() {
            assert(near[m] == (q, distance(q)));
        } else {
            assert forall|i: int| 0 <= i < near.len() implies order_of((#[trigger] near[i]).1)
                <= order_of(distance(q)) by {
                assert(order[i].rank() <= order[m].rank());
                pairs_rank_distances(order[i], order[m]);
                assert(order[i].0 == order_of(distance(ids[order[i].1 as int])));
            }
        }
    }
}

proof fn pairs_rank_distances(a: (u64, u64), b: (u64, u64))
    requires
        a.rank() <= b.rank(),
    ensures
        a.0 <= b.0,
{
}

proof fn contributing_contributes_well<
    D: Fn(Metric, &[u32], &[u32]) -> u32,
    Q: Fn(&[u8], &[u8], &[u32]) -> u32,
>(
    store: &PointStore,
    measure: Measure<D>,
    sq8: &SQ8Store,
    compare: Q,
    local: &Graph,
    cells: Seq<Cell>,
    medoids: Seq<u32>,
    p: u32,
    c: int,
    share: int,
    width: int,
)
    requires
        local.wf(),
        medoids[c] < local.n,
        cells[c].point_ids@.no_duplicates(),
        cells[c].point_ids@.len() <= u32::MAX,
        0 <= share,
        0 < width,
    ensures
        well_contributed(
            store,
            measure,
            sq8,
            compare,
            local,
            cells,
            medoids,
            p,
            c,
            share,
            width,
            contributed(
                store,
                measure,
                sq8,
                compare,
                local,
                cells,
                medoids,
                p,
                c,
                share,
                width,
            ),
        ),
{
    let ids = cells[c].point_ids@;
    let some = contributed(
        store,
        measure,
        sq8,
        compare,
        local,
        cells,
        medoids,
        p,
        c,
        share,
        width,
    );
    if measure.metric == Metric::InnerProduct {
        let near = exactly_nearest(store, measure, p, ids, share);
        let distance = |q: u32| measure.gives(store.row(p as int), store.row(q as int));
        nearest_are_measured(store, measure, p, ids, share);
        assert forall|i: int| 0 <= i < some.len() implies ids.contains(#[trigger] some[i]) by {
            assert(some[i] == near[i].0);
        }
        assert forall|i: int, j: int| 0 <= i < some.len() && 0 <= j < some.len() && i != j implies some[i]
            != some[j] by {
            assert(near[i].0 != near[j].0);
        }
        assert forall|q: u32, i: int|
            #![trigger ids.contains(q), some[i]]
            ids.contains(q) && !some.contains(q) && 0 <= i < some.len() implies order_of(
            measure.gives(store.row(p as int), store.row(some[i] as int)),
        ) <= order_of(measure.gives(store.row(p as int), store.row(q as int))) by {
            if near.contains((q, distance(q))) {
                let m = choose|m: int| 0 <= m < near.len() && near[m] == (q, distance(q));
                assert(some[m] == q);
            }
            assert(near[i].1 == distance(near[i].0));
        }
    } else if ids.len() > 2 * width {
        let met = code_walks_explore(sq8, compare, local, p, medoids[c], width);
        let found = beam_found(sq8, compare, local, p, medoids[c], width);
        assert(walks_codes(sq8, compare, local, p, medoids[c], width, found, met));
    } else {
        let distance = |q: u32| code_key(sq8, compare, p, q);
        lowest_are_nearest(distance, ids, share);
        assert(scan_scores(sq8, compare, p, ids) =~= ids.map_values(
            |q: u32| (distance(q), q),
        ));
        assert((|q: u32| distance(q) as int) =~= (|q: u32|
            code_key(sq8, compare, p, q) as int));
    }
}

/// Point `q` is in one of the lists.
pub open spec fn in_some(lists: Seq<Seq<u32>>, q: u32) -> bool {
    exists|t: int| 0 <= t < lists.len() && #[trigger] lists[t].contains(q)
}

/// The nearest of the points in some lists to `p`, at most `beam`, nearest first
/// and each with its distance.
pub open spec fn well_measured<D: Fn(Metric, &[u32], &[u32]) -> u32>(
    store: &PointStore,
    measure: Measure<D>,
    p: u32,
    lists: Seq<Seq<u32>>,
    beam: int,
    near: Seq<(u32, u32)>,
) -> bool {
    let distance = |q: u32| measure.gives(store.row(p as int), store.row(q as int));
    &&& near.len() <= beam
    &&& forall|i: int|
        0 <= i < near.len() ==> (#[trigger] near[i]).1 == distance(near[i].0) && in_some(
            lists,
            near[i].0,
        )
    &&& forall|i: int, j: int|
        0 <= i <= j < near.len() ==> order_of((#[trigger] near[i]).1) <= order_of(
            (#[trigger] near[j]).1,
        )
    &&& forall|q: u32| #[trigger]
        in_some(lists, q) ==> near.contains((q, distance(q))) || (near.len() == beam && forall|
            i: int,
        |
            0 <= i < near.len() ==> order_of((#[trigger] near[i]).1) <= order_of(distance(q)))
}

proof fn contributions_join<
    D: Fn(Metric, &[u32], &[u32]) -> u32,
    Q: Fn(&[u8], &[u8], &[u32]) -> u32,
>(
    store: &PointStore,
    measure: Measure<D>,
    sq8: &SQ8Store,
    compare: Q,
    local: &Graph,
    cells: Seq<Cell>,
    medoids: Seq<u32>,
    p: u32,
    targets: Seq<u32>,
    share: int,
    width: int,
    upto: int,
    lists: Seq<Seq<u32>>,
)
    requires
        0 <= upto <= targets.len(),
        0 <= share <= u32::MAX,
        lists.len() == targets.len(),
        forall|t: int|
            0 <= t < targets.len() ==> #[trigger] lists[t] == contributed(
                store,
                measure,
                sq8,
                compare,
                local,
                cells,
                medoids,
                p,
                targets[t] as int,
                share,
                width,
            ),
        forall|t: int| 0 <= t < targets.len() ==> (#[trigger] lists[t]).len() <= share,
    ensures
        ({
            let all = all_contributed(
                store,
                measure,
                sq8,
                compare,
                local,
                cells,
                medoids,
                p,
                targets,
                share,
                width,
                upto,
            );
            &&& all.len() <= upto * share
            &&& forall|q: u32| #[trigger] all.contains(q) <==> in_some(lists.take(upto), q)
        }),
    decreases upto,
{
    let all = all_contributed(
        store,
        measure,
        sq8,
        compare,
        local,
        cells,
        medoids,
        p,
        targets,
        share,
        width,
        upto,
    );
    if upto > 0 {
        contributions_join(
            store,
            measure,
            sq8,
            compare,
            local,
            cells,
            medoids,
            p,
            targets,
            share,
            width,
            upto - 1,
            lists,
        );
        let before = all_contributed(
            store,
            measure,
            sq8,
            compare,
            local,
            cells,
            medoids,
            p,
            targets,
            share,
            width,
            upto - 1,
        );
        let last = lists[upto - 1];
        assert(all == before + last);
        assert((upto - 1) * share + share == upto * share) by (nonlinear_arith);
        assert forall|q: u32| #[trigger] all.contains(q) <==> in_some(lists.take(upto), q) by {
            let few = lists.take(upto - 1);
            let some = lists.take(upto);
            if all.contains(q) {
                let i = choose|i: int| 0 <= i < all.len() && all[i] == q;
                if i < before.len() {
                    assert(before.contains(before[i]));
                    let t = choose|t: int| 0 <= t < few.len() && #[trigger] few[t].contains(q);
                    assert(some[t].contains(q));
                } else {
                    assert(last[i - before.len()] == q);
                    assert(some[upto - 1].contains(q));
                }
            }
            if in_some(some, q) {
                let t = choose|t: int| 0 <= t < some.len() && #[trigger] some[t].contains(q);
                if t < upto - 1 {
                    assert(few[t].contains(q));
                    assert(before.contains(q));
                    let i = choose|i: int| 0 <= i < before.len() && before[i] == q;
                    assert(all[i] == q);
                } else {
                    let i = choose|i: int| 0 <= i < last.len() && last[i] == q;
                    assert(all[before.len() + i] == q);
                }
            }
        }
    } else {
        assert(all.len() <= upto * share) by (nonlinear_arith)
            requires
                all.len() == 0,
                upto == 0,
        ;
    }
}

/// How many points each of `size` cells contributes, so that together these are
/// at least `beam`, and no more than need be.
pub open spec fn shares_out(beam: int, size: int, share: int) -> bool {
    share * size >= beam && (share - 1) * size < beam
}

proof fn sharing_shares_out(beam: int, size: int)
    requires
        0 < beam,
        0 < size,
    ensures
        shares_out(beam, size, cell_share(beam, size)),
        0 < cell_share(beam, size) <= beam,
{
    vstd::arithmetic::div_mod::lemma_fundamental_div_mod(beam, size);
    vstd::arithmetic::div_mod::lemma_mod_bound(beam, size);
    let q = beam / size;
    let r = beam % size;
    assert(beam == size * q + r);
    let share = cell_share(beam, size);
    if r == 0 {
        assert(share == q);
        assert(q * size >= beam && (q - 1) * size < beam && 0 < q && q <= beam) by (nonlinear_arith)
            requires
                beam == size * q,
                size > 0,
                beam > 0,
        ;
    } else {
        assert(share == q + 1);
        assert((q + 1) * size >= beam && q * size < beam && 0 <= q && q + 1 <= beam)
            by (nonlinear_arith)
            requires
                beam == size * q + r,
                0 < r < size,
                beam > 0,
        ;
    }
}

/// How a point comes by its neighbours in other cells: its cell looks to the
/// nearest cells, each of these contributes its share, the nearest of all
/// contributions are measured, and of them one after the other is taken that is
/// worth most.
pub proof fn cross_neighbors_are_well_chosen<
    D: Fn(Metric, &[u32], &[u32]) -> u32,
    Q: Fn(&[u8], &[u8], &[u32]) -> u32,
    W: Fn(u32, usize, u32) -> u32,
>(
    store: &PointStore,
    measure: Measure<D>,
    sq8: &SQ8Store,
    compare: Q,
    score: W,
    local: &Graph,
    cells: Seq<Cell>,
    medoids: Seq<u32>,
    config: &PrismConfig,
    subsets: Seq<Vec<usize>>,
    beam: int,
    cell: int,
    p: u32,
) -> (way: (Seq<u32>, Seq<u32>, int, Seq<Seq<u32>>, Seq<(u32, u32)>, Seq<int>))
    requires
        local.wf(),
        1 < medoids.len() <= u32::MAX,
        medoids.len() == cells.len(),
        forall|c: int|
            0 <= c < cells.len() ==> #[trigger] medoids[c] < local.n
                && cells[c].point_ids@.no_duplicates() && cells[c].point_ids@.len() <= u32::MAX,
        0 < beam <= u32::MAX,
        0 <= cell < medoids.len(),
        0 < config.m_local,
    ensures
        ({
            let (pool, targets, share, lists, near, taken) = way;
            let selected = cross_neighbors(
                store,
                measure,
                sq8,
                compare,
                score,
                local,
                cells,
                medoids,
                config,
                subsets,
                beam,
                cell,
                p,
            );
            let wanted = if share > config.m_local {
                share
            } else {
                config.m_local as int
            };
            let width = if wanted < beam {
                wanted
            } else {
                beam
            };
            &&& well_targeted(sq8, compare, medoids, config, beam, cell, pool, targets)
            &&& shares_out(beam, targets.len() as int, share)
            &&& lists.len() == targets.len()
            &&& forall|t: int|
                0 <= t < targets.len() ==> well_contributed(
                    store,
                    measure,
                    sq8,
                    compare,
                    local,
                    cells,
                    medoids,
                    p,
                    targets[t] as int,
                    share,
                    width,
                    #[trigger] lists[t],
                )
            &&& well_measured(store, measure, p, lists, beam, near)
            &&& well_chosen(
                store,
                near,
                subsets,
                config.alpha,
                score,
                if config.m_greedy < near.len() {
                    config.m_greedy as int
                } else {
                    near.len() as int
                },
                taken,
            )
            &&& selected.len() == taken.len()
            &&& forall|i: int|
                0 <= i < selected.len() ==> #[trigger] selected[i] == near[taken[i]].0
        }),
{
    let count = medoids.len() as int;
    let size = target_count(count, config.m_greedy as int, beam);
    let targets = targets_of(sq8, compare, medoids, config, beam, cell);
    let pool = cells_look_to_the_nearest(sq8, compare, medoids, config, beam, cell);
    ranked_cells_are_foreign(config, count, beam, cell);
    crate::cross::targets_are_cells(sq8, compare, medoids, config, beam, cell);
    let share = cell_share(beam, size);
    sharing_shares_out(beam, size);
    let width = cell_width(beam, size, config.m_local as int);
    let lists = Seq::new(
        targets.len(),
        |t: int|
            contributed(
                store,
                measure,
                sq8,
                compare,
                local,
                cells,
                medoids,
                p,
                targets[t] as int,
                share,
                width,
            ),
    );
    assert forall|t: int| 0 <= t < targets.len() implies well_contributed(
        store,
        measure,
        sq8,
        compare,
        local,
        cells,
        medoids,
        p,
        targets[t] as int,
        share,
        width,
        #[trigger] lists[t],
    ) && lists[t].len() <= share by {
        let c = targets[t] as int;
        assert(targets[t] < count);
        assert(medoids[c] < local.n);
        contributing_contributes_well(
            store,
            measure,
            sq8,
            compare,
            local,
            cells,
            medoids,
            p,
            c,
            share,
            width,
        );
    }
    let n = targets.len() as int;
    let ids = all_contributed(
        store,
        measure,
        sq8,
        compare,
        local,
        cells,
        medoids,
        p,
        targets,
        share,
        width,
        n,
    );
    contributions_join(
        store,
        measure,
        sq8,
        compare,
        local,
        cells,
        medoids,
        p,
        targets,
        share,
        width,
        n,
        lists,
    );
    assert(lists.take(n) =~= lists);
    assert(n * share <= u64::MAX) by (nonlinear_arith)
        requires
            0 <= n <= 0xffff_ffff,
            0 <= share <= 0xffff_ffff,
    ;
    let near = exactly_nearest(store, measure, p, ids, beam);
    nearest_are_measured(store, measure, p, ids, beam);
    assert(well_measured(store, measure, p, lists, beam, near)) by {
        let distance = |q: u32| measure.gives(store.row(p as int), store.row(q as int));
        assert forall|i: int| 0 <= i < near.len() implies (#[trigger] near[i]).1 == distance(
            near[i].0,
        ) && in_some(lists, near[i].0) by {
            assert(ids.contains(near[i].0));
        }
        assert forall|q: u32| #[trigger] in_some(lists, q) implies near.contains((q, distance(q)))
            || (near.len() == beam && forall|i: int|
            0 <= i < near.len() ==> order_of((#[trigger] near[i]).1) <= order_of(distance(q))) by {
            assert(ids.contains(q));
        }
    }
    let rounds = choice_rounds(near, config.m_greedy as int);
    let taken = chosen(store, near, subsets, config.alpha, score, rounds);
    choosing_chooses_well(store, near, subsets, config.alpha, score, rounds);
    (pool, targets, share, lists, near, taken)
}

} // verus!
