//! How the points of a cell come to be linked.
//!
//! A cell starts with random neighbour lists.  Two passes link every point anew,
//! and each step can be told from the lists before and after it: which points a
//! search visited, which of them the point keeps, and which of the kept ones
//! take the point as a neighbour.

use vstd::prelude::*;
use crate::chance::arrange;
use crate::distance::Metric;
use crate::explore::{explored, keeping_improves};
use crate::order::{arranged, arranged_holds, arranged_is_sorted, sorted, Ranked};
use crate::point::PointStore;
use crate::pure::{of4, Measure};
use crate::select::{kept, rank_orders_distances, Scored};
use crate::single::order_of;
use crate::vamana::{
    absorbed, all_answered, answered, answering_keeps_lists, distinct_below, expanded, gap, gap_key,
    is_dominated, joined, linked, list_fits, lists_bounded, lists_fit, lists_id, nearest_first,
    nearest_first_is_exact, next_open, others, others_are_exact, pruned, pruned_is_within, ranked,
    refined, robustly_pruned, searched,
};
use crate::walk::ids_distinct;

verus! {

/// `out` is what pruning leaves of the candidates for the neighbours of `p`, at
/// most `r`, nearest first.
///
/// No kept one is covered by a nearer one that is kept.  A candidate that is not
/// kept is covered by a kept one that is no farther from `p`, or `r` are kept and
/// none of them is farther from `p`.
pub open spec fn well_pruned(
    distance: spec_fn(u32, u32) -> u32,
    covers: spec_fn(u32, u32) -> bool,
    p: u32,
    candidates: Set<u32>,
    r: int,
    out: Seq<u32>,
) -> bool {
    &&& out.no_duplicates()
    &&& out.len() <= r
    &&& forall|i: int| 0 <= i < out.len() ==> candidates.contains(#[trigger] out[i]) && out[i] != p
    &&& forall|i: int, j: int|
        0 <= i < j < out.len() ==> order_of(distance(p, #[trigger] out[i])) <= order_of(
            distance(p, #[trigger] out[j]),
        ) && !covers(distance(out[j], out[i]), distance(p, out[j]))
    &&& forall|c: u32| #[trigger]
        candidates.contains(c) && c != p && !out.contains(c) ==> is_covered(
            distance,
            covers,
            p,
            out,
            c,
        ) || (out.len() == r && are_nearer(distance, p, out, c))
}

/// A kept one that is no farther from `p` covers `c`.
pub open spec fn is_covered(
    distance: spec_fn(u32, u32) -> u32,
    covers: spec_fn(u32, u32) -> bool,
    p: u32,
    out: Seq<u32>,
    c: u32,
) -> bool {
    exists|i: int|
        0 <= i < out.len() && order_of(distance(p, #[trigger] out[i])) <= order_of(distance(p, c))
            && covers(distance(c, out[i]), distance(p, c))
}

/// None of the kept ones is farther from `p` than `c` is.
pub open spec fn are_nearer(
    distance: spec_fn(u32, u32) -> u32,
    p: u32,
    out: Seq<u32>,
    c: u32,
) -> bool {
    forall|i: int|
        0 <= i < out.len() ==> order_of(distance(p, #[trigger] out[i])) <= order_of(distance(p, c))
}

/// A search along neighbour lists that visited the points in `visited`, one
/// after the other, and met those in `met`.
///
/// It always visits a nearest one of the points that were met and not visited
/// yet.  The neighbours of every visited point were met, and nothing else but the
/// entry.  The nearest points that were met are visited: all of them, or `beam`
/// of them.
pub open spec fn search_ends(
    graph: Seq<Seq<u32>>,
    key: spec_fn(u32) -> u64,
    entry: u32,
    beam: int,
    visited: Seq<u32>,
    nearest: Seq<Scored>,
    met: Set<u32>,
) -> bool {
    &&& visited.no_duplicates()
    &&& visited.len() > 0 && visited[0] == entry
    &&& goes_nearest_first(graph, key, visited)
    &&& forall|i: int|
        0 <= i < visited.len() ==> met.contains(#[trigger] visited[i]) && visited[i] < graph.len()
    &&& forall|i: int, j: int|
        #![trigger visited[i], graph[visited[i] as int][j]]
        0 <= i < visited.len() && 0 <= j < graph[visited[i] as int].len() ==> met.contains(
            graph[visited[i] as int][j],
        )
    &&& forall|w: u32| #[trigger] met.contains(w) ==> w == entry || is_reached(graph, visited, w)
    &&& forall|i: int| 0 <= i < nearest.len() ==> visited.contains((#[trigger] nearest[i]).1)
    &&& explored(
        |w: u32| graph[w as int],
        |w: u32| true,
        key,
        |d: u64, worst: u64| worst <= d,
        entry,
        beam,
        nearest,
        met,
    )
}

/// Each visited point is as near as any neighbour of the points visited before it
/// that was not visited by then.
pub open spec fn goes_nearest_first(
    graph: Seq<Seq<u32>>,
    key: spec_fn(u32) -> u64,
    visited: Seq<u32>,
) -> bool {
    forall|i: int, w: u32|
        #![trigger visited[i], is_reached(graph, visited.take(i), w)]
        0 <= i < visited.len() && is_reached(graph, visited.take(i), w) && !visited.take(
            i,
        ).contains(w) ==> key(visited[i]) <= key(w)
}

/// `w` is a neighbour of a visited point.
pub open spec fn is_reached(graph: Seq<Seq<u32>>, visited: Seq<u32>, w: u32) -> bool {
    exists|i: int| 0 <= i < visited.len() && graph[#[trigger] visited[i] as int].contains(w)
}

/// The list of `j` after it was to take `p` as a neighbour: `p` is added where
/// there is room, otherwise the list is pruned.
pub open spec fn well_answered(
    distance: spec_fn(u32, u32) -> u32,
    covers: spec_fn(u32, u32) -> bool,
    r: int,
    j: u32,
    p: u32,
    before: Seq<u32>,
    after: Seq<u32>,
) -> bool {
    if before.contains(p) {
        after == before
    } else if before.len() < r {
        after == before.push(p)
    } else {
        well_pruned(distance, covers, j, before.to_set().insert(p), r, after)
    }
}

/// The lists before and after `p` was linked anew: it keeps what pruning leaves
/// of the points that a search for it visited and of its neighbours so far; the
/// kept ones take it as a neighbour; nothing else changes.
pub open spec fn relinked(
    distance: spec_fn(u32, u32) -> u32,
    covers: spec_fn(u32, u32) -> bool,
    r: int,
    beam: int,
    entry: u32,
    before: Seq<Seq<u32>>,
    p: u32,
    after: Seq<Seq<u32>>,
) -> bool {
    &&& after.len() == before.len()
    &&& exists|visited: Seq<u32>, nearest: Seq<Scored>, met: Set<u32>| #[trigger]
        search_for(distance, before, entry, p, beam, visited, nearest, met) && well_pruned(
            distance,
            covers,
            p,
            visited.to_set().union(before[p as int].to_set()),
            r,
            after[p as int],
        )
    &&& forall|j: u32|
        j < before.len() && j != p ==> if after[p as int].contains(j) {
            well_answered(distance, covers, r, j, p, before[j as int], #[trigger] after[j as int])
        } else {
            after[j as int] == before[j as int]
        }
}

/// A search for the points near `p`.
pub open spec fn search_for(
    distance: spec_fn(u32, u32) -> u32,
    graph: Seq<Seq<u32>>,
    entry: u32,
    p: u32,
    beam: int,
    visited: Seq<u32>,
    nearest: Seq<Scored>,
    met: Set<u32>,
) -> bool {
    search_ends(
        graph,
        |w: u32| order_of(distance(p, w)) as u64,
        entry,
        beam,
        visited,
        nearest,
        met,
    )
}

/// The lists from stage to stage, as the points in `order` are linked anew.
pub open spec fn stages_fit(
    distance: spec_fn(u32, u32) -> u32,
    covers: spec_fn(u32, u32) -> bool,
    r: int,
    beam: int,
    entry: u32,
    order: Seq<usize>,
    stages: Seq<Seq<Seq<u32>>>,
) -> bool {
    &&& stages.len() == order.len() + 1
    &&& forall|t: int|
        0 <= t < order.len() ==> relinked(
            distance,
            covers,
            r,
            beam,
            entry,
            stages[t],
            #[trigger] order[t] as u32,
            stages[t + 1],
        )
}

/// A pass that links all points in `order` anew leads from `start` to `finish`.
pub open spec fn passed_over(
    distance: spec_fn(u32, u32) -> u32,
    covers: spec_fn(u32, u32) -> bool,
    r: int,
    beam: int,
    entry: u32,
    start: Seq<Seq<u32>>,
    order: Seq<usize>,
    finish: Seq<Seq<u32>>,
) -> bool {
    exists|stages: Seq<Seq<Seq<u32>>>| #[trigger]
        stages_fit(distance, covers, r, beam, entry, order, stages) && stages[0] == start
            && stages.last() == finish
}

/// Every position below `n` once.
pub open spec fn is_order(order: Seq<usize>, n: int) -> bool {
    &&& order.len() == n
    &&& order.no_duplicates()
    &&& forall|t: int| 0 <= t < n ==> #[trigger] order[t] < n
}

/// The points come in the order that a shuffle gives, by a generator that holds
/// `held`.
pub open spec fn is_shuffled(order: Seq<usize>, held: Seq<u32>) -> bool {
    forall|t: int|
        0 <= t < order.len() ==> #[trigger] order[t] == arrange(held, order.len()).0[t]
}

/// The lists come from lists of `r` neighbours by two passes over all points in
/// two random orders, the first with the one, the second with the other way of
/// covering.
pub open spec fn linked_twice(
    distance: spec_fn(u32, u32) -> u32,
    plain: spec_fn(u32, u32) -> bool,
    covers: spec_fn(u32, u32) -> bool,
    r: int,
    beam: int,
    entry: u32,
    table: Seq<Seq<u32>>,
) -> bool {
    let n = table.len() as int;
    exists|
        start: Seq<Seq<u32>>,
        held: Seq<u32>,
        one: Seq<usize>,
        middle: Seq<Seq<u32>>,
        two: Seq<usize>,
    |
        #![trigger
            passed_over(distance, plain, r, beam, entry, start, one, middle),
            passed_over(distance, covers, r, beam, entry, middle, two, table),
            is_shuffled(one, held)
        ]
        passed_over(distance, plain, r, beam, entry, start, one, middle) && passed_over(
            distance,
            covers,
            r,
            beam,
            entry,
            middle,
            two,
            table,
        ) && is_order(one, n) && is_order(two, n) && is_shuffled(one, held) && is_shuffled(
            two,
            arrange(held, n as nat).1,
        ) && lists_fit(start, n) && forall|i: int|
            0 <= i < n ==> (#[trigger] start[i]).len() == r
}

/// Every candidate but `p` is in order, and none is nearer than one before it.
proof fn order_is_complete<D: Fn(Metric, &[u32], &[u32]) -> u32>(
    store: &PointStore,
    first: int,
    measure: Measure<D>,
    p: u32,
    candidates: Seq<u32>,
)
    requires
        candidates.no_duplicates(),
        candidates.len() <= u32::MAX,
    ensures
        ({
            let order = nearest_first(store, first, measure, p, candidates);
            &&& forall|i: int, j: int|
                0 <= i <= j < order.len() ==> order_of(
                    gap(store, first, measure, p, #[trigger] order[i]),
                ) <= order_of(gap(store, first, measure, p, #[trigger] order[j]))
            &&& forall|c: u32| #[trigger]
                candidates.contains(c) && c != p ==> order.contains(c)
        }),
{
    let order = nearest_first(store, first, measure, p, candidates);
    let rest = others(candidates, p, candidates.len() as int);
    let key = |w: u32| gap_key(store, first, measure, p, w);
    let pairs = ranked(rest, key);
    let all = arranged(pairs);
    others_are_exact(candidates, p, candidates.len() as int);
    others_are_complete(candidates, p, candidates.len() as int);
    arranged_is_sorted(pairs);
    assert forall|i: int| 0 <= i < all.len() implies (#[trigger] all[i]).1 < rest.len() && all[i].0
        == key(order[i]) by {
        assert(all.contains(all[i]));
        arranged_holds(pairs, all[i]);
        let w = choose|w: int| 0 <= w < pairs.len() && pairs[w] == all[i];
        assert(pairs[w].1 == w as u32);
    }
    assert forall|i: int, j: int| 0 <= i <= j < order.len() implies order_of(
        gap(store, first, measure, p, #[trigger] order[i]),
    ) <= order_of(gap(store, first, measure, p, #[trigger] order[j])) by {
        assert(all[i].rank() <= all[j].rank());
        rank_orders_distances(all[i], all[j]);
        assert(all[i].0 == key(order[i]));
        assert(all[j].0 == key(order[j]));
    }
    assert forall|c: u32| #[trigger] candidates.contains(c) && c != p implies order.contains(c) by {
        let at = choose|at: int| 0 <= at < candidates.len() && candidates[at] == c;
        assert(rest.contains(candidates[at]));
        let w = choose|w: int| 0 <= w < rest.len() && rest[w] == c;
        arranged_holds(pairs, pairs[w]);
        assert(pairs.contains(pairs[w]));
        let i = choose|i: int| 0 <= i < all.len() && all[i] == pairs[w];
        assert(order[i] == c);
    }
}

proof fn others_are_complete(candidates: Seq<u32>, p: u32, upto: int)
    requires
        0 <= upto <= candidates.len(),
    ensures
        forall|j: int|
            0 <= j < upto && candidates[j] != p ==> others(candidates, p, upto).contains(
                #[trigger] candidates[j],
            ),
    decreases upto,
{
    if upto > 0 {
        others_are_complete(candidates, p, upto - 1);
        let before = others(candidates, p, upto - 1);
        let all = others(candidates, p, upto);
        assert forall|j: int| 0 <= j < upto && candidates[j] != p implies all.contains(
            #[trigger] candidates[j],
        ) by {
            if j < upto - 1 {
                assert(before.contains(candidates[j]));
                let i = choose|i: int| 0 <= i < before.len() && before[i] == candidates[j];
                assert(all[i] == candidates[j]);
            } else {
                assert(all[all.len() - 1] == candidates[j]);
            }
        }
    }
}

/// What pruning has done with the first candidates in order.
proof fn pruning_goes_on<D: Fn(Metric, &[u32], &[u32]) -> u32, P: Fn(u32, u32, u32, u32) -> bool>(
    store: &PointStore,
    first: int,
    measure: Measure<D>,
    strict: P,
    alpha: u32,
    distance: spec_fn(u32, u32) -> u32,
    covers: spec_fn(u32, u32) -> bool,
    p: u32,
    order: Seq<u32>,
    r: int,
    upto: int,
)
    requires
        0 <= upto <= order.len(),
        0 <= r,
        order.no_duplicates(),
        forall|a: u32, b: u32| #[trigger] distance(a, b) == gap(store, first, measure, a, b),
        forall|d: u32, e: u32| #[trigger]
            covers(d, e) == of4(
                strict,
                alpha,
                crate::vamana::alpha_power(measure.metric),
                d,
                e,
            ),
        forall|i: int, j: int|
            0 <= i <= j < order.len() ==> order_of(distance(p, #[trigger] order[i])) <= order_of(
                distance(p, #[trigger] order[j]),
            ),
    ensures
        ({
            let out = pruned(store, first, measure, strict, alpha, p, order, r, upto);
            &&& forall|i: int, j: int|
                0 <= i < j < out.len() ==> order_of(distance(p, #[trigger] out[i])) <= order_of(
                    distance(p, #[trigger] out[j]),
                ) && !covers(distance(out[j], out[i]), distance(p, out[j]))
            &&& forall|m: int|
                0 <= m < upto && !out.contains(#[trigger] order[m]) ==> is_covered(
                    distance,
                    covers,
                    p,
                    out,
                    order[m],
                ) || (out.len() == r && are_nearer(distance, p, out, order[m]))
        }),
    decreases upto,
{
    if upto > 0 {
        pruning_goes_on(
            store,
            first,
            measure,
            strict,
            alpha,
            distance,
            covers,
            p,
            order,
            r,
            upto - 1,
        );
        let before = pruned(store, first, measure, strict, alpha, p, order, r, upto - 1);
        let out = pruned(store, first, measure, strict, alpha, p, order, r, upto);
        let c = order[upto - 1];
        pruned_is_within(store, first, measure, strict, alpha, p, order, r, upto - 1);
        assert(are_nearer(distance, p, before, c)) by {
            assert forall|i: int| 0 <= i < before.len() implies order_of(
                distance(p, #[trigger] before[i]),
            ) <= order_of(distance(p, c)) by {
                let m = choose|m: int| 0 <= m < upto - 1 && order[m] == before[i];
                assert(order_of(distance(p, order[m])) <= order_of(distance(p, order[upto - 1])));
            }
        }
        let dominated = is_dominated(store, first, measure, strict, alpha, p, before, c);
        if before.len() >= r {
            assert(before.len() == r);
        } else if dominated {
            let i = choose|i: int|
                0 <= i < before.len() && of4(
                    strict,
                    alpha,
                    crate::vamana::alpha_power(measure.metric),
                    gap(store, first, measure, c, #[trigger] before[i]),
                    gap(store, first, measure, p, c),
                );
            assert(covers(distance(c, before[i]), distance(p, c)));
            assert(order_of(distance(p, before[i])) <= order_of(distance(p, c)));
            assert(is_covered(distance, covers, p, before, c));
        } else {
            assert forall|i: int, j: int| 0 <= i < j < out.len() implies order_of(
                distance(p, #[trigger] out[i]),
            ) <= order_of(distance(p, #[trigger] out[j])) && !covers(
                distance(out[j], out[i]),
                distance(p, out[j]),
            ) by {
                if j < before.len() {
                    assert(before[i] == out[i] && before[j] == out[j]);
                } else {
                    assert(before[i] == out[i]);
                    assert(distance(c, before[i]) == gap(store, first, measure, c, before[i]));
                    assert(distance(p, c) == gap(store, first, measure, p, c));
                }
            }
            assert forall|m: int| 0 <= m < upto && !out.contains(#[trigger] order[m]) implies is_covered(
                distance,
                covers,
                p,
                out,
                order[m],
            ) || (out.len() == r && are_nearer(distance, p, out, order[m])) by {
                if m == upto - 1 {
                    assert(out[out.len() - 1] == order[m]);
                } else {
                    if before.contains(order[m]) {
                        let i = choose|i: int| 0 <= i < before.len() && before[i] == order[m];
                        assert(out[i] == order[m]);
                    }
                    let i = choose|i: int|
                        0 <= i < before.len() && order_of(distance(p, #[trigger] before[i]))
                            <= order_of(distance(p, order[m])) && covers(
                            distance(order[m], before[i]),
                            distance(p, order[m]),
                        );
                    assert(is_covered(distance, covers, p, before, order[m]));
                    assert(out[i] == before[i]);
                }
            }
        }
    }
}

/// How a cell's points lie apart.
pub open spec fn apart<D: Fn(Metric, &[u32], &[u32]) -> u32>(
    store: &PointStore,
    first: int,
    measure: Measure<D>,
) -> spec_fn(u32, u32) -> u32 {
    |a: u32, b: u32| measure.gives(store.row(first + a), store.row(first + b))
}

/// Whether one distance, times `alpha`, is at most another; lengths are
/// compared, so `alpha` counts twice where distances are squares of lengths.
pub open spec fn covering<P: Fn(u32, u32, u32, u32) -> bool>(
    metric: Metric,
    covers: P,
    alpha: u32,
) -> spec_fn(u32, u32) -> bool {
    |d: u32, e: u32|
        of4(
            covers,
            alpha,
            if metric == Metric::InnerProduct {
                1
            } else {
                2
            },
            d,
            e,
        )
}

/// What robust pruning leaves.
proof fn pruning_prunes_well<
    D: Fn(Metric, &[u32], &[u32]) -> u32,
    P: Fn(u32, u32, u32, u32) -> bool,
>(
    store: &PointStore,
    first: int,
    measure: Measure<D>,
    covers: P,
    alpha: u32,
    p: u32,
    candidates: Seq<u32>,
    r: int,
)
    requires
        0 <= r,
        candidates.no_duplicates(),
        candidates.len() <= u32::MAX,
    ensures
        well_pruned(
            apart(store, first, measure),
            covering(measure.metric, covers, alpha),
            p,
            candidates.to_set(),
            r,
            robustly_pruned(store, first, measure, covers, alpha, p, candidates, r),
        ),
{
    let distance = apart(store, first, measure);
    let cover = covering(measure.metric, covers, alpha);
    let order = nearest_first(store, first, measure, p, candidates);
    let n = order.len() as int;
    let out = robustly_pruned(store, first, measure, covers, alpha, p, candidates, r);
    nearest_first_is_exact(store, first, measure, p, candidates);
    order_is_complete(store, first, measure, p, candidates);
    pruned_is_within(store, first, measure, covers, alpha, p, order, r, n);
    assert forall|i: int, j: int| 0 <= i <= j < order.len() implies order_of(
        distance(p, #[trigger] order[i]),
    ) <= order_of(distance(p, #[trigger] order[j])) by {
        assert(distance(p, order[i]) == gap(store, first, measure, p, order[i]));
        assert(distance(p, order[j]) == gap(store, first, measure, p, order[j]));
    }
    pruning_goes_on(store, first, measure, covers, alpha, distance, cover, p, order, r, n);
    assert forall|i: int| 0 <= i < out.len() implies candidates.to_set().contains(#[trigger] out[i])
        && out[i] != p by {
        let m = choose|m: int| 0 <= m < n && order[m] == out[i];
        assert(candidates.contains(order[m]));
    }
    assert forall|c: u32| #[trigger] candidates.to_set().contains(c) && c != p && !out.contains(c) implies is_covered(
        distance,
        cover,
        p,
        out,
        c,
    ) || (out.len() == r && are_nearer(distance, p, out, c)) by {
        assert(candidates.contains(c));
        let m = choose|m: int| 0 <= m < n && order[m] == c;
    }
}

/// The nearest points among those that were met, as a search holds them.
spec fn held_well(key: spec_fn(u32) -> u64, beam: int, list: Seq<Scored>, met: Set<u32>) -> bool {
    &&& sorted(list)
    &&& ids_distinct(list)
    &&& list.len() <= beam
    &&& forall|i: int|
        0 <= i < list.len() ==> (#[trigger] list[i]).0 == key(list[i].1) && met.contains(list[i].1)
    &&& forall|w: u32| #[trigger]
        met.contains(w) ==> list.contains((key(w), w)) || (list.len() == beam && list.last().0
            <= key(w))
}

proof fn absorbing_holds(
    list: Seq<Scored>,
    done: Seq<u32>,
    neighbors: Seq<u32>,
    key: spec_fn(u32) -> u64,
    beam: int,
    upto: int,
    met: Set<u32>,
) -> (now: Set<u32>)
    requires
        0 <= upto <= neighbors.len(),
        beam > 0,
        held_well(key, beam, list, met),
        forall|i: int| 0 <= i < done.len() ==> met.contains(#[trigger] done[i]),
    ensures
        held_well(key, beam, absorbed(list, done, neighbors, key, beam, upto), now),
        met.subset_of(now),
        forall|j: int| 0 <= j < upto ==> now.contains(#[trigger] neighbors[j]),
        forall|w: u32| #[trigger] now.contains(w) ==> met.contains(w) || neighbors.contains(w),
    decreases upto,
{
    if upto <= 0 {
        met
    } else {
        let some = absorbing_holds(list, done, neighbors, key, beam, upto - 1, met);
        let before = absorbed(list, done, neighbors, key, beam, upto - 1);
        let w = neighbors[upto - 1];
        let now = some.insert(w);
        assert(neighbors.contains(w));
        if done.contains(w) {
            let i = choose|i: int| 0 <= i < done.len() && done[i] == w;
            assert(met.contains(done[i]));
            assert(now =~= some);
        } else if lists_id(before, w) {
            let i = choose|i: int| 0 <= i < before.len() && (#[trigger] before[i]).1 == w;
            assert(some.contains(before[i].1));
            assert(now =~= some);
        } else {
            let entry = (key(w), w);
            keeping_improves(before, entry, beam);
            let out = kept(before, entry, beam);
            assert forall|i: int| 0 <= i < before.len() implies (#[trigger] before[i]).1 != w by {
                assert(!lists_id(before, w));
            }
            assert forall|i: int| 0 <= i < out.len() implies (#[trigger] out[i]).0 == key(out[i].1)
                && now.contains(out[i].1) by {
                assert(out.contains(out[i]));
                if before.contains(out[i]) {
                    let j = choose|j: int| 0 <= j < before.len() && before[j] == out[i];
                    assert(some.contains(before[j].1));
                }
            }
            assert forall|x: u32| #[trigger] now.contains(x) implies out.contains((key(x), x)) || (
            out.len() == beam && out.last().0 <= key(x)) by {
                if x != w {
                    assert(some.contains(x));
                    if before.contains((key(x), x)) {
                    }
                }
            }
        }
        now
    }
}

proof fn open_entry(list: Seq<Scored>, done: Seq<u32>, from: int)
    requires
        0 <= from,
    ensures
        match next_open(list, done, from) {
            None => forall|i: int|
                from <= i < list.len() ==> done.contains((#[trigger] list[i]).1),
            Some(i) => from <= i < list.len() && !done.contains(list[i].1) && forall|j: int|
                from <= j < i ==> done.contains((#[trigger] list[j]).1),
        },
    decreases list.len() - from,
{
    if from < list.len() && done.contains(list[from].1) {
        open_entry(list, done, from + 1);
    }
}

/// A search that is under way comes to its end.
proof fn expanding_ends(
    graph: Seq<Seq<u32>>,
    list: Seq<Scored>,
    done: Seq<u32>,
    key: spec_fn(u32) -> u64,
    entry: u32,
    beam: int,
    fuel: int,
    met: Set<u32>,
) -> (out: (Seq<Scored>, Set<u32>))
    requires
        beam > 0,
        lists_fit(graph, graph.len() as int),
        graph.len() <= u32::MAX,
        held_well(key, beam, list, met),
        met.contains(entry),
        list.len() > 0,
        done.no_duplicates(),
        forall|i: int| 0 <= i < done.len() ==> met.contains(#[trigger] done[i]),
        forall|w: u32| #[trigger] met.contains(w) ==> w < graph.len(),
        forall|w: u32| #[trigger]
            met.contains(w) ==> w == entry || is_reached(graph, done, w),
        forall|i: int, j: int|
            #![trigger done[i], graph[done[i] as int][j]]
            0 <= i < done.len() && 0 <= j < graph[done[i] as int].len() ==> met.contains(
                graph[done[i] as int][j],
            ),
        if done.len() == 0 {
            list.len() == 1 && list[0].1 == entry
        } else {
            done[0] == entry
        },
        goes_nearest_first(graph, key, done),
        fuel >= graph.len() - done.len(),
    ensures
        search_ends(
            graph,
            key,
            entry,
            beam,
            expanded(graph, list, done, key, beam, fuel),
            out.0,
            out.1,
        ),
    decreases fuel,
{
    let n = graph.len() as int;
    open_entry(list, done, 0);
    let next = next_open(list, done, 0);
    if fuel <= 0 || next is None {
        if next is Some {
            let v = list[next->0].1;
            let more = done.push(v);
            assert(met.contains(list[next->0].1));
            distinct_push(done, v);
            assert forall|i: int| 0 <= i < more.len() implies #[trigger] more[i] < n by {
                if i < done.len() {
                    assert(met.contains(done[i]));
                }
            }
            distinct_below(more, n);
            assert(false);
        }
        assert(done.contains(list[0].1));
        assert forall|i: int| 0 <= i < list.len() implies done.contains((#[trigger] list[i]).1) by {}
        let halts = |d: u64, worst: u64| worst <= d;
        let row = |w: u32| graph[w as int];
        assert forall|w: u32| #[trigger] met.contains(w) implies list.contains((key(w), w))
            || crate::explore::is_beaten(list, beam, key(w)) by {
            if !list.contains((key(w), w)) {
                assert forall|i: int| 0 <= i < list.len() implies (#[trigger] list[i]).0 <= key(w) by {
                    assert(list[i].rank() <= list[list.len() - 1].rank());
                }
            }
        }
        assert forall|w: u32, i: int|
            #![trigger met.contains(w), row(w)[i]]
            met.contains(w) && 0 <= i < row(w).len() implies met.contains(row(w)[i])
            || crate::explore::left_aside(key, halts, beam, list, met, key(w)) by {
            if list.contains((key(w), w)) {
                let at = choose|at: int| 0 <= at < list.len() && list[at] == (key(w), w);
                assert(done.contains(list[at].1));
                let m = choose|m: int| 0 <= m < done.len() && done[m] == w;
                assert(met.contains(graph[done[m] as int][i]));
            } else {
                assert(halts(key(w), list.last().0));
                assert(met.contains(w));
            }
        }
        assert forall|i: int| 0 <= i < done.len() implies met.contains(#[trigger] done[i]) && done[i]
            < n by {}
        (list, met)
    } else {
        let v = list[next->0].1;
        let more = done.push(v);
        assert(met.contains(list[next->0].1));
        distinct_push(done, v);
        let neighbors = graph[v as int];
        assert(list_fits(graph[v as int], n, v as int));
        assert forall|i: int| 0 <= i < more.len() implies met.contains(#[trigger] more[i]) by {
            if i < done.len() {
                assert(met.contains(done[i]));
            }
        }
        let now = absorbing_holds(
            list,
            more,
            neighbors,
            key,
            beam,
            neighbors.len() as int,
            met,
        );
        let longer = absorbed(list, more, neighbors, key, beam, neighbors.len() as int);
        assert forall|w: u32| #[trigger] now.contains(w) implies w < n && (w == entry || is_reached(
            graph,
            more,
            w,
        )) by {
            if met.contains(w) {
                if w != entry {
                    let i = choose|i: int|
                        0 <= i < done.len() && graph[#[trigger] done[i] as int].contains(w);
                    assert(more[i] == done[i]);
                }
            } else {
                let j = choose|j: int| 0 <= j < neighbors.len() && neighbors[j] == w;
                assert(neighbors[j] < n);
                assert(graph[more[done.len() as int] as int].contains(w));
            }
        }
        assert forall|i: int, j: int|
            #![trigger more[i], graph[more[i] as int][j]]
            0 <= i < more.len() && 0 <= j < graph[more[i] as int].len() implies now.contains(
            graph[more[i] as int][j],
        ) by {
            if i < done.len() {
                assert(more[i] == done[i]);
                assert(met.contains(graph[done[i] as int][j]));
            } else {
                assert(now.contains(neighbors[j]));
            }
        }
        assert(longer.len() > 0) by {
            assert(now.contains(entry));
        }
        assert(more[0] == entry) by {
            if done.len() > 0 {
                assert(more[0] == done[0]);
            }
        }
        assert forall|w: u32| #[trigger] met.contains(w) && !done.contains(w) implies key(v) <= key(
            w,
        ) by {
            let at = next->0;
            assert(list[at].0 == key(v));
            if list.contains((key(w), w)) {
                let m = choose|m: int| 0 <= m < list.len() && list[m] == (key(w), w);
                if m < at {
                    assert(done.contains(list[m].1));
                }
                assert(list[at].rank() <= list[m].rank());
                rank_orders_distances(list[at], list[m]);
            } else {
                assert(list[at].rank() <= list[list.len() - 1].rank());
                rank_orders_distances(list[at], list[list.len() - 1]);
            }
        }
        next_is_nearest(graph, key, done, v, met);
        expanding_ends(graph, longer, more, key, entry, beam, fuel - 1, now)
    }
}

/// The nearest open point is visited next.
proof fn next_is_nearest(
    graph: Seq<Seq<u32>>,
    key: spec_fn(u32) -> u64,
    done: Seq<u32>,
    v: u32,
    met: Set<u32>,
)
    requires
        goes_nearest_first(graph, key, done),
        forall|i: int, j: int|
            #![trigger done[i], graph[done[i] as int][j]]
            0 <= i < done.len() && 0 <= j < graph[done[i] as int].len() ==> met.contains(
                graph[done[i] as int][j],
            ),
        forall|w: u32| #[trigger] met.contains(w) && !done.contains(w) ==> key(v) <= key(w),
    ensures
        goes_nearest_first(graph, key, done.push(v)),
{
    let more = done.push(v);
    assert forall|i: int, w: u32|
        #![trigger more[i], is_reached(graph, more.take(i), w)]
        0 <= i < more.len() && is_reached(graph, more.take(i), w) && !more.take(i).contains(w) implies key(
        more[i],
    ) <= key(w) by {
        assert(more.take(i) =~= done.take(i));
        if i < done.len() {
            assert(more[i] == done[i]);
            assert(is_reached(graph, done.take(i), w));
        } else {
            assert(done.take(i) =~= done);
            let m = choose|m: int|
                0 <= m < done.len() && graph[#[trigger] done[m] as int].contains(w);
            let row = graph[done[m] as int];
            let j = choose|j: int| 0 <= j < row.len() && row[j] == w;
            assert(met.contains(graph[done[m] as int][j]));
        }
    }
}

proof fn distinct_push(list: Seq<u32>, v: u32)
    requires
        list.no_duplicates(),
        !list.contains(v),
    ensures
        list.push(v).no_duplicates(),
{
    let longer = list.push(v);
    assert forall|a: int, b: int| 0 <= a < longer.len() && 0 <= b < longer.len() && a != b implies longer[a]
        != longer[b] by {
        if a == list.len() {
            assert(list.contains(list[b]));
        }
        if b == list.len() {
            assert(list.contains(list[a]));
        }
    }
}

/// A search for the points near `p` comes to its end.
proof fn searching_ends<D: Fn(Metric, &[u32], &[u32]) -> u32>(
    store: &PointStore,
    first: int,
    measure: Measure<D>,
    graph: Seq<Seq<u32>>,
    entry: u32,
    p: u32,
    beam: int,
) -> (out: (Seq<Scored>, Set<u32>))
    requires
        beam > 0,
        lists_fit(graph, graph.len() as int),
        graph.len() <= u32::MAX,
        entry < graph.len(),
    ensures
        search_for(
            apart(store, first, measure),
            graph,
            entry,
            p,
            beam,
            searched(store, first, measure, graph, entry, p, beam),
            out.0,
            out.1,
        ),
{
    let distance = apart(store, first, measure);
    let key = |w: u32| gap_key(store, first, measure, p, w);
    assert(key =~= (|w: u32| order_of(distance(p, w)) as u64));
    let start: Seq<Scored> = seq![(key(entry), entry)];
    let met = set![entry];
    assert(start[0] == (key(entry), entry));
    assert(held_well(key, beam, start, met));
    expanding_ends(graph, start, Seq::empty(), key, entry, beam, graph.len() as int, met)
}

proof fn joining_holds(base: Seq<u32>, extra: Seq<u32>, upto: int)
    requires
        0 <= upto <= extra.len(),
        base.no_duplicates(),
    ensures
        joined(base, extra, upto).no_duplicates(),
        forall|w: u32| #[trigger]
            joined(base, extra, upto).contains(w) <==> base.contains(w) || extra.take(
                upto,
            ).contains(w),
    decreases upto,
{
    let out = joined(base, extra, upto);
    if upto > 0 {
        joining_holds(base, extra, upto - 1);
        let before = joined(base, extra, upto - 1);
        let last = extra[upto - 1];
        if !before.contains(last) {
            distinct_push(before, last);
        }
        assert forall|w: u32| #[trigger] out.contains(w) <==> base.contains(w) || extra.take(
            upto,
        ).contains(w) by {
            if out.contains(w) {
                let i = choose|i: int| 0 <= i < out.len() && out[i] == w;
                if i < before.len() {
                    assert(before.contains(before[i]));
                }
                let few = extra.take(upto - 1);
                if few.contains(w) {
                    let j = choose|j: int| 0 <= j < few.len() && few[j] == w;
                    assert(extra.take(upto)[j] == w);
                }
                assert(extra.take(upto)[upto - 1] == last);
            }
            if base.contains(w) {
                assert(before.contains(w));
            }
            if extra.take(upto).contains(w) {
                let some = extra.take(upto);
                let j = choose|j: int| 0 <= j < some.len() && some[j] == w;
                if j < upto - 1 {
                    assert(extra.take(upto - 1)[j] == w);
                    assert(before.contains(w));
                }
            }
            if before.contains(w) {
                let i = choose|i: int| 0 <= i < before.len() && before[i] == w;
                assert(out[i] == w);
            } else if w == last {
                assert(out[out.len() - 1] == w);
            }
        }
    }
}

/// What a list becomes that is to take `p` as a neighbour.
proof fn answering_answers_well<
    D: Fn(Metric, &[u32], &[u32]) -> u32,
    P: Fn(u32, u32, u32, u32) -> bool,
>(
    store: &PointStore,
    first: int,
    measure: Measure<D>,
    covers: P,
    alpha: u32,
    r: int,
    graph: Seq<Seq<u32>>,
    p: u32,
    j: u32,
)
    requires
        lists_fit(graph, graph.len() as int),
        lists_bounded(graph, r),
        graph.len() <= u32::MAX,
        p < graph.len(),
        j < graph.len(),
        p != j,
        0 <= r,
    ensures
        well_answered(
            apart(store, first, measure),
            covering(measure.metric, covers, alpha),
            r,
            j,
            p,
            graph[j as int],
            answered(store, first, measure, covers, alpha, r, graph, p, j)[j as int],
        ),
{
    let list = graph[j as int];
    let n = graph.len() as int;
    assert(list_fits(graph[j as int], n, j as int));
    assert(graph[j as int].len() <= r);
    if !list.contains(p) {
        let longer = list.push(p);
        distinct_push(list, p);
        assert forall|i: int| 0 <= i < longer.len() implies #[trigger] longer[i] < n by {
            if i < list.len() {
                assert(list[i] < n);
            }
        }
        distinct_below(longer, n);
        pruning_prunes_well(store, first, measure, covers, alpha, j, longer, r);
        assert(longer.to_set() =~= list.to_set().insert(p)) by {
            assert forall|w: u32| #[trigger] longer.contains(w) <==> list.contains(w) || w == p by {
                if longer.contains(w) {
                    let i = choose|i: int| 0 <= i < longer.len() && longer[i] == w;
                    if i < list.len() {
                        assert(list.contains(list[i]));
                    }
                }
                if list.contains(w) {
                    let i = choose|i: int| 0 <= i < list.len() && list[i] == w;
                    assert(longer[i] == w);
                }
                assert(longer[list.len() as int] == p);
            }
        }
    }
}

/// The lists once the first of some neighbours took `p`.
proof fn answers_change_lists<
    D: Fn(Metric, &[u32], &[u32]) -> u32,
    P: Fn(u32, u32, u32, u32) -> bool,
>(
    store: &PointStore,
    first: int,
    measure: Measure<D>,
    covers: P,
    alpha: u32,
    r: int,
    graph: Seq<Seq<u32>>,
    p: u32,
    neighbors: Seq<u32>,
    upto: int,
)
    requires
        lists_fit(graph, graph.len() as int),
        lists_bounded(graph, r),
        graph.len() <= u32::MAX,
        p < graph.len(),
        list_fits(neighbors, graph.len() as int, p as int),
        0 <= upto <= neighbors.len(),
        0 <= r,
    ensures
        ({
            let after = all_answered(
                store,
                first,
                measure,
                covers,
                alpha,
                r,
                graph,
                p,
                neighbors,
                upto,
            );
            &&& after.len() == graph.len()
            &&& lists_fit(after, graph.len() as int)
            &&& lists_bounded(after, r)
            &&& forall|j: u32|
                j < graph.len() ==> if neighbors.take(upto).contains(j) {
                    well_answered(
                        apart(store, first, measure),
                        covering(measure.metric, covers, alpha),
                        r,
                        j,
                        p,
                        graph[j as int],
                        #[trigger] after[j as int],
                    )
                } else {
                    after[j as int] == graph[j as int]
                }
        }),
    decreases upto,
{
    let after = all_answered(store, first, measure, covers, alpha, r, graph, p, neighbors, upto);
    if upto > 0 {
        answers_change_lists(
            store,
            first,
            measure,
            covers,
            alpha,
            r,
            graph,
            p,
            neighbors,
            upto - 1,
        );
        let before = all_answered(
            store,
            first,
            measure,
            covers,
            alpha,
            r,
            graph,
            p,
            neighbors,
            upto - 1,
        );
        let w = neighbors[upto - 1];
        let few = neighbors.take(upto - 1);
        let some = neighbors.take(upto);
        assert(w < graph.len() && w != p);
        answering_keeps_lists(store, first, measure, covers, alpha, r, before, p, w);
        answering_answers_well(store, first, measure, covers, alpha, r, before, p, w);
        assert(!few.contains(w)) by {
            if few.contains(w) {
                let i = choose|i: int| 0 <= i < few.len() && few[i] == w;
                assert(neighbors[i] != neighbors[upto - 1]);
            }
        }
        assert(before[w as int] == graph[w as int]);
        assert(some[upto - 1] == w);
        assert forall|j: u32| j < graph.len() implies if some.contains(j) {
            well_answered(
                apart(store, first, measure),
                covering(measure.metric, covers, alpha),
                r,
                j,
                p,
                graph[j as int],
                #[trigger] after[j as int],
            )
        } else {
            after[j as int] == graph[j as int]
        } by {
            if j != w {
                assert(after[j as int] == before[j as int]);
                if some.contains(j) {
                    let i = choose|i: int| 0 <= i < some.len() && some[i] == j;
                    assert(few[i] == j);
                }
                if few.contains(j) {
                    let i = choose|i: int| 0 <= i < few.len() && few[i] == j;
                    assert(some[i] == j);
                }
            }
        }
    }
}

/// Linking a point anew, told from the lists before and after.
proof fn linking_relinks<
    D: Fn(Metric, &[u32], &[u32]) -> u32,
    P: Fn(u32, u32, u32, u32) -> bool,
>(
    store: &PointStore,
    first: int,
    measure: Measure<D>,
    covers: P,
    alpha: u32,
    r: int,
    beam: int,
    entry: u32,
    graph: Seq<Seq<u32>>,
    p: u32,
)
    requires
        lists_fit(graph, graph.len() as int),
        lists_bounded(graph, r),
        graph.len() <= u32::MAX,
        p < graph.len(),
        entry < graph.len(),
        beam > 0,
        0 <= r,
    ensures
        ({
            let after = linked(
                store,
                first,
                measure,
                covers,
                alpha,
                r,
                beam,
                entry,
                graph,
                p,
            );
            &&& relinked(
                apart(store, first, measure),
                covering(measure.metric, covers, alpha),
                r,
                beam,
                entry,
                graph,
                p,
                after,
            )
            &&& lists_fit(after, graph.len() as int)
            &&& lists_bounded(after, r)
        }),
{
    let n = graph.len() as int;
    let distance = apart(store, first, measure);
    let cover = covering(measure.metric, covers, alpha);
    let (nearest, met) = searching_ends(store, first, measure, graph, entry, p, beam);
    let found = searched(store, first, measure, graph, entry, p, beam);
    let old_list = graph[p as int];
    let size = old_list.len() as int;
    let candidates = joined(found, old_list, size);
    joining_holds(found, old_list, size);
    assert(old_list.take(size) =~= old_list);
    assert(list_fits(graph[p as int], n, p as int));
    assert forall|i: int| 0 <= i < candidates.len() implies #[trigger] candidates[i] < n by {
        assert(candidates.contains(candidates[i]));
        if found.contains(candidates[i]) {
            let m = choose|m: int| 0 <= m < found.len() && found[m] == candidates[i];
            assert(found[m] < n);
        } else {
            let m = choose|m: int| 0 <= m < old_list.len() && old_list[m] == candidates[i];
            assert(old_list[m] < n);
        }
    }
    distinct_below(candidates, n);
    assert(candidates.to_set() =~= found.to_set().union(old_list.to_set()));
    let own = robustly_pruned(store, first, measure, covers, alpha, p, candidates, r);
    pruning_prunes_well(store, first, measure, covers, alpha, p, candidates, r);
    assert(list_fits(own, n, p as int)) by {
        assert forall|j: int| 0 <= j < own.len() implies #[trigger] own[j] < n && own[j] != p by {
            assert(candidates.to_set().contains(own[j]));
            let m = choose|m: int| 0 <= m < candidates.len() && candidates[m] == own[j];
            assert(candidates[m] < n);
        }
    }
    let start = graph.update(p as int, own);
    assert forall|i: int| 0 <= i < n implies #[trigger] list_fits(start[i], n, i) by {
        assert(list_fits(graph[i], n, i));
    }
    assert forall|i: int| 0 <= i < n implies (#[trigger] start[i]).len() <= r by {
        assert(graph[i].len() <= r);
    }
    let count = own.len() as int;
    answers_change_lists(store, first, measure, covers, alpha, r, start, p, own, count);
    assert(own.take(count) =~= own);
    let after = linked(store, first, measure, covers, alpha, r, beam, entry, graph, p);
    assert(!own.contains(p));
    assert(after[p as int] == own);
    assert(search_for(distance, graph, entry, p, beam, found, nearest, met));
    assert forall|j: u32| j < graph.len() && j != p implies if after[p as int].contains(j) {
        well_answered(distance, cover, r, j, p, graph[j as int], #[trigger] after[j as int])
    } else {
        after[j as int] == graph[j as int]
    } by {
        assert(start[j as int] == graph[j as int]);
    }
}

/// A pass over the points in `order`, told from stage to stage.
pub proof fn passes_relink<
    D: Fn(Metric, &[u32], &[u32]) -> u32,
    P: Fn(u32, u32, u32, u32) -> bool,
>(
    store: &PointStore,
    first: int,
    measure: Measure<D>,
    covers: P,
    alpha: u32,
    r: int,
    beam: int,
    entry: u32,
    graph: Seq<Seq<u32>>,
    order: Seq<usize>,
)
    requires
        lists_fit(graph, graph.len() as int),
        lists_bounded(graph, r),
        graph.len() <= u32::MAX,
        forall|t: int| 0 <= t < order.len() ==> #[trigger] order[t] < graph.len(),
        entry < graph.len(),
        beam > 0,
        0 <= r,
    ensures
        passed_over(
            apart(store, first, measure),
            covering(measure.metric, covers, alpha),
            r,
            beam,
            entry,
            graph,
            order,
            refined(
                store,
                first,
                measure,
                covers,
                alpha,
                r,
                beam,
                entry,
                graph,
                order,
                order.len() as int,
            ),
        ),
{
    let stages = Seq::new(
        (order.len() + 1) as nat,
        |t: int|
            refined(store, first, measure, covers, alpha, r, beam, entry, graph, order, t),
    );
    let distance = apart(store, first, measure);
    let cover = covering(measure.metric, covers, alpha);
    assert forall|t: int| 0 <= t < order.len() implies relinked(
        distance,
        cover,
        r,
        beam,
        entry,
        stages[t],
        #[trigger] order[t] as u32,
        stages[t + 1],
    ) by {
        refining_keeps_lists(
            store,
            first,
            measure,
            covers,
            alpha,
            r,
            beam,
            entry,
            graph,
            order,
            t,
        );
        linking_relinks(
            store,
            first,
            measure,
            covers,
            alpha,
            r,
            beam,
            entry,
            stages[t],
            order[t] as u32,
        );
    }
    assert(stages_fit(distance, cover, r, beam, entry, order, stages));
}

proof fn refining_keeps_lists<
    D: Fn(Metric, &[u32], &[u32]) -> u32,
    P: Fn(u32, u32, u32, u32) -> bool,
>(
    store: &PointStore,
    first: int,
    measure: Measure<D>,
    covers: P,
    alpha: u32,
    r: int,
    beam: int,
    entry: u32,
    graph: Seq<Seq<u32>>,
    order: Seq<usize>,
    upto: int,
)
    requires
        lists_fit(graph, graph.len() as int),
        lists_bounded(graph, r),
        graph.len() <= u32::MAX,
        0 <= upto <= order.len(),
        forall|t: int| 0 <= t < order.len() ==> #[trigger] order[t] < graph.len(),
        entry < graph.len(),
        beam > 0,
        0 <= r,
    ensures
        ({
            let after = refined(
                store,
                first,
                measure,
                covers,
                alpha,
                r,
                beam,
                entry,
                graph,
                order,
                upto,
            );
            lists_fit(after, graph.len() as int) && lists_bounded(after, r)
        }),
    decreases upto,
{
    if upto > 0 {
        refining_keeps_lists(
            store,
            first,
            measure,
            covers,
            alpha,
            r,
            beam,
            entry,
            graph,
            order,
            upto - 1,
        );
        assert(order[upto - 1] < graph.len());
        let before = refined(
            store,
            first,
            measure,
            covers,
            alpha,
            r,
            beam,
            entry,
            graph,
            order,
            upto - 1,
        );
        linking_relinks(
            store,
            first,
            measure,
            covers,
            alpha,
            r,
            beam,
            entry,
            before,
            order[upto - 1] as u32,
        );
    }
}

/// The point that was linked last keeps what pruning leaves: among the points
/// that its search visited and its neighbours before that, one that is missing
/// while there is room is covered by a neighbour that is no farther away, and no
/// neighbour is covered by a nearer one.
pub proof fn last_linked_is_well_pruned(
    distance: spec_fn(u32, u32) -> u32,
    plain: spec_fn(u32, u32) -> bool,
    covers: spec_fn(u32, u32) -> bool,
    r: int,
    beam: int,
    entry: u32,
    table: Seq<Seq<u32>>,
) -> (last: (u32, Seq<Seq<u32>>, Seq<u32>, Seq<Scored>, Set<u32>))
    requires
        linked_twice(distance, plain, covers, r, beam, entry, table),
        0 < table.len() <= u32::MAX,
    ensures
        ({
            let (p, before, visited, nearest, met) = last;
            &&& p < table.len()
            &&& before.len() == table.len()
            &&& search_for(distance, before, entry, p, beam, visited, nearest, met)
            &&& well_pruned(
                distance,
                covers,
                p,
                visited.to_set().union(before[p as int].to_set()),
                r,
                table[p as int],
            )
        }),
{
    let (start, held, one, middle, two) = choose|
        start: Seq<Seq<u32>>,
        held: Seq<u32>,
        one: Seq<usize>,
        middle: Seq<Seq<u32>>,
        two: Seq<usize>,
    |
        #![trigger
            passed_over(distance, plain, r, beam, entry, start, one, middle),
            passed_over(distance, covers, r, beam, entry, middle, two, table),
            is_shuffled(one, held)
        ]
        passed_over(distance, plain, r, beam, entry, start, one, middle) && passed_over(
            distance,
            covers,
            r,
            beam,
            entry,
            middle,
            two,
            table,
        ) && is_order(one, table.len() as int) && is_order(two, table.len() as int) && is_shuffled(
            one,
            held,
        ) && is_shuffled(two, arrange(held, table.len()).1) && lists_fit(
            start,
            table.len() as int,
        ) && forall|i: int| 0 <= i < table.len() ==> (#[trigger] start[i]).len() == r;
    let stages = choose|stages: Seq<Seq<Seq<u32>>>| #[trigger]
        stages_fit(distance, covers, r, beam, entry, two, stages) && stages[0] == middle
            && stages.last() == table;
    let t = two.len() - 1;
    let p = two[t] as u32;
    assert(two[t] < table.len());
    let before = stages[t];
    assert(relinked(distance, covers, r, beam, entry, stages[t], two[t] as u32, stages[t + 1]));
    let (visited, nearest, met) = choose|
        visited: Seq<u32>,
        nearest: Seq<Scored>,
        met: Set<u32>,
    | #[trigger]
        search_for(distance, before, entry, p, beam, visited, nearest, met) && well_pruned(
            distance,
            covers,
            p,
            visited.to_set().union(before[p as int].to_set()),
            r,
            table[p as int],
        );
    (p, before, visited, nearest, met)
}

} // verus!
