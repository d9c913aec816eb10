//! What searches answer, whatever way they take.
//!
//! Each law speaks of the outcome of a search: of the points that it measured,
//! how these were chosen, and that the answers are the best of them.

use vstd::prelude::*;
use crate::crossing::{crossing_found, Bridge};
use crate::descent::{
    cell_contribution, cell_facts, cell_found, cells_by_entry, estimated, ids_of, merged_cells,
    offering_all_keeps, order_is_distinct, preselected, query_sketch, widened,
};
use crate::distance::{code_distance, pattern_of, Metric};
use crate::explore::{
    bridged, cell_walks_explore, crossing_walks_explore, explored, improved, is_beaten, left_aside,
    offer_improves, starts_at,
};
use crate::filter::Filter;
use crate::index::{layout_is_catalog, point_placed, PrismIndex};
use crate::order::{arranged_holds, arranged_is_sorted, sorted, Ranked};
use crate::partition::{gathered_holds, names_cells};
use crate::pure::{angle_value, estimate_value, metric_value, of1, of2, of3, row_for, row_number};
use crate::query::{outcome_fits, SearchKernels};
use crate::search::{
    eligible, eligible_points_are_exact, passing_before_is_exact, passing_cells, plan_for, ranked,
    ranking_is_exact, SearchExecution, SearchOutcome, SearchResult,
};
use crate::select::{identity, offered_all, offered_all_is_nearest, Scored};
use crate::single::order_of;
use crate::walk::{ids_are, ids_distinct};

verus! {

/// `left` is nearer than `right`, or as near with a lower number.
pub open spec fn precedes(left: SearchResult, right: SearchResult) -> bool {
    order_of(left.dist) < order_of(right.dist) || (left.dist == right.dist && left.id < right.id)
}

/// The results are the `k` best of the points in `from`, nearest first.
pub open spec fn answers_best(
    exact: spec_fn(u32) -> u32,
    from: Seq<u32>,
    k: int,
    results: Seq<SearchResult>,
) -> bool {
    &&& results.len() == if k < from.len() {
        k
    } else {
        from.len() as int
    }
    &&& forall|i: int|
        0 <= i < results.len() ==> from.contains((#[trigger] results[i]).id) && results[i].dist == exact(
            results[i].id,
        )
    &&& forall|i: int, j: int|
        0 <= i < j < results.len() ==> precedes(#[trigger] results[i], #[trigger] results[j])
    &&& forall|p: u32, i: int|
        #![trigger from.contains(p), results[i]]
        from.contains(p) && 0 <= i < results.len() && !is_answered(results, p) ==> precedes(
            results[i],
            SearchResult { id: p, dist: exact(p) },
        )
}

/// Point `p` is among the results.
pub open spec fn is_answered(results: Seq<SearchResult>, p: u32) -> bool {
    exists|j: int| 0 <= j < results.len() && (#[trigger] results[j]).id == p
}

/// Of the points in `from` as many as `cap` were chosen, or all: none that was
/// left out is nearer than one that was chosen.
pub open spec fn nearest_few(
    distance: spec_fn(u32) -> int,
    from: Seq<u32>,
    cap: int,
    chosen: Seq<u32>,
) -> bool {
    &&& chosen.len() == if cap < from.len() {
        cap
    } else {
        from.len() as int
    }
    &&& chosen.no_duplicates()
    &&& forall|i: int| 0 <= i < chosen.len() ==> from.contains(#[trigger] chosen[i])
    &&& forall|p: u32, i: int|
        #![trigger from.contains(p), chosen[i]]
        from.contains(p) && !chosen.contains(p) && 0 <= i < chosen.len() ==> distance(chosen[i])
            <= distance(p)
}

/// The width of a walk: `ef`, or `k` where that is more, times the expansion of
/// the index, but no more than there are points, and at least one.
pub open spec fn walk_width(k: int, ef: int, expansion: int, population: int) -> int {
    let base = if ef > k {
        ef
    } else {
        k
    };
    let wide = if base * expansion < population {
        base * expansion
    } else {
        population
    };
    if wide < 1 {
        1
    } else {
        wide
    }
}

pub proof fn ranking_answers_best(exact: spec_fn(u32) -> u32, from: Seq<u32>, k: int)
    requires
        0 <= k,
        from.no_duplicates(),
    ensures
        answers_best(exact, from, k, ranked(exact, from, k)),
{
    ranking_is_exact(exact, from, k);
    let results = ranked(exact, from, k);
    assert forall|i: int, j: int| 0 <= i < j < results.len() implies precedes(
        #[trigger] results[i],
        #[trigger] results[j],
    ) by {
        crate::single::order_is_numeric(results[i].dist, results[j].dist);
    }
    assert forall|p: u32, i: int|
        #![trigger from.contains(p), results[i]]
        from.contains(p) && 0 <= i < results.len() && !is_answered(results, p) implies precedes(
        results[i],
        SearchResult { id: p, dist: exact(p) },
    ) by {
        assert forall|j: int| 0 <= j < results.len() implies (#[trigger] results[j]).id != p by {}
        assert(crate::search::comes_first(
            results[i],
            crate::search::result_for(exact, p),
        ));
        assert(results[i].id != p);
    }
}

/// What bounded lists keep of points with their distances.
proof fn offers_choose_nearest(distance: spec_fn(u32) -> u64, from: Seq<u32>, cap: int)
    requires
        0 <= cap,
        from.no_duplicates(),
    ensures
        nearest_few(
            |p: u32| distance(p) as int,
            from,
            cap,
            ids_of(
                offered_all(Seq::empty(), from.map_values(|p: u32| (distance(p), p)), cap),
            ),
        ),
{
    let entries = from.map_values(|p: u32| (distance(p), p));
    offered_all_is_nearest(entries, cap);
    let out = offered_all(Seq::empty(), entries, cap);
    let chosen = ids_of(out);
    assert forall|i: int| 0 <= i < out.len() implies (#[trigger] out[i]).0 == distance(out[i].1)
        && from.contains(out[i].1) by {
        assert(out.contains(out[i]));
        let j = choose|j: int| 0 <= j < entries.len() && entries[j] == out[i];
        assert(from[j] == out[i].1);
    }
    assert forall|i: int, j: int| 0 <= i < entries.len() && 0 <= j < entries.len() && i != j implies (
    #[trigger] entries[i]).1 != (#[trigger] entries[j]).1 by {
        assert(from[i] != from[j]);
    }
    distinct_offers(entries, cap);
    assert forall|p: u32, i: int|
        #![trigger from.contains(p), chosen[i]]
        from.contains(p) && !chosen.contains(p) && 0 <= i < chosen.len() implies distance(chosen[i])
        <= distance(p) by {
        let j = choose|j: int| 0 <= j < from.len() && from[j] == p;
        let e = (distance(p), p);
        assert(entries[j] == e);
        if out.contains(e) {
            let m = choose|m: int| 0 <= m < out.len() && out[m] == e;
            assert(chosen[m] == p);
        }
        assert(out[i].0 <= identity(e).0);
    }
}

/// Offers for different points keep different points.
proof fn distinct_offers(entries: Seq<Scored>, cap: int)
    requires
        0 <= cap,
        forall|i: int, j: int|
            0 <= i < entries.len() && 0 <= j < entries.len() && i != j ==> (
            #[trigger] entries[i]).1 != (#[trigger] entries[j]).1,
    ensures
        ids_of(offered_all(Seq::empty(), entries, cap)).no_duplicates(),
    decreases entries.len(),
{
    let out = offered_all(Seq::empty(), entries, cap);
    if entries.len() > 0 {
        let front = entries.drop_last();
        assert forall|i: int, j: int| 0 <= i < front.len() && 0 <= j < front.len() && i != j implies (
        #[trigger] front[i]).1 != (#[trigger] front[j]).1 by {
            assert(entries[i].1 != entries[j].1);
        }
        distinct_offers(front, cap);
        offered_all_is_nearest(front, cap);
        let list = offered_all(Seq::empty(), front, cap);
        let ids = ids_of(list);
        assert forall|i: int, j: int| 0 <= i < j < list.len() implies (#[trigger] list[i]).1 != (
        #[trigger] list[j]).1 by {
            assert(ids[i] != ids[j]);
        }
        let entry = entries.last();
        assert forall|i: int| 0 <= i < list.len() implies (#[trigger] list[i]).1 != entry.1 by {
            assert(list.contains(list[i]));
            let m = choose|m: int| 0 <= m < front.len() && front[m] == list[i];
            assert(entries[m].1 != entries[entries.len() - 1].1);
        }
        crate::walk::offering_keeps(list, entry, cap, |p: u32| true);
        assert forall|i: int, j: int| 0 <= i < out.len() && 0 <= j < out.len() && i != j implies ids_of(
            out,
        )[i] != ids_of(out)[j] by {
            if i < j {
                assert(out[i].1 != out[j].1);
            } else {
                assert(out[j].1 != out[i].1);
            }
        }
    }
}

/// What distances are found from: estimates from the query and the code of the
/// point; exact ones from the query and the vector of the point, by the metric
/// of the index, and angles also from the norms of both.
pub proof fn distances_go_by_the_points<
    A: Fn(&[u32]) -> Vec<u32>,
    D: Fn(Metric, &[u32], &[u32]) -> u32,
    G: Fn(&[u32], &[u32], u64, u64) -> u32,
    N: Fn(&[u32]) -> u64,
    R: Fn(u64) -> u64,
    T: Fn(&[u32], &[u8], &[u32], &[u32]) -> u32,
    F: Fn(&[u32], &[u32], usize) -> Vec<bool>,
    U: Fn(usize, usize) -> u32,
    X: Fn(u32, u32, u32) -> bool,
    Y: Fn(u32, usize) -> usize,
    Z: Fn(Bridge) -> bool,
>(
    index: &PrismIndex,
    kernels: &SearchKernels<A, D, G, N, R, T, F, U, X, Y, Z>,
    query: Seq<u32>,
    p: u32,
)
    requires
        index.wf(),
        index.cosine_norms.caches(
            &index.store,
            index.config.metric,
            kernels.squared,
            kernels.root,
        ),
        p < index.store.len,
    ensures
        ({
            let asked = kernels.compared(index, query);
            let row = index.store.row(p as int);
            let metric = index.config.metric;
            let dim = index.store.dim as int;
            let norm = |v: Seq<u32>| of1(kernels.root, row_number(kernels.squared, v));
            &&& asked == if metric == Metric::Cosine {
                row_for(kernels.normalize, query)
            } else {
                query
            }
            &&& kernels.near(index, asked)(p) == if metric == Metric::InnerProduct {
                order_of(metric_value(kernels.measure, metric, asked, row))
            } else {
                order_of(
                    estimate_value(
                        kernels.estimate,
                        asked,
                        index.sq8.codes@.subrange(p * dim, (p + 1) * dim),
                        index.sq8.mins@,
                        index.sq8.scales@,
                    ),
                )
            }
            &&& kernels.exact(index, asked)(p) == if metric == Metric::Cosine {
                angle_value(kernels.angle, asked, row, norm(asked), norm(row))
            } else {
                metric_value(kernels.measure, metric, asked, row)
            }
        }),
{
}

/// Where sketches preselect, they keep the points whose sketches differ least
/// from the query's, as many as the index is set to per unit of width; of these
/// the ones that the codes put nearest are measured, and the answers are the
/// best of them.
pub proof fn sketches_keep_the_likest<
    A: Fn(&[u32]) -> Vec<u32>,
    D: Fn(Metric, &[u32], &[u32]) -> u32,
    G: Fn(&[u32], &[u32], u64, u64) -> u32,
    N: Fn(&[u32]) -> u64,
    R: Fn(u64) -> u64,
    T: Fn(&[u32], &[u8], &[u32], &[u32]) -> u32,
    F: Fn(&[u32], &[u32], usize) -> Vec<bool>,
    U: Fn(usize, usize) -> u32,
    X: Fn(u32, u32, u32) -> bool,
    Y: Fn(u32, usize) -> usize,
    Z: Fn(Bridge) -> bool,
>(
    index: &PrismIndex,
    kernels: &SearchKernels<A, D, G, N, R, T, F, U, X, Y, Z>,
    query: Seq<u32>,
    filter: &Filter,
    k: int,
    ef: int,
    outcome: &SearchOutcome,
) -> (chosen: (Seq<u32>, Seq<u32>))
    requires
        index.wf(),
        index.tree.cells@.len() <= usize::MAX,
        0 <= k <= usize::MAX,
        0 <= ef <= usize::MAX,
        outcome_fits(index, kernels, query, filter, k, ef, outcome),
        outcome.diagnostics.primary_execution == SearchExecution::BinaryPrefilterScan,
        !outcome.diagnostics.used_exact_fallback,
    ensures
        ({
            let asked = kernels.compared(index, query);
            let sketch = query_sketch(index, kernels.rotate, asked);
            let width = if ef > k {
                ef
            } else {
                k
            };
            &&& nearest_few(
                |p: u32| code_distance(sketch, index.binary.code_of(p as int)) as int,
                eligible(&index.tree, filter),
                index.config.binary_rerank * width,
                chosen.0,
            )
            &&& nearest_few(
                |p: u32| kernels.near(index, asked)(p) as int,
                chosen.0,
                width,
                chosen.1,
            )
            &&& answers_best(kernels.exact(index, asked), chosen.1, k, outcome.results@)
        }),
{
    let asked = kernels.compared(index, query);
    let sketch = query_sketch(index, kernels.rotate, asked);
    let width = if ef > k {
        ef
    } else {
        k
    };
    let all = eligible(&index.tree, filter);
    let plan = plan_for(index, filter, kernels.ratio);
    eligible_points_are_exact(index, filter);
    let gap = |p: u32| code_distance(sketch, index.binary.code_of(p as int));
    let near = kernels.near(index, asked);
    let budget = crate::descent::rerank_budget(index.config.binary_rerank as int, width);
    assert(all.len() <= usize::MAX);
    assert(budget == index.config.binary_rerank * width || (all.len() <= budget));
    let first = preselected(index, sketch, all, budget);
    assert(all.map_values(
        |p: u32| (code_distance(sketch, index.binary.code_of(p as int)), p),
    ) =~= all.map_values(|p: u32| (gap(p), p)));
    assert(index.config.binary_rerank * width >= 0) by (nonlinear_arith)
        requires
            index.config.binary_rerank >= 0,
            width >= 0,
    ;
    offers_choose_nearest(gap, all, budget);
    let one = ids_of(first);
    let second = estimated(near, first, width);
    assert(first.map_values(|entry: Scored| (near(entry.1), entry.1)) =~= one.map_values(
        |p: u32| (near(p), p),
    ));
    offers_choose_nearest(near, one, width);
    let two = ids_of(second);
    ranking_answers_best(kernels.exact(index, asked), two, k);
    assert((|p: u32| code_distance(sketch, index.binary.code_of(p as int)) as int) =~= (|p: u32|
        gap(p) as int));
    (one, two)
}

/// The filter passes the points whose cell passes.
proof fn passing_goes_by_cells(index: &PrismIndex, filter: &Filter)
    requires
        index.wf(),
        index.tree.cells@.len() <= usize::MAX,
    ensures
        passing_cells(&index.tree, filter).no_duplicates(),
        names_cells(passing_cells(&index.tree, filter), index.tree.cells@.len() as int),
        (|p: u32|
            p < index.store.len && passing_cells(&index.tree, filter).contains(
                index.point_cell@[p as int] as usize,
            )) == (|p: u32| filter.passes(&index.store, p as int)),
{
    let cells = index.tree.cells@;
    let list = passing_cells(&index.tree, filter);
    passing_before_is_exact(cells, filter.constraints@, cells.len() as int);
    crate::order::ascending_is_sorted(list);
    assert forall|i: int| 0 <= i < list.len() implies #[trigger] list[i] < cells.len() by {
        assert(list.contains(list[i]));
    }
    eligible_points_are_exact(index, filter);
    layout_is_catalog(
        &index.store,
        &index.tree,
        index.medoids@,
        index.global_medoid,
        index.point_cell@,
        index.original_ids@,
        &index.config,
    );
    let one = |p: u32| p < index.store.len && list.contains(index.point_cell@[p as int] as usize);
    let two = |p: u32| filter.passes(&index.store, p as int);
    assert forall|p: u32| #[trigger] one(p) == two(p) by {
        gathered_holds(cells, list, p);
        let all = eligible(&index.tree, filter);
        assert(all.contains(p) <==> two(p));
        if p < index.store.len {
            assert(point_placed(cells, index.point_cell@, p as int));
        }
        if one(p) {
            let c = index.point_cell@[p as int] as usize;
            let i = choose|i: int| 0 <= i < list.len() && list[i] == c;
            assert(cells[list[i] as int].point_ids@.contains(p));
        }
        if all.contains(p) {
            let i = choose|i: int|
                0 <= i < list.len() && #[trigger] cells[list[i] as int].point_ids@.contains(p);
            assert(list.contains(list[i]));
        }
    }
    assert(one =~= two);
}

proof fn widths_agree(k: int, ef: int, expansion: int, population: int)
    requires
        0 <= k <= usize::MAX,
        0 <= ef <= usize::MAX,
        0 <= expansion,
        0 <= population <= usize::MAX,
    ensures
        widened(
            if ef > k {
                ef
            } else {
                k
            },
            expansion,
            population,
        ) == walk_width(k, ef, expansion, population),
{
}

/// A search along the edges of the whole index: what its walk kept cannot be
/// bettered by a step along an edge, and the answers are the best of it.
///
/// Every neighbour that passes the filter of a kept point that the walk went on
/// from is kept itself, or as many points are kept as the walk is wide and none
/// of them is farther away by its code.
pub proof fn global_searches_explore<
    A: Fn(&[u32]) -> Vec<u32>,
    D: Fn(Metric, &[u32], &[u32]) -> u32,
    G: Fn(&[u32], &[u32], u64, u64) -> u32,
    N: Fn(&[u32]) -> u64,
    R: Fn(u64) -> u64,
    T: Fn(&[u32], &[u8], &[u32], &[u32]) -> u32,
    F: Fn(&[u32], &[u32], usize) -> Vec<bool>,
    U: Fn(usize, usize) -> u32,
    X: Fn(u32, u32, u32) -> bool,
    Y: Fn(u32, usize) -> usize,
    Z: Fn(Bridge) -> bool,
>(
    index: &PrismIndex,
    kernels: &SearchKernels<A, D, G, N, R, T, F, U, X, Y, Z>,
    query: Seq<u32>,
    filter: &Filter,
    k: int,
    ef: int,
    outcome: &SearchOutcome,
) -> (found: (u32, Seq<Scored>, Set<u32>, Set<u32>))
    requires
        index.wf(),
        index.tree.cells@.len() <= usize::MAX,
        0 <= k <= usize::MAX,
        0 <= ef <= usize::MAX,
        outcome_fits(index, kernels, query, filter, k, ef, outcome),
        outcome.diagnostics.primary_execution == SearchExecution::GlobalGraph,
        !outcome.diagnostics.used_exact_fallback,
    ensures
        ({
            let asked = kernels.compared(index, query);
            let key = kernels.near(index, asked);
            let wide = walk_width(
                k,
                ef,
                index.config.graph_expansion as int,
                index.store.len as int,
            );
            let passes = |p: u32| filter.passes(&index.store, p as int);
            let rows = |p: u32| index.graph.row(p as int);
            let halts = |d: u64, worst: u64|
                of3(
                    kernels.too_far,
                    index.config.epsilon,
                    pattern_of(d as u32),
                    pattern_of(worst as u32),
                );
            let (entry, best, met, crossed) = found;
            &&& starts_at(index, key, passing_cells(&index.tree, filter), entry)
            &&& explored(rows, passes, key, halts, entry, wide, best, met)
            &&& bridged(
                index,
                passes,
                key,
                |bridge: Bridge| of1(kernels.promises, bridge),
                of2(kernels.allowance, index.config.beta, wide as usize) as int,
                eligible(&index.tree, filter).len() as int,
                wide,
                met,
                met,
                crossed,
            )
            &&& forall|p: u32, i: int|
                #![trigger crossed.contains(p), rows(p)[i]]
                crossed.contains(p) && 0 <= i < rows(p).len() ==> met.contains(rows(p)[i])
                    || left_aside(key, halts, wide, best, met, key(p))
            &&& answers_best(kernels.exact(index, asked), ids_of(best), k, outcome.results@)
        }),
{
    let asked = kernels.compared(index, query);
    let key = kernels.near(index, asked);
    let n = index.store.len as int;
    let wide = walk_width(k, ef, index.config.graph_expansion as int, n);
    let cells = passing_cells(&index.tree, filter);
    passing_goes_by_cells(index, filter);
    widths_agree(k, ef, index.config.graph_expansion as int, n);
    let too_far = |d: u32, worst: u32| of3(kernels.too_far, index.config.epsilon, d, worst);
    let promises = |bridge: Bridge| of1(kernels.promises, bridge);
    let budget = of2(kernels.allowance, index.config.beta, wide as usize) as int;
    let best = crossing_found(index, key, too_far, promises, budget, cells, wide);
    let (entry, met, crossed) = crossing_walks_explore(
        index,
        key,
        too_far,
        promises,
        budget,
        cells,
        wide,
    );
    let halts = |d: u64, worst: u64|
        of3(
            kernels.too_far,
            index.config.epsilon,
            pattern_of(d as u32),
            pattern_of(worst as u32),
        );
    assert((|d: u64, worst: u64| too_far(pattern_of(d as u32), pattern_of(worst as u32)))
        =~= halts);
    let ids = ids_of(best);
    assert forall|i: int, j: int| 0 <= i < ids.len() && 0 <= j < ids.len() && i != j implies ids[i]
        != ids[j] by {
        if i < j {
            assert(best[i].1 != best[j].1);
        } else {
            assert(best[j].1 != best[i].1);
        }
    }
    ranking_answers_best(kernels.exact(index, asked), ids_of(best), k);
    (entry, best, met, crossed)
}

/// What a list holds once several entries were offered to it.
proof fn offers_improve(list: Seq<Scored>, entries: Seq<Scored>, cap: int)
    requires
        sorted(list),
        list.len() <= cap,
        cap > 0,
    ensures
        ({
            let out = offered_all(list, entries, cap);
            &&& sorted(out)
            &&& out.len() == if list.len() + entries.len() < cap {
                (list.len() + entries.len()) as int
            } else {
                cap
            }
            &&& forall|e: Scored| #[trigger]
                out.contains(e) ==> list.contains(e) || entries.contains(e)
            &&& forall|e: Scored| #[trigger]
                list.contains(e) ==> out.contains(e) || (out.len() == cap && out.last().0 <= e.0)
            &&& forall|e: Scored| #[trigger]
                entries.contains(e) ==> out.contains(e) || (out.len() == cap && out.last().0
                    <= e.0)
            &&& list.len() == cap ==> out.last().0 <= list.last().0
        }),
    decreases entries.len(),
{
    if entries.len() > 0 {
        let few = entries.drop_last();
        let entry = entries.last();
        offers_improve(list, few, cap);
        let before = offered_all(list, few, cap);
        let out = offered_all(list, entries, cap);
        offer_improves(before, entry, cap);
        assert(improved(before, entry, cap, out));
        assert forall|e: Scored| #[trigger] entries.contains(e) <==> few.contains(e) || e == entry by {
            if entries.contains(e) {
                let i = choose|i: int| 0 <= i < entries.len() && entries[i] == e;
                if i < few.len() {
                    assert(few[i] == e);
                }
            }
            if few.contains(e) {
                let i = choose|i: int| 0 <= i < few.len() && few[i] == e;
                assert(entries[i] == e);
            }
            assert(entries[entries.len() - 1] == entry);
        }
        assert forall|e: Scored| #[trigger] list.contains(e) implies out.contains(e) || (out.len()
            == cap && out.last().0 <= e.0) by {
            if before.contains(e) {
            }
        }
        assert forall|e: Scored| #[trigger] entries.contains(e) implies out.contains(e) || (
        out.len() == cap && out.last().0 <= e.0) by {
            if before.contains(e) {
            }
        }
    }
}

/// Entries in two lists of the same length, all of the first also in the second.
proof fn same_entries(few: Seq<Scored>, out: Seq<Scored>, entry: Scored)
    requires
        ids_distinct(few),
        ids_distinct(out),
        few.len() == out.len(),
        forall|i: int| 0 <= i < few.len() ==> out.contains(#[trigger] few[i]),
        out.contains(entry),
    ensures
        few.contains(entry),
{
    assert forall|i: int, j: int| 0 <= i < few.len() && 0 <= j < few.len() && i != j implies few[i]
        != few[j] by {
        if i < j {
            assert(few[i].1 != few[j].1);
        } else {
            assert(few[j].1 != few[i].1);
        }
    }
    assert forall|i: int, j: int| 0 <= i < out.len() && 0 <= j < out.len() && i != j implies out[i]
        != out[j] by {
        if i < j {
            assert(out[i].1 != out[j].1);
        } else {
            assert(out[j].1 != out[i].1);
        }
    }
    few.unique_seq_to_set();
    out.unique_seq_to_set();
    vstd::seq_lib::seq_to_set_is_finite(few);
    vstd::seq_lib::seq_to_set_is_finite(out);
    assert forall|e: Scored| #[trigger] few.to_set().contains(e) implies out.to_set().contains(e) by {
        let i = choose|i: int| 0 <= i < few.len() && few[i] == e;
        assert(out.contains(few[i]));
    }
    vstd::set_lib::lemma_subset_equality(few.to_set(), out.to_set());
    assert(few.to_set().contains(entry));
}

/// A walk within cell `c` that met the points in `met` and kept `found`.
pub open spec fn walks_cell(
    index: &PrismIndex,
    key: spec_fn(u32) -> u64,
    c: int,
    wide: int,
    found: Seq<Scored>,
    met: Set<u32>,
) -> bool {
    let ids = index.tree.cells@[c].point_ids@;
    &&& explored(
        |p: u32| index.graph.row(p as int).filter(|w: u32| ids[0] <= w <= ids.last()),
        |p: u32| true,
        key,
        |d: u64, worst: u64| worst <= d,
        index.medoids@[c],
        wide,
        found,
        met,
    )
    &&& forall|p: u32| #[trigger] met.contains(p) ==> ids.contains(p)
}

/// Cell `c` was walked through, and what the walk found is among the best, or
/// as many as asked for are, none of them farther away.
pub open spec fn is_searched(
    index: &PrismIndex,
    key: spec_fn(u32) -> u64,
    c: int,
    wide: int,
    width: int,
    best: Seq<Scored>,
) -> bool {
    exists|found: Seq<Scored>, met: Set<u32>| #[trigger]
        walks_cell(index, key, c, wide, found, met) && forall|i: int|
            0 <= i < found.len() ==> best.contains(#[trigger] found[i]) || is_beaten(
                best,
                width,
                found[i].0,
            )
}

/// The points of the first `upto` cells in `order`.
spec fn among_first(index: &PrismIndex, order: Seq<Scored>, upto: int, p: u32) -> bool {
    exists|j: int|
        0 <= j < upto && #[trigger] index.tree.cells@[order[j].1 as int].point_ids@.contains(p)
}

proof fn contributions_are_distinct(index: &PrismIndex, key: spec_fn(u32) -> u64, c: int, ef: int)
    requires
        index.wf(),
        0 <= c < index.tree.cells@.len(),
        ef > 0,
    ensures
        ({
            let wide = widened(
                ef,
                index.config.graph_expansion as int,
                index.tree.cells@[c].point_ids@.len() as int,
            );
            let found = cell_found(index, key, c, wide);
            let some = cell_contribution(index, key, c, ef);
            &&& ids_distinct(some)
            &&& ids_are(some, |p: u32| index.tree.cells@[c].point_ids@.contains(p))
            &&& sorted(some)
            &&& some.len() <= ef
            &&& exists|met: Set<u32>| #[trigger] walks_cell(index, key, c, wide, found, met)
            &&& forall|i: int|
                0 <= i < found.len() ==> some.contains(#[trigger] found[i]) || (some.len() == ef
                    && some.last().0 <= found[i].0)
        }),
{
    let ids = index.tree.cells@[c].point_ids@;
    let wide = widened(
        ef,
        index.config.graph_expansion as int,
        ids.len() as int,
    );
    let met = cell_walks_explore(index, key, c, wide);
    let found = cell_found(index, key, c, wide);
    assert(walks_cell(index, key, c, wide, found, met));
    let here = |p: u32| ids.contains(p);
    assert forall|i: int| 0 <= i < found.len() implies here((#[trigger] found[i]).1) by {
        assert(met.contains(found[i].1));
    }
    offering_all_keeps(Seq::empty(), found, ef, here, here);
    offers_improve(Seq::empty(), found, ef);
    assert forall|i: int| 0 <= i < found.len() implies cell_contribution(index, key, c, ef).contains(
        #[trigger] found[i],
    ) || (cell_contribution(index, key, c, ef).len() == ef && cell_contribution(
        index,
        key,
        c,
        ef,
    ).last().0 <= found[i].0) by {
        assert(found.contains(found[i]));
    }
}

/// What was found before stays among the best, or is beaten.
proof fn searched_stays(
    index: &PrismIndex,
    key: spec_fn(u32) -> u64,
    c: int,
    wide: int,
    ef: int,
    before: Seq<Scored>,
    some: Seq<Scored>,
)
    requires
        is_searched(index, key, c, wide, ef, before),
        sorted(before),
        before.len() <= ef,
        ef > 0,
    ensures
        is_searched(index, key, c, wide, ef, offered_all(before, some, ef)),
{
    let out = offered_all(before, some, ef);
    let (found, met) = choose|found: Seq<Scored>, met: Set<u32>| #[trigger]
        walks_cell(index, key, c, wide, found, met) && forall|i: int|
            0 <= i < found.len() ==> before.contains(#[trigger] found[i]) || is_beaten(
                before,
                ef,
                found[i].0,
            );
    offers_improve(before, some, ef);
    last_is_worst(out);
    assert(walks_cell(index, key, c, wide, found, met));
    assert forall|i: int| 0 <= i < found.len() implies out.contains(#[trigger] found[i])
        || is_beaten(out, ef, found[i].0) by {
        if !before.contains(found[i]) {
            assert(before[before.len() - 1].0 <= found[i].0);
        }
    }
}

/// What a cell contributes is among the best, or is beaten.
proof fn contributing_searches(
    index: &PrismIndex,
    key: spec_fn(u32) -> u64,
    c: int,
    ef: int,
    before: Seq<Scored>,
)
    requires
        index.wf(),
        0 <= c < index.tree.cells@.len(),
        ef > 0,
        sorted(before),
        before.len() <= ef,
        ids_distinct(offered_all(before, cell_contribution(index, key, c, ef), ef)),
    ensures
        is_searched(
            index,
            key,
            c,
            widened(
                ef,
                index.config.graph_expansion as int,
                index.tree.cells@[c].point_ids@.len() as int,
            ),
            ef,
            offered_all(before, cell_contribution(index, key, c, ef), ef),
        ),
{
    contributions_are_distinct(index, key, c, ef);
    let some = cell_contribution(index, key, c, ef);
    let out = offered_all(before, some, ef);
    let wide = widened(
        ef,
        index.config.graph_expansion as int,
        index.tree.cells@[c].point_ids@.len() as int,
    );
    let found = cell_found(index, key, c, wide);
    let met = choose|met: Set<u32>| #[trigger] walks_cell(index, key, c, wide, found, met);
    offers_improve(before, some, ef);
    last_is_worst(out);
    last_is_worst(some);
    assert forall|i: int| 0 <= i < found.len() implies out.contains(#[trigger] found[i])
        || is_beaten(out, ef, found[i].0) by {
        if !some.contains(found[i]) {
            if forall|m: int| 0 <= m < some.len() ==> out.contains(#[trigger] some[m]) {
                assert(out.contains(out[out.len() - 1]));
                same_entries(some, out, out.last());
                let m = choose|m: int| 0 <= m < some.len() && some[m] == out.last();
                assert(some[m].0 <= some.last().0);
            } else {
                let m = choose|m: int| 0 <= m < some.len() && !out.contains(#[trigger] some[m]);
                assert(some.contains(some[m]));
            }
        }
    }
    assert(walks_cell(index, key, c, wide, found, met));
}

proof fn merging_keeps_distinct(
    index: &PrismIndex,
    key: spec_fn(u32) -> u64,
    order: Seq<Scored>,
    ef: int,
    upto: int,
)
    requires
        index.wf(),
        0 <= upto <= order.len(),
        ids_distinct(order),
        forall|j: int| 0 <= j < order.len() ==> (#[trigger] order[j]).1 < index.tree.cells@.len(),
        ef > 0,
    ensures
        ({
            let out = merged_cells(index, key, order, ef, upto);
            &&& sorted(out)
            &&& out.len() <= ef
            &&& ids_distinct(out)
            &&& ids_are(out, |p: u32| among_first(index, order, upto, p))
        }),
    decreases upto,
{
    let out = merged_cells(index, key, order, ef, upto);
    if upto > 0 {
        merging_keeps_distinct(index, key, order, ef, upto - 1);
        let before = merged_cells(index, key, order, ef, upto - 1);
        let c = order[upto - 1].1 as int;
        contributions_are_distinct(index, key, c, ef);
        let some = cell_contribution(index, key, c, ef);
        let cells = index.tree.cells@;
        let here = |p: u32| cells[c].point_ids@.contains(p);
        let good = |p: u32| among_first(index, order, upto, p);
        assert forall|i: int| 0 <= i < before.len() implies good((#[trigger] before[i]).1) && !here(
            before[i].1,
        ) by {
            let p = before[i].1;
            assert(among_first(index, order, upto - 1, p));
            let j = choose|j: int|
                0 <= j < upto - 1 && #[trigger] cells[order[j].1 as int].point_ids@.contains(p);
            assert(cells[order[j].1 as int].point_ids@.contains(p));
            if here(p) {
                assert(order[j].1 != order[upto - 1].1);
                home_is_cell(index, order[j].1 as int, p);
                home_is_cell(index, c, p);
            }
        }
        assert forall|p: u32| #[trigger] here(p) implies good(p) by {
            assert(cells[order[upto - 1].1 as int].point_ids@.contains(p));
        }
        offering_all_keeps(before, some, ef, good, here);
        offers_improve(before, some, ef);
    }
}

proof fn merging_searches(
    index: &PrismIndex,
    key: spec_fn(u32) -> u64,
    order: Seq<Scored>,
    ef: int,
    upto: int,
    j: int,
)
    requires
        index.wf(),
        0 <= j < upto <= order.len(),
        ids_distinct(order),
        forall|j: int| 0 <= j < order.len() ==> (#[trigger] order[j]).1 < index.tree.cells@.len(),
        ef > 0,
    ensures
        is_searched(
            index,
            key,
            order[j].1 as int,
            widened(
                ef,
                index.config.graph_expansion as int,
                index.tree.cells@[order[j].1 as int].point_ids@.len() as int,
            ),
            ef,
            merged_cells(index, key, order, ef, upto),
        ),
    decreases upto,
{
    let before = merged_cells(index, key, order, ef, upto - 1);
    let last = order[upto - 1].1 as int;
    let some = cell_contribution(index, key, last, ef);
    merging_keeps_distinct(index, key, order, ef, upto - 1);
    merging_keeps_distinct(index, key, order, ef, upto);
    if j < upto - 1 {
        merging_searches(index, key, order, ef, upto - 1, j);
        let c = order[j].1 as int;
        let population = index.tree.cells@[c].point_ids@.len() as int;
        let wide = widened(ef, index.config.graph_expansion as int, population);
        searched_stays(index, key, c, wide, ef, before, some);
    } else {
        contributing_searches(index, key, last, ef, before);
    }
}

proof fn last_is_worst(list: Seq<Scored>)
    requires
        sorted(list),
    ensures
        forall|i: int| 0 <= i < list.len() ==> (#[trigger] list[i]).0 <= list.last().0,
{
    assert forall|i: int| 0 <= i < list.len() implies (#[trigger] list[i]).0 <= list.last().0 by {
        assert(list[i].rank() <= list[list.len() - 1].rank());
    }
}

/// A point of a cell has it as its cell.
proof fn home_is_cell(index: &PrismIndex, c: int, p: u32)
    requires
        index.wf(),
        0 <= c < index.tree.cells@.len(),
        index.tree.cells@[c].point_ids@.contains(p),
    ensures
        p < index.store.len,
        index.point_cell@[p as int] == c,
{
    layout_is_catalog(
        &index.store,
        &index.tree,
        index.medoids@,
        index.global_medoid,
        index.point_cell@,
        index.original_ids@,
        &index.config,
    );
}

/// A search along the edges within cells: every cell that passes was walked
/// through, what the walks found is among the kept points or not nearer than any
/// of them, and the answers are the best of the kept points.
pub proof fn local_searches_explore<
    A: Fn(&[u32]) -> Vec<u32>,
    D: Fn(Metric, &[u32], &[u32]) -> u32,
    G: Fn(&[u32], &[u32], u64, u64) -> u32,
    N: Fn(&[u32]) -> u64,
    R: Fn(u64) -> u64,
    T: Fn(&[u32], &[u8], &[u32], &[u32]) -> u32,
    F: Fn(&[u32], &[u32], usize) -> Vec<bool>,
    U: Fn(usize, usize) -> u32,
    X: Fn(u32, u32, u32) -> bool,
    Y: Fn(u32, usize) -> usize,
    Z: Fn(Bridge) -> bool,
>(
    index: &PrismIndex,
    kernels: &SearchKernels<A, D, G, N, R, T, F, U, X, Y, Z>,
    query: Seq<u32>,
    filter: &Filter,
    k: int,
    ef: int,
    outcome: &SearchOutcome,
) -> (best: Seq<Scored>)
    requires
        index.wf(),
        index.tree.cells@.len() <= usize::MAX,
        0 <= k <= usize::MAX,
        0 <= ef <= usize::MAX,
        outcome_fits(index, kernels, query, filter, k, ef, outcome),
        outcome.diagnostics.primary_execution == SearchExecution::LocalGraph,
        !outcome.diagnostics.used_exact_fallback,
    ensures
        ({
            let asked = kernels.compared(index, query);
            let key = kernels.near(index, asked);
            let width = if ef > k {
                ef
            } else {
                k
            };
            &&& best.len() <= width
            &&& forall|i: int|
                0 <= i < best.len() ==> filter.passes(
                    &index.store,
                    (#[trigger] best[i]).1 as int,
                )
            &&& forall|c: usize| #[trigger]
                passing_cells(&index.tree, filter).contains(c) ==> is_searched(
                    index,
                    key,
                    c as int,
                    walk_width(
                        k,
                        ef,
                        index.config.graph_expansion as int,
                        index.tree.cells@[c as int].point_ids@.len() as int,
                    ),
                    width,
                    best,
                )
            &&& answers_best(kernels.exact(index, asked), ids_of(best), k, outcome.results@)
        }),
{
    let asked = kernels.compared(index, query);
    let key = kernels.near(index, asked);
    let width = if ef > k {
        ef
    } else {
        k
    };
    let cells = passing_cells(&index.tree, filter);
    passing_goes_by_cells(index, filter);
    crate::descent::cells_are_few(index);
    let entries = cells.map_values(
        |c: usize| (key(index.medoids@[c as int]), c as u32),
    );
    let order = cells_by_entry(index, key, cells);
    arranged_is_sorted(entries);
    assert forall|i: int| 0 <= i < cells.len() implies entries[i] == (
        key(index.medoids@[#[trigger] cells[i] as int]),
        cells[i] as u32,
    ) && cells[i] < index.tree.cells@.len() by {}
    assert forall|i: int, j: int| 0 <= i < j < entries.len() implies (#[trigger] entries[i]).1 != (
    #[trigger] entries[j]).1 by {
        assert(cells[i] != cells[j]);
    }
    order_is_distinct(entries, order);
    assert forall|j: int| 0 <= j < order.len() implies (#[trigger] order[j]).1
        < index.tree.cells@.len() && cells.contains(order[j].1 as usize) by {
        arranged_holds(entries, order[j]);
        assert(order.contains(order[j]));
        let i = choose|i: int| 0 <= i < entries.len() && entries[i] == order[j];
        assert(cells[i] < index.tree.cells@.len());
    }
    let n = order.len() as int;
    let best = merged_cells(index, key, order, width, n);
    merging_keeps_distinct(index, key, order, width, n);
    let passes = |p: u32| filter.passes(&index.store, p as int);
    assert forall|i: int| 0 <= i < best.len() implies filter.passes(
        &index.store,
        (#[trigger] best[i]).1 as int,
    ) by {
        let p = best[i].1;
        assert(among_first(index, order, n, p));
        let j = choose|j: int|
            0 <= j < n && #[trigger] index.tree.cells@[order[j].1 as int].point_ids@.contains(p);
        assert(cells.contains(order[j].1 as usize));
        home_is_cell(index, order[j].1 as int, p);
        assert(passes(p));
    }
    assert forall|c: usize| #[trigger] cells.contains(c) implies is_searched(
        index,
        key,
        c as int,
        walk_width(
            k,
            ef,
            index.config.graph_expansion as int,
            index.tree.cells@[c as int].point_ids@.len() as int,
        ),
        width,
        best,
    ) by {
        let i = choose|i: int| 0 <= i < cells.len() && cells[i] == c;
        arranged_holds(entries, entries[i]);
        assert(entries.contains(entries[i]));
        let j = choose|j: int| 0 <= j < order.len() && order[j] == entries[i];
        assert(order[j].1 == c);
        let population = index.tree.cells@[c as int].point_ids@.len() as int;
        cell_facts(index, c as int);
        widths_agree(k, ef, index.config.graph_expansion as int, population);
        merging_searches(index, key, order, width, n, j);
    }
    let ids = ids_of(best);
    assert forall|i: int, j: int| 0 <= i < ids.len() && 0 <= j < ids.len() && i != j implies ids[i]
        != ids[j] by {
        if i < j {
            assert(best[i].1 != best[j].1);
        } else {
            assert(best[j].1 != best[i].1);
        }
    }
    ranking_answers_best(kernels.exact(index, asked), ids, k);
    best
}

} // verus!
