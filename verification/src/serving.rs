//! Which way a search takes.

use vstd::prelude::*;
use crate::crossing::Bridge;
use crate::distance::Metric;
use crate::filter::Filter;
use crate::index::PrismIndex;
use crate::pure::of2;
use crate::query::{exact_searches_are_exact, outcome_fits, SearchKernels};
use crate::search::{
    eligible, eligible_points_are_exact, passing_cells, plan_for, ranking_is_exact, SearchExecution,
    SearchOutcome,
};
use crate::single::{is_finite, less};
use crate::thorough::{answers_best, ranking_answers_best};

verus! {

/// The filter is narrow, or distances are inner products: all points that pass
/// are measured.
pub open spec fn is_narrow(index: &PrismIndex, selectivity: u32) -> bool {
    ||| index.config.metric == Metric::InnerProduct
    ||| !less(index.config.sigma_low, selectivity) && (!is_finite(selectivity) || less(
        selectivity,
        index.config.sigma_high,
    ))
}

/// So few points pass that they are scanned: no more than the threshold, or,
/// where they lie in several cells but not in all, no more than the threshold
/// for these.
pub open spec fn are_few(index: &PrismIndex, points: int, cells: int) -> bool {
    ||| 0 < points <= index.config.scan_threshold
    ||| 1 < cells < index.tree.cells@.len() && 0 < points <= index.config.multi_cell_scan_threshold
}

/// Narrow filters, filters that few points pass, and inner products are answered
/// exactly, unless sketches preselect: the answers are the best of all points
/// that pass.
pub proof fn narrow_searches_are_exact<
    A: Fn(&[u32]) -> Vec<u32>,
    D: Fn(Metric, &[u32], &[u32]) -> u32,
    G: Fn(&[u32], &[u32], u64, u64) -> u32,
    N: Fn(&[u32]) -> u64,
    R: Fn(u64) -> u64,
    T: Fn(&[u32], &[u8], &[u32], &[u32]) -> u32,
    F: Fn(&[u32], &[u32], usize) -> Vec<bool>,
    U: Fn(usize, usize) -> u32,
    X: Fn(u32, u32, u32) -> bool,
    Y: Fn(u32, usize) -> usize,
    Z: Fn(Bridge) -> bool,
>(
    index: &PrismIndex,
    kernels: &SearchKernels<A, D, G, N, R, T, F, U, X, Y, Z>,
    query: Seq<u32>,
    filter: &Filter,
    k: int,
    ef: int,
    outcome: &SearchOutcome,
)
    requires
        index.wf(),
        index.tree.cells@.len() <= usize::MAX,
        0 <= k <= usize::MAX,
        0 <= ef <= usize::MAX,
        outcome_fits(index, kernels, query, filter, k, ef, outcome),
        ({
            let points = eligible(&index.tree, filter).len() as int;
            let cells = passing_cells(&index.tree, filter).len() as int;
            let width = if ef > k {
                ef
            } else {
                k
            };
            ||| is_narrow(index, of2(kernels.ratio, points as usize, index.store.len))
            ||| are_few(index, points, cells) && (index.config.binary_rerank == 0 || points
                <= index.config.binary_rerank * width)
        }),
    ensures
        answers_best(
            kernels.exact(index, kernels.compared(index, query)),
            eligible(&index.tree, filter),
            k,
            outcome.results@,
        ),
        !outcome.diagnostics.used_exact_fallback,
        k > 0 && eligible(&index.tree, filter).len() > 0
            ==> outcome.diagnostics.primary_execution == SearchExecution::ExactScan,
{
    let all = eligible(&index.tree, filter);
    let exact = kernels.exact(index, kernels.compared(index, query));
    eligible_points_are_exact(index, filter);
    points_are_countable(index, filter);
    ranking_answers_best(exact, all, k);
    ranking_is_exact(exact, all, k);
    let plan = plan_for(index, filter, kernels.ratio);
    let target = crate::query::target_of(plan, k);
    if target == 0 {
        assert(k == 0 || all.len() == 0);
        assert(outcome.results@ =~= crate::search::ranked(exact, all, k));
    } else {
        let width = if ef > k {
            ef
        } else {
            k
        };
        assert(all.len() <= crate::descent::rerank_budget(
            index.config.binary_rerank as int,
            width,
        ) || all.len() > index.config.binary_rerank * width);
        exact_searches_are_exact(index, kernels, query, filter, k, ef, outcome);
    }
}

proof fn points_are_countable(index: &PrismIndex, filter: &Filter)
    requires
        index.wf(),
        index.tree.cells@.len() <= usize::MAX,
    ensures
        eligible(&index.tree, filter).len() <= index.store.len <= usize::MAX,
        passing_cells(&index.tree, filter).len() <= usize::MAX,
{
    eligible_points_are_exact(index, filter);
    crate::search::passing_before_is_exact(
        index.tree.cells@,
        filter.constraints@,
        index.tree.cells@.len() as int,
    );
    let cells = passing_cells(&index.tree, filter);
    crate::order::ascending_is_sorted(cells);
    few_cells(cells, index.tree.cells@.len() as int);
}

proof fn few_cells(cells: Seq<usize>, n: int)
    requires
        cells.no_duplicates(),
        0 <= n,
        forall|c: usize| cells.contains(c) ==> c < n,
    ensures
        cells.len() <= n,
{
    let numbers = cells.map_values(|c: usize| c as int);
    assert(numbers.no_duplicates());
    numbers.unique_seq_to_set();
    vstd::set_lib::lemma_int_range(0, n);
    assert forall|x: int| numbers.to_set().contains(x) implies vstd::set_lib::set_int_range(
        0,
        n,
    ).contains(x) by {
        let i = choose|i: int| 0 <= i < numbers.len() && numbers[i] == x;
        assert(cells.contains(cells[i]));
    }
    vstd::set_lib::lemma_len_subset(numbers.to_set(), vstd::set_lib::set_int_range(0, n));
}

/// The other searches follow edges: those of the whole index where several cells
/// pass and the index has such edges, otherwise those within cells.  Where this
/// finds too few points, all that pass are measured.
pub proof fn broad_searches_follow_edges<
    A: Fn(&[u32]) -> Vec<u32>,
    D: Fn(Metric, &[u32], &[u32]) -> u32,
    G: Fn(&[u32], &[u32], u64, u64) -> u32,
    N: Fn(&[u32]) -> u64,
    R: Fn(u64) -> u64,
    T: Fn(&[u32], &[u8], &[u32], &[u32]) -> u32,
    F: Fn(&[u32], &[u32], usize) -> Vec<bool>,
    U: Fn(usize, usize) -> u32,
    X: Fn(u32, u32, u32) -> bool,
    Y: Fn(u32, usize) -> usize,
    Z: Fn(Bridge) -> bool,
>(
    index: &PrismIndex,
    kernels: &SearchKernels<A, D, G, N, R, T, F, U, X, Y, Z>,
    query: Seq<u32>,
    filter: &Filter,
    k: int,
    ef: int,
    outcome: &SearchOutcome,
)
    requires
        index.wf(),
        index.tree.cells@.len() <= usize::MAX,
        0 < k <= usize::MAX,
        0 <= ef <= usize::MAX,
        outcome_fits(index, kernels, query, filter, k, ef, outcome),
        eligible(&index.tree, filter).len() > 0,
        ({
            let points = eligible(&index.tree, filter).len() as int;
            let cells = passing_cells(&index.tree, filter).len() as int;
            &&& !is_narrow(index, of2(kernels.ratio, points as usize, index.store.len))
            &&& !are_few(index, points, cells)
        }),
    ensures
        ({
            let all = eligible(&index.tree, filter);
            let due = if k < all.len() {
                k
            } else {
                all.len() as int
            };
            let found = outcome.diagnostics;
            &&& found.primary_execution == if passing_cells(&index.tree, filter).len() > 1 && less(
                index.config.sigma_low,
                index.config.sigma_high,
            ) && (index.config.m_greedy > 0 || index.config.m_random > 0) {
                SearchExecution::GlobalGraph
            } else {
                SearchExecution::LocalGraph
            }
            &&& found.used_exact_fallback <==> found.primary_result_count < due
            &&& found.used_exact_fallback ==> answers_best(
                kernels.exact(index, kernels.compared(index, query)),
                all,
                k,
                outcome.results@,
            )
            &&& !found.used_exact_fallback ==> outcome.results@.len() == found.primary_result_count
        }),
{
    let all = eligible(&index.tree, filter);
    let exact = kernels.exact(index, kernels.compared(index, query));
    eligible_points_are_exact(index, filter);
    points_are_countable(index, filter);
    ranking_answers_best(exact, all, k);
    ranking_is_exact(exact, all, k);
}

/// Where few points pass but sketches are in use and the points are more than
/// they leave, sketches preselect.
pub proof fn few_points_are_preselected<
    A: Fn(&[u32]) -> Vec<u32>,
    D: Fn(Metric, &[u32], &[u32]) -> u32,
    G: Fn(&[u32], &[u32], u64, u64) -> u32,
    N: Fn(&[u32]) -> u64,
    R: Fn(u64) -> u64,
    T: Fn(&[u32], &[u8], &[u32], &[u32]) -> u32,
    F: Fn(&[u32], &[u32], usize) -> Vec<bool>,
    U: Fn(usize, usize) -> u32,
    X: Fn(u32, u32, u32) -> bool,
    Y: Fn(u32, usize) -> usize,
    Z: Fn(Bridge) -> bool,
>(
    index: &PrismIndex,
    kernels: &SearchKernels<A, D, G, N, R, T, F, U, X, Y, Z>,
    query: Seq<u32>,
    filter: &Filter,
    k: int,
    ef: int,
    outcome: &SearchOutcome,
)
    requires
        index.wf(),
        index.tree.cells@.len() <= usize::MAX,
        0 < k <= usize::MAX,
        0 <= ef <= usize::MAX,
        outcome_fits(index, kernels, query, filter, k, ef, outcome),
        ({
            let points = eligible(&index.tree, filter).len() as int;
            let cells = passing_cells(&index.tree, filter).len() as int;
            let width = if ef > k {
                ef
            } else {
                k
            };
            &&& !is_narrow(index, of2(kernels.ratio, points as usize, index.store.len))
            &&& are_few(index, points, cells)
            &&& index.config.binary_rerank > 0
            &&& points > index.config.binary_rerank * width
        }),
    ensures
        outcome.diagnostics.primary_execution == SearchExecution::BinaryPrefilterScan,
{
    let all = eligible(&index.tree, filter);
    points_are_countable(index, filter);
    let width = if ef > k {
        ef
    } else {
        k
    };
    assert(crate::descent::rerank_budget(index.config.binary_rerank as int, width)
        == index.config.binary_rerank * width);
}

/// A plan counts the points and the cells that pass.
pub proof fn plans_count_what_passes<T: Fn(usize, usize) -> u32>(
    index: &PrismIndex,
    filter: &Filter,
    ratio: T,
)
    requires
        index.wf(),
        index.tree.cells@.len() <= usize::MAX,
    ensures
        ({
            let plan = plan_for(index, filter, ratio);
            let points = Set::new(
                |p: u32| p < index.store.len && filter.passes(&index.store, p as int),
            );
            let cells = Set::new(
                |c: usize|
                    c < index.tree.cells@.len() && crate::filter::tuple_passes(
                        filter.constraints@,
                        index.tree.cells@[c as int].values@,
                    ),
            );
            &&& points.finite() && plan.matching_points == points.len()
            &&& cells.finite() && plan.matching_cells == cells.len()
            &&& plan.selectivity == of2(ratio, plan.matching_points, index.store.len)
        }),
{
    let all = eligible(&index.tree, filter);
    let some = passing_cells(&index.tree, filter);
    let count = index.tree.cells@.len() as int;
    points_are_countable(index, filter);
    eligible_points_are_exact(index, filter);
    let points = Set::new(|p: u32| p < index.store.len && filter.passes(&index.store, p as int));
    assert(all.to_set() =~= points) by {
        assert forall|p: u32| all.to_set().contains(p) <==> points.contains(p) by {
            assert(all.contains(p) <==> filter.passes(&index.store, p as int));
        }
    }
    all.unique_seq_to_set();
    vstd::seq_lib::seq_to_set_is_finite(all);
    crate::search::passing_before_is_exact(index.tree.cells@, filter.constraints@, count);
    crate::order::ascending_is_sorted(some);
    let cells = Set::new(
        |c: usize|
            c < count && crate::filter::tuple_passes(
                filter.constraints@,
                index.tree.cells@[c as int].values@,
            ),
    );
    assert(some.to_set() =~= cells);
    some.unique_seq_to_set();
    vstd::seq_lib::seq_to_set_is_finite(some);
}

} // verus!
