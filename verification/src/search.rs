//! Filtered search: planning, exact ranking, and what a search reports.

use vstd::prelude::*;
use crate::config::PrismConfig;
use crate::distance::{from_ord_key, ord_key, ord_key_round_trip, Metric};
use crate::error::{ends, overflow, PrismResult, Verdict};
use crate::filter::{tuple_passes, within_schema, Filter};
use crate::index::{layout_is_catalog, PrismIndex};
use crate::order::{
    arranged, arranged_holds, arranged_is_sorted, ascending, ascending_is_unique, lowest,
    sorted_copy, Ranked,
};
use crate::partition::{gathered, gathered_holds, holds_tuple, names_cells, Cell, PartitionTree};
use crate::pure::{
    angle_value, gives_angles, measures_by, metric_value, of1, of2, row_number, total2,
};
use crate::select::{nearest, Scored};
use crate::single::{finite, is_finite, less, less_than, order_of};

verus! {

/// A result of a search.
#[derive(Clone, Copy, Debug)]
pub struct SearchResult {
    /// Number of the point in the index.
    pub id: u32,
    /// Its distance, as a bit pattern.
    pub dist: u32,
}

/// How broad a filter is.
#[derive(Clone, Copy, Debug, PartialEq, Eq, Structural)]
pub enum SearchRegime {
    /// A broad filter.
    High,
    /// A filter between broad and narrow.
    Mid,
    /// A narrow filter: the eligible cells are scanned.
    Low,
    /// A metric that is always scanned.
    Exact,
}

/// What the first phase of a search did.
#[derive(Clone, Copy, Debug, PartialEq, Eq, Structural)]
pub enum SearchExecution {
    /// Nothing was to be done.
    NoWork,
    /// Every eligible point was measured.
    ExactScan,
    /// Sketches preselected among all eligible points.
    BinaryPrefilterScan,
    /// The edges within each eligible cell were followed.
    LocalGraph,
    /// The edges of the whole index were followed.
    GlobalGraph,
}

/// How a filter is served.
#[derive(Clone, Copy, Debug, PartialEq, Eq, Structural)]
pub struct SearchPlan {
    pub regime: SearchRegime,
    /// Number of cells that pass.
    pub matching_cells: usize,
    /// Number of points that pass.
    pub matching_points: usize,
    /// Their share of all points, as a bit pattern.
    pub selectivity: u32,
}

/// What a search did.
#[derive(Clone, Copy, Debug, PartialEq, Eq, Structural)]
pub struct SearchDiagnostics {
    pub plan: SearchPlan,
    /// What the first phase did.
    pub primary_execution: SearchExecution,
    /// How many results the first phase had.
    pub primary_result_count: usize,
    /// Whether the eligible points were scanned because there were too few.
    pub used_exact_fallback: bool,
    /// How many results were due.
    pub target_result_count: usize,
    /// How many results there are.
    pub final_result_count: usize,
    /// Whether there are as many as were due.
    pub complete: bool,
}

/// The results of a search and what it did.
#[derive(Clone, Debug)]
pub struct SearchOutcome {
    pub results: Vec<SearchResult>,
    pub diagnostics: SearchDiagnostics,
}

/// The cells before `upto` whose tuple passes.
pub open spec fn passing_before(cells: Seq<Cell>, constraints: Seq<(usize, Vec<u32>)>, upto: int) -> Seq<
    usize,
>
    decreases upto,
{
    if upto <= 0 {
        Seq::empty()
    } else if tuple_passes(constraints, cells[upto - 1].values@) {
        passing_before(cells, constraints, upto - 1).push((upto - 1) as usize)
    } else {
        passing_before(cells, constraints, upto - 1)
    }
}

/// The cells whose tuple passes.
pub open spec fn passing_cells(tree: &PartitionTree, filter: &Filter) -> Seq<usize> {
    passing_before(tree.cells@, filter.constraints@, tree.cells@.len() as int)
}

/// The points of the cells whose tuple passes.
pub open spec fn eligible(tree: &PartitionTree, filter: &Filter) -> Seq<u32> {
    gathered(tree.cells@, passing_cells(tree, filter))
}

/// The cells listed are those that pass, in order.
pub proof fn passing_before_is_exact(cells: Seq<Cell>, constraints: Seq<(usize, Vec<u32>)>, upto: int)
    requires
        0 <= upto <= cells.len() <= usize::MAX,
    ensures
        ascending(passing_before(cells, constraints, upto)),
        forall|c: usize|
            passing_before(cells, constraints, upto).contains(c) <==> c < upto && tuple_passes(
                constraints,
                cells[c as int].values@,
            ),
    decreases upto,
{
    let list = passing_before(cells, constraints, upto);
    if upto > 0 {
        passing_before_is_exact(cells, constraints, upto - 1);
        let few = passing_before(cells, constraints, upto - 1);
        let last = (upto - 1) as usize;
        assert forall|c: usize| list.contains(c) <==> c < upto && tuple_passes(
            constraints,
            cells[c as int].values@,
        ) by {
            if tuple_passes(constraints, cells[upto - 1].values@) {
                assert(list[few.len() as int] == last);
                if few.contains(c) {
                    let i = choose|i: int| 0 <= i < few.len() && few[i] == c;
                    assert(list[i] == c);
                }
                if list.contains(c) && c != last {
                    let i = choose|i: int| 0 <= i < list.len() && list[i] == c;
                    assert(few[i] == c);
                }
            }
        }
        assert forall|i: int, j: int| 0 <= i < j < list.len() implies list[i] < list[j] by {
            if j == few.len() {
                assert(few.contains(few[i]));
            }
        }
    }
}

/// The cells that pass, and how their points are numbered.
pub fn cells_for(index: &PrismIndex, filter: &Filter) -> (list: Vec<usize>)
    requires
        index.wf(),
        within_schema(filter.constraints@, index.store.arity()),
    ensures
        list@ == passing_cells(&index.tree, filter),
        names_cells(list@, index.tree.cells@.len() as int),
{
    let list = index.tree.filter_cells_unchecked(filter.constraints());
    let count: usize = index.tree.cells.len();
    proof {
        passing_before_is_exact(index.tree.cells@, filter.constraints@, count as int);
        let due = passing_cells(&index.tree, filter);
        assert forall|c: usize| list@.contains(c) <==> due.contains(c) by {
            assert(list@.contains(c) <==> index.tree.cell_passes(filter.constraints@, c as int));
        }
        ascending_is_unique(list@, due);
    }
    list
}

proof fn gathered_is_distinct(index: &PrismIndex, indices: Seq<usize>)
    requires
        index.wf(),
        ascending(indices),
        names_cells(indices, index.tree.cells@.len() as int),
    ensures
        gathered(index.tree.cells@, indices).no_duplicates(),
    decreases indices.len(),
{
    let cells = index.tree.cells@;
    if indices.len() > 0 {
        let few = indices.drop_last();
        assert(ascending(few));
        assert(names_cells(few, cells.len() as int));
        gathered_is_distinct(index, few);
        layout_is_catalog(
            &index.store,
            &index.tree,
            index.medoids@,
            index.global_medoid,
            index.point_cell@,
            index.original_ids@,
            &index.config,
        );
        let a = gathered(cells, few);
        let c = indices.last() as int;
        let b = cells[c].point_ids@;
        let all = gathered(cells, indices);
        assert(indices[indices.len() - 1] < cells.len());
        assert forall|i: int, j: int| 0 <= i < j < all.len() implies all[i] != all[j] by {
            if j < a.len() {
                assert(a[i] != a[j]);
            } else if i < a.len() {
                if all[i] == all[j] {
                    let p = all[i];
                    assert(b[j - a.len()] == p);
                    assert(b.contains(p));
                    assert(a[i] == p);
                    assert(a.contains(p));
                    gathered_holds(cells, few, p);
                    let m = choose|m: int|
                        0 <= m < few.len() && #[trigger] cells[few[m] as int].point_ids@.contains(p);
                    assert(few[m] < cells.len());
                    assert(indices[m] < indices[indices.len() - 1]);
                    assert(index.point_cell@[p as int] == few[m]);
                    assert(index.point_cell@[p as int] == c);
                }
            } else {
                assert(b[i - a.len()] == b[0] + (i - a.len()));
                assert(b[j - a.len()] == b[0] + (j - a.len()));
            }
        }
    }
}

/// The eligible points are exactly those that pass the filter, each once.
pub proof fn eligible_points_are_exact(index: &PrismIndex, filter: &Filter)
    requires
        index.wf(),
        index.tree.cells@.len() <= usize::MAX,
    ensures
        eligible(&index.tree, filter).no_duplicates(),
        forall|p: u32|
            #![trigger eligible(&index.tree, filter).contains(p)]
            eligible(&index.tree, filter).contains(p) <==> filter.passes(&index.store, p as int),
        eligible(&index.tree, filter).len() <= index.store.len,
{
    let cells = index.tree.cells@;
    let list = passing_cells(&index.tree, filter);
    passing_before_is_exact(cells, filter.constraints@, cells.len() as int);
    assert forall|i: int| 0 <= i < list.len() implies #[trigger] list[i] < cells.len() by {
        assert(list.contains(list[i]));
    }
    gathered_is_distinct(index, list);
    layout_is_catalog(
        &index.store,
        &index.tree,
        index.medoids@,
        index.global_medoid,
        index.point_cell@,
        index.original_ids@,
        &index.config,
    );
    let all = eligible(&index.tree, filter);
    assert forall|p: u32| #![trigger all.contains(p)] all.contains(p) <==> filter.passes(
        &index.store,
        p as int,
    ) by {
        gathered_holds(cells, list, p);
        if all.contains(p) {
            let i = choose|i: int|
                0 <= i < list.len() && #[trigger] cells[list[i] as int].point_ids@.contains(p);
            assert(list.contains(list[i]));
        }
        if filter.passes(&index.store, p as int) {
            assert(holds_tuple(cells, index.store.tuple(p as int)));
            let c = choose|c: int|
                0 <= c < cells.len() && (#[trigger] cells[c]).values@ == index.store.tuple(p as int);
            assert(cells[c].point_ids@.contains(p));
            assert(list.contains(c as usize));
            let i = choose|i: int| 0 <= i < list.len() && list[i] == c as usize;
            assert(cells[list[i] as int].point_ids@.contains(p));
        }
    }
    assert forall|i: int| 0 <= i < all.len() implies #[trigger] all[i] < index.store.len by {
        assert(all.contains(all[i]));
    }
    few_distinct(all, index.store.len as int);
}

/// Distinct numbers below `n` are at most `n`.
pub proof fn few_distinct(ids: Seq<u32>, n: int)
    requires
        ids.no_duplicates(),
        0 <= n,
        forall|i: int| 0 <= i < ids.len() ==> #[trigger] ids[i] < n,
    ensures
        ids.len() <= n,
{
    let used = ids.map_values(|x: u32| x as int);
    assert(used.no_duplicates());
    used.unique_seq_to_set();
    vstd::set_lib::lemma_int_range(0, n);
    assert(used.to_set().subset_of(vstd::set_lib::set_int_range(0, n))) by {
        assert forall|x: int| used.to_set().contains(x) implies vstd::set_lib::set_int_range(0, n).contains(
            x,
        ) by {
            let i = choose|i: int| 0 <= i < used.len() && used[i] == x;
            assert(ids[i] < n);
        }
    }
    vstd::set_lib::lemma_len_subset(used.to_set(), vstd::set_lib::set_int_range(0, n));
}

/// How broad a filter with this share of the points is.
pub open spec fn regime_for(config: &PrismConfig, selectivity: u32) -> SearchRegime {
    if config.metric == Metric::InnerProduct {
        SearchRegime::Exact
    } else if is_finite(selectivity) && !less(selectivity, config.sigma_high) {
        SearchRegime::High
    } else if less(config.sigma_low, selectivity) {
        SearchRegime::Mid
    } else {
        SearchRegime::Low
    }
}

/// How a filter is served; `ratio` divides two counts.
pub open spec fn plan_for<T: Fn(usize, usize) -> u32>(
    index: &PrismIndex,
    filter: &Filter,
    ratio: T,
) -> SearchPlan {
    let points = eligible(&index.tree, filter).len() as usize;
    let selectivity = of2(ratio, points, index.store.len);
    SearchPlan {
        regime: regime_for(&index.config, selectivity),
        matching_cells: passing_cells(&index.tree, filter).len() as usize,
        matching_points: points,
        selectivity,
    }
}

impl PrismIndex {
    /// The number that a point had when it was added.
    pub fn original_id(&self, internal_id: u32) -> (id: Option<u32>)
        ensures
            id == if internal_id < self.original_ids@.len() {
                Some(self.original_ids@[internal_id as int])
            } else {
                None
            },
    {
        if (internal_id as usize) < self.original_ids.len() {
            Some(self.original_ids[internal_id as usize])
        } else {
            None
        }
    }

    /// Plans how a filter is served.
    pub fn plan_filter<T: Fn(usize, usize) -> u32>(&self, filter: &Filter, ratio: &T) -> (result:
        PrismResult<SearchPlan>)
        requires
            self.wf(),
            total2(*ratio),
        ensures
            ends(
                result,
                if within_schema(filter.constraints@, self.store.arity()) {
                    Verdict::Accepted
                } else {
                    Verdict::InvalidInput
                },
            ),
            result matches Ok(plan) ==> plan == plan_for(self, filter, *ratio),
            result matches Ok(plan) ==> {
                &&& plan.matching_points == eligible(&self.tree, filter).len()
                &&& plan.matching_cells == passing_cells(&self.tree, filter).len()
            },
    {
        match filter.validate(self.store.k()) {
            Ok(()) => {},
            Err(error) => {
                return Err(error);
            },
        }
        let cells = cells_for(self, filter);
        let count: usize = self.tree.cells.len();
        proof {
            assert(count <= usize::MAX);
            eligible_points_are_exact(self, filter);
        }
        let points: usize = match self.tree.count_points_unchecked(cells.as_slice()) {
            Some(points) => points,
            None => {
                return Err(overflow("matching point count exceeds addressable memory"));
            },
        };
        let selectivity: u32 = ratio(points, self.store.len());
        let regime = if self.config.metric == Metric::InnerProduct {
            SearchRegime::Exact
        } else if finite(selectivity) && !less_than(selectivity, self.config.sigma_high) {
            SearchRegime::High
        } else if less_than(self.config.sigma_low, selectivity) {
            SearchRegime::Mid
        } else {
            SearchRegime::Low
        };
        Ok(
            SearchPlan {
                regime,
                matching_cells: cells.len(),
                matching_points: points,
                selectivity,
            },
        )
    }
}

/// The distance of point `p` from a query, as a bit pattern.  Where angles are
/// compared it is found from the norms.
pub open spec fn exact_pattern<
    D: Fn(Metric, &[u32], &[u32]) -> u32,
    G: Fn(&[u32], &[u32], u64, u64) -> u32,
>(index: &PrismIndex, measure: D, angle: G, query: Seq<u32>, norm: u64, p: u32) -> u32 {
    if index.config.metric == Metric::Cosine {
        angle_value(
            angle,
            query,
            index.store.row(p as int),
            norm,
            index.cosine_norms.values@[p as int],
        )
    } else {
        metric_value(measure, index.config.metric, query, index.store.row(p as int))
    }
}

/// Points with their distances as keys.
pub open spec fn scored(exact: spec_fn(u32) -> u32, ids: Seq<u32>) -> Seq<Scored> {
    ids.map_values(|p: u32| (order_of(exact(p)) as u64, p))
}

/// Point `p` as a result.
pub open spec fn result_for(exact: spec_fn(u32) -> u32, p: u32) -> SearchResult {
    SearchResult { id: p, dist: exact(p) }
}

/// The `k` points with the least distances, ties going to the lower number.
pub open spec fn ranked(exact: spec_fn(u32) -> u32, ids: Seq<u32>, k: int) -> Seq<SearchResult> {
    lowest(scored(exact, ids), k).map_values(|entry: Scored| result_for(exact, entry.1))
}

/// `left` comes before `right` in the order of results.
pub open spec fn comes_first(left: SearchResult, right: SearchResult) -> bool {
    order_of(left.dist) < order_of(right.dist) || (left.dist == right.dist && left.id <= right.id)
}

/// Ranking returns as many of the points as asked for, each with its distance,
/// nearest first, and leaves out only points that come later.
pub proof fn ranking_is_exact(exact: spec_fn(u32) -> u32, ids: Seq<u32>, k: int)
    requires
        0 <= k,
    ensures
        ranked(exact, ids, k).len() == if k < ids.len() {
            k
        } else {
            ids.len() as int
        },
        forall|i: int|
            0 <= i < ranked(exact, ids, k).len() ==> {
                &&& ids.contains((#[trigger] ranked(exact, ids, k)[i]).id)
                &&& ranked(exact, ids, k)[i].dist == exact(ranked(exact, ids, k)[i].id)
            },
        forall|i: int, j: int|
            0 <= i < j < ranked(exact, ids, k).len() ==> comes_first(
                #[trigger] ranked(exact, ids, k)[i],
                #[trigger] ranked(exact, ids, k)[j],
            ),
        ids.no_duplicates() ==> forall|i: int, j: int|
            0 <= i < j < ranked(exact, ids, k).len() ==> (#[trigger] ranked(exact, ids, k)[i]).id != (
            #[trigger] ranked(exact, ids, k)[j]).id,
        forall|p: u32, i: int|
            ids.contains(p) && 0 <= i < ranked(exact, ids, k).len() && (forall|j: int|
                0 <= j < ranked(exact, ids, k).len() ==> (#[trigger] ranked(exact, ids, k)[j]).id != p)
                ==> comes_first(
                #[trigger] ranked(exact, ids, k)[i],
                #[trigger] result_for(exact, p),
            ),
{
    let entries = scored(exact, ids);
    let all = arranged(entries);
    let results = ranked(exact, ids, k);
    arranged_is_sorted(entries);
    assert forall|i: int| 0 <= i < all.len() implies {
        &&& ids.contains((#[trigger] all[i]).1)
        &&& all[i].0 == order_of(exact(all[i].1))
    } by {
        arranged_holds(entries, all[i]);
        assert(all.contains(all[i]));
        let j = choose|j: int| 0 <= j < entries.len() && entries[j] == all[i];
        assert(ids[j] == all[i].1);
    }
    assert forall|i: int, j: int| 0 <= i < j < all.len() implies comes_first(
        result_for(exact, (#[trigger] all[i]).1),
        result_for(exact, (#[trigger] all[j]).1),
    ) by {
        rank_is_lexicographic(all[i], all[j]);
        ord_key_round_trip(exact(all[i].1));
        ord_key_round_trip(exact(all[j].1));
    }
    if ids.no_duplicates() {
        assert(entries.no_duplicates());
        arranged_is_distinct(entries);
        assert forall|i: int, j: int| 0 <= i < j < all.len() implies (#[trigger] all[i]).1 != (#[trigger] all[j]).1 by {
            assert(all[i] != all[j]);
        }
    }
    assert forall|p: u32, i: int|
        ids.contains(p) && 0 <= i < results.len() && (forall|j: int|
            0 <= j < results.len() ==> (#[trigger] results[j]).id != p) implies comes_first(
        #[trigger] results[i],
        #[trigger] result_for(exact, p),
    ) by {
        let at = choose|at: int| 0 <= at < ids.len() && ids[at] == p;
        let entry = entries[at];
        assert(entry == (order_of(exact(p)) as u64, p));
        arranged_holds(entries, entry);
        assert(entries.contains(entry));
        let j = choose|j: int| 0 <= j < all.len() && all[j] == entry;
        if j < results.len() {
            assert(results[j].id == p);
        } else {
            assert(comes_first(
                result_for(exact, all[i].1),
                result_for(exact, all[j].1),
            ));
        }
    }
}

/// Norm of a query, from `squared` and `root`.
pub open spec fn norm_of<N: Fn(&[u32]) -> u64, R: Fn(u64) -> u64>(squared: N, root: R, query: Seq<u32>) -> u64 {
    of1(root, row_number(squared, query))
}

impl PrismIndex {
    /// The distance of a point from a query.
    fn measure_exactly<D: Fn(Metric, &[u32], &[u32]) -> u32, G: Fn(&[u32], &[u32], u64, u64) -> u32>(
        &self,
        measure: &D,
        angle: &G,
        query: &[u32],
        norm: u64,
        p: u32,
    ) -> (bits: u32)
        requires
            self.wf(),
            p < self.store.len,
            query@.len() == self.store.dim,
            measures_by(*measure, self.store.dim as int),
            gives_angles(*angle, self.store.dim as int),
        ensures
            bits == exact_pattern(self, *measure, *angle, query@, norm, p),
    {
        let row = self.store.vector_unchecked(p);
        if self.config.metric == Metric::Cosine {
            angle(query, row, norm, self.cached_cosine_norm(p))
        } else {
            measure(self.config.metric, query, row)
        }
    }

    /// The `k` nearest of some points, exactly measured.
    pub fn exact_rerank<D: Fn(Metric, &[u32], &[u32]) -> u32, G: Fn(&[u32], &[u32], u64, u64) -> u32>(
        &self,
        measure: &D,
        angle: &G,
        query: &[u32],
        norm: u64,
        ids: &Vec<u32>,
        k: usize,
    ) -> (results: Vec<SearchResult>)
        requires
            self.wf(),
            query@.len() == self.store.dim,
            measures_by(*measure, self.store.dim as int),
            gives_angles(*angle, self.store.dim as int),
            forall|i: int| 0 <= i < ids@.len() ==> #[trigger] ids@[i] < self.store.len,
        ensures
            results@ == ranked(
                |p: u32| exact_pattern(self, *measure, *angle, query@, norm, p),
                ids@,
                k as int,
            ),
    {
        let ghost exact = |p: u32| exact_pattern(self, *measure, *angle, query@, norm, p);
        let mut entries: Vec<Scored> = Vec::new();
        while entries.len() < ids.len()
            invariant
                entries@.len() <= ids@.len(),
                self.wf(),
                query@.len() == self.store.dim,
                measures_by(*measure, self.store.dim as int),
                gives_angles(*angle, self.store.dim as int),
                forall|i: int| 0 <= i < ids@.len() ==> #[trigger] ids@[i] < self.store.len,
                exact == (|p: u32| exact_pattern(self, *measure, *angle, query@, norm, p)),
                forall|i: int|
                    0 <= i < entries@.len() ==> #[trigger] entries@[i] == (
                        order_of(exact(ids@[i])) as u64,
                        ids@[i],
                    ),
            decreases ids@.len() - entries@.len(),
        {
            let at: usize = entries.len();
            let p: u32 = ids[at];
            assert(ids@[at as int] < self.store.len);
            let bits: u32 = self.measure_exactly(measure, angle, query, norm, p);
            assert(bits == exact(p));
            entries.push((ord_key(bits) as u64, p));
        }
        assert(entries@ =~= scored(exact, ids@));
        let best = closest_entries(entries, k);
        let mut results: Vec<SearchResult> = Vec::new();
        proof {
            arranged_is_sorted(entries@);
        }
        while results.len() < best.len()
            invariant
                results@.len() <= best@.len(),
                best@ == lowest(entries@, k as int),
                entries@ == scored(exact, ids@),
                arranged(entries@).len() == entries@.len(),
                forall|i: int|
                    0 <= i < results@.len() ==> #[trigger] results@[i] == (SearchResult {
                        id: best@[i].1,
                        dist: exact(best@[i].1),
                    }),
            decreases best@.len() - results@.len(),
        {
            let at: usize = results.len();
            let (key, id) = best[at];
            proof {
                let entry = best@[at as int];
                assert(arranged(entries@)[at as int] == entry);
                arranged_holds(entries@, entry);
                assert(arranged(entries@).contains(entry));
                let j = choose|j: int| 0 <= j < entries@.len() && entries@[j] == entry;
                assert(entries@[j].0 == order_of(exact(entries@[j].1)));
                ord_key_round_trip(exact(id));
            }
            results.push(SearchResult { id, dist: from_ord_key(key as u32) });
        }
        assert(results@ =~= ranked(exact, ids@, k as int));
        results
    }

    /// The `k` nearest points of some cells, exactly measured.
    pub fn regime_low<D: Fn(Metric, &[u32], &[u32]) -> u32, G: Fn(&[u32], &[u32], u64, u64) -> u32>(
        &self,
        measure: &D,
        angle: &G,
        query: &[u32],
        norm: u64,
        cell_indices: &Vec<usize>,
        k: usize,
    ) -> (results: Vec<SearchResult>)
        requires
            self.wf(),
            query@.len() == self.store.dim,
            measures_by(*measure, self.store.dim as int),
            gives_angles(*angle, self.store.dim as int),
            names_cells(cell_indices@, self.tree.cells@.len() as int),
        ensures
            results@ == ranked(
                |p: u32| exact_pattern(self, *measure, *angle, query@, norm, p),
                gathered(self.tree.cells@, cell_indices@),
                k as int,
            ),
    {
        let mut ids: Vec<u32> = Vec::new();
        self.tree.collect_points_unchecked(cell_indices.as_slice(), &mut ids);
        assert(ids@ =~= gathered(self.tree.cells@, cell_indices@));
        proof {
            assert forall|i: int| 0 <= i < ids@.len() implies #[trigger] ids@[i] < self.store.len by {
                assert(ids@.contains(ids@[i]));
                gathered_is_stored(self, cell_indices@, ids@[i]);
            }
        }
        self.exact_rerank(measure, angle, query, norm, &ids, k)
    }
}

/// What cells gather are points of the store.
pub proof fn gathered_is_stored(index: &PrismIndex, indices: Seq<usize>, p: u32)
    requires
        index.wf(),
        names_cells(indices, index.tree.cells@.len() as int),
        gathered(index.tree.cells@, indices).contains(p),
    ensures
        p < index.store.len,
        indices.contains(index.point_cell@[p as int] as usize),
{
    let cells = index.tree.cells@;
    gathered_holds(cells, indices, p);
    let i = choose|i: int|
        0 <= i < indices.len() && #[trigger] cells[indices[i] as int].point_ids@.contains(p);
    assert(indices[i] < cells.len());
    layout_is_catalog(
        &index.store,
        &index.tree,
        index.medoids@,
        index.global_medoid,
        index.point_cell@,
        index.original_ids@,
        &index.config,
    );
    assert(index.point_cell@[p as int] == indices[i]);
}

/// The `k` lowest of some entries: a short list is kept in order on the way,
/// while for a long one all are put in order first.
fn closest_entries(entries: Vec<Scored>, k: usize) -> (best: Vec<Scored>)
    ensures
        best@ == lowest(entries@, k as int),
{
    let count: usize = entries.len();
    if count <= k || count - k <= k {
        let mut all = sorted_copy(entries.as_slice());
        proof {
            arranged_is_sorted(entries@);
        }
        if k < all.len() {
            all.truncate(k);
        }
        assert(all@ =~= lowest(entries@, k as int));
        all
    } else {
        nearest(&entries, k)
    }
}

/// Ranks compare distances first, then numbers.
proof fn rank_is_lexicographic(a: Scored, b: Scored)
    requires
        a.rank() <= b.rank(),
    ensures
        a.0 < b.0 || (a.0 == b.0 && a.1 <= b.1),
{
}

/// Putting distinct entries in order keeps them distinct.
pub proof fn arranged_is_distinct(entries: Seq<Scored>)
    requires
        entries.no_duplicates(),
    ensures
        arranged(entries).no_duplicates(),
{
    broadcast use vstd::seq_lib::group_to_multiset_ensures;

    arranged_is_sorted(entries);
    entries.lemma_multiset_has_no_duplicates();
    arranged(entries).lemma_multiset_has_no_duplicates_conv();
}

} // verus!
