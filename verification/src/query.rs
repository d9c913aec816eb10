//! Search from the query to the outcome.

use vstd::prelude::*;
use crate::crossing::{crossing_results, Bridge};
use crate::descent::{are_choices, choices_of_some, local_results, near_key, scan_results, widened};
use crate::distance::Metric;
use crate::error::{ends, invalid_input, overflow, PrismResult, Verdict};
use crate::filter::{within_schema, Filter};
use crate::index::PrismIndex;
use crate::indexing::gives_store_rows;
use crate::order::ascending_is_sorted;
use crate::partition::{gathered, names_cells};
use crate::pure::{
    estimates, gives_angles, gives_flags, measures_by, numbers_rows, of1, of2, of3, row_for, total1,
    total2, total3,
};
use crate::search::{
    cells_for, comes_first, eligible, eligible_points_are_exact, exact_pattern, norm_of,
    passing_cells, plan_for, ranked, ranking_is_exact, SearchDiagnostics, SearchExecution,
    SearchOutcome, SearchPlan, SearchRegime, SearchResult,
};
use crate::single::{all_in_domain, check_domain};
use crate::vecstore::row_of;

verus! {

/// The arithmetic on patterns that searches use.
pub struct SearchKernels<A, D, G, N, R, T, F, U, X, Y, Z> {
    /// The unit vector of a vector.
    pub normalize: A,
    /// The distance of two vectors by a metric.
    pub measure: D,
    /// The distance of two vectors by angle, given their norms.
    pub angle: G,
    /// The squared norm of a vector.
    pub squared: N,
    /// The square root.
    pub root: R,
    /// The distance of a vector and a coded one.
    pub estimate: T,
    /// Which coordinates of a vector's transform are not negative, for signs and
    /// a block length.
    pub rotate: F,
    /// The quotient of two counts.
    pub ratio: U,
    /// Whether, for a tolerance, a distance is too far beyond another.
    pub too_far: X,
    /// How many points a search of some width may cross.
    pub allowance: Y,
    /// Whether a point is worth crossing.
    pub promises: Z,
}

impl<
    A: Fn(&[u32]) -> Vec<u32>,
    D: Fn(Metric, &[u32], &[u32]) -> u32,
    G: Fn(&[u32], &[u32], u64, u64) -> u32,
    N: Fn(&[u32]) -> u64,
    R: Fn(u64) -> u64,
    T: Fn(&[u32], &[u8], &[u32], &[u32]) -> u32,
    F: Fn(&[u32], &[u32], usize) -> Vec<bool>,
    U: Fn(usize, usize) -> u32,
    X: Fn(u32, u32, u32) -> bool,
    Y: Fn(u32, usize) -> usize,
    Z: Fn(Bridge) -> bool,
> SearchKernels<A, D, G, N, R, T, F, U, X, Y, Z> {
    /// The functions take any vector of this dimension and always answer the
    /// same.
    pub open spec fn fit(&self, dim: int) -> bool {
        &&& gives_store_rows(self.normalize, dim)
        &&& measures_by(self.measure, dim)
        &&& gives_angles(self.angle, dim)
        &&& numbers_rows(self.squared, dim)
        &&& total1(self.root)
        &&& estimates(self.estimate, dim)
        &&& gives_flags(self.rotate, dim)
        &&& total2(self.ratio)
        &&& total3(self.too_far)
        &&& total2(self.allowance)
        &&& total1(self.promises)
    }

    /// The query as it is compared: the unit vector where angles count.
    pub open spec fn compared(&self, index: &PrismIndex, query: Seq<u32>) -> Seq<u32> {
        if index.config.metric == Metric::Cosine {
            row_for(self.normalize, query)
        } else {
            query
        }
    }

    /// The norm that comparisons use.
    pub open spec fn norm(&self, index: &PrismIndex, query: Seq<u32>) -> u64 {
        if index.config.metric == Metric::Cosine {
            norm_of(self.squared, self.root, query)
        } else {
            0
        }
    }

    /// The distance of point `p` from a query that is compared.
    pub open spec fn exact(&self, index: &PrismIndex, query: Seq<u32>) -> spec_fn(u32) -> u32 {
        |p: u32|
            exact_pattern(index, self.measure, self.angle, query, self.norm(index, query), p)
    }

    /// The key of the estimated distance of point `p`.
    pub open spec fn near(&self, index: &PrismIndex, query: Seq<u32>) -> spec_fn(u32) -> u64 {
        |p: u32| near_key(index, self.estimate, self.measure, query, p)
    }
}

/// Whether so few points pass that they are scanned.
pub open spec fn is_scanned(index: &PrismIndex, plan: SearchPlan) -> bool {
    let config = index.config;
    ||| config.scan_threshold > 0 && plan.matching_points <= config.scan_threshold
    ||| config.multi_cell_scan_threshold > 0 && 1 < plan.matching_cells < index.tree.cells@.len()
        && plan.matching_points <= config.multi_cell_scan_threshold
}

/// What the first phase of a search returns and what it does.
pub open spec fn primary_results<
    A: Fn(&[u32]) -> Vec<u32>,
    D: Fn(Metric, &[u32], &[u32]) -> u32,
    G: Fn(&[u32], &[u32], u64, u64) -> u32,
    N: Fn(&[u32]) -> u64,
    R: Fn(u64) -> u64,
    T: Fn(&[u32], &[u8], &[u32], &[u32]) -> u32,
    F: Fn(&[u32], &[u32], usize) -> Vec<bool>,
    U: Fn(usize, usize) -> u32,
    X: Fn(u32, u32, u32) -> bool,
    Y: Fn(u32, usize) -> usize,
    Z: Fn(Bridge) -> bool,
>(
    index: &PrismIndex,
    kernels: &SearchKernels<A, D, G, N, R, T, F, U, X, Y, Z>,
    plan: SearchPlan,
    query: Seq<u32>,
    cells: Seq<usize>,
    k: int,
    ef: int,
) -> (Seq<SearchResult>, SearchExecution) {
    let points = gathered(index.tree.cells@, cells);
    let exact = kernels.exact(index, query);
    let near = kernels.near(index, query);
    if plan.regime == SearchRegime::Exact || plan.regime == SearchRegime::Low {
        (ranked(exact, points, k), SearchExecution::ExactScan)
    } else if is_scanned(index, plan) {
        scan_results(index, kernels.rotate, near, exact, query, points, k, ef)
    } else if index.config.global_in_use() && cells.len() > 1 {
        let wide = widened(ef, index.config.graph_expansion as int, index.store.len as int);
        (
            crossing_results(
                index,
                near,
                exact,
                |d: u32, worst: u32| of3(kernels.too_far, index.config.epsilon, d, worst),
                |bridge: Bridge| of1(kernels.promises, bridge),
                of2(kernels.allowance, index.config.beta, wide as usize) as int,
                cells,
                k,
                wide,
            ),
            SearchExecution::GlobalGraph,
        )
    } else {
        (local_results(index, near, exact, cells, k, ef), SearchExecution::LocalGraph)
    }
}

/// How many results are due.
pub open spec fn target_of(plan: SearchPlan, k: int) -> int {
    if k < plan.matching_points {
        k
    } else {
        plan.matching_points as int
    }
}

/// The first phase may have missed points.
pub open spec fn may_miss(plan: SearchPlan) -> bool {
    plan.regime == SearchRegime::High || plan.regime == SearchRegime::Mid
}

/// What the first phase of a search returns and what it does; nothing where no
/// results are due.
pub open spec fn first_results<
    A: Fn(&[u32]) -> Vec<u32>,
    D: Fn(Metric, &[u32], &[u32]) -> u32,
    G: Fn(&[u32], &[u32], u64, u64) -> u32,
    N: Fn(&[u32]) -> u64,
    R: Fn(u64) -> u64,
    T: Fn(&[u32], &[u8], &[u32], &[u32]) -> u32,
    F: Fn(&[u32], &[u32], usize) -> Vec<bool>,
    U: Fn(usize, usize) -> u32,
    X: Fn(u32, u32, u32) -> bool,
    Y: Fn(u32, usize) -> usize,
    Z: Fn(Bridge) -> bool,
>(
    index: &PrismIndex,
    kernels: &SearchKernels<A, D, G, N, R, T, F, U, X, Y, Z>,
    query: Seq<u32>,
    filter: &Filter,
    k: int,
    ef: int,
) -> (Seq<SearchResult>, SearchExecution) {
    let plan = plan_for(index, filter, kernels.ratio);
    if target_of(plan, k) == 0 {
        (Seq::empty(), SearchExecution::NoWork)
    } else {
        primary_results(
            index,
            kernels,
            plan,
            kernels.compared(index, query),
            passing_cells(&index.tree, filter),
            k,
            if ef > k {
                ef
            } else {
                k
            },
        )
    }
}

/// A query and a filter, ready to be searched for.
pub struct Asked {
    /// How the filter is served.
    pub plan: SearchPlan,
    /// The query as it is compared.
    pub query: Vec<u32>,
    /// The norm that comparisons use.
    pub norm: u64,
    /// The cells that pass.
    pub cells: Vec<usize>,
}

impl Asked {
    /// This was made from the query and the filter.
    pub open spec fn is_for<
        A: Fn(&[u32]) -> Vec<u32>,
        D: Fn(Metric, &[u32], &[u32]) -> u32,
        G: Fn(&[u32], &[u32], u64, u64) -> u32,
        N: Fn(&[u32]) -> u64,
        R: Fn(u64) -> u64,
        T: Fn(&[u32], &[u8], &[u32], &[u32]) -> u32,
        F: Fn(&[u32], &[u32], usize) -> Vec<bool>,
        U: Fn(usize, usize) -> u32,
        X: Fn(u32, u32, u32) -> bool,
        Y: Fn(u32, usize) -> usize,
        Z: Fn(Bridge) -> bool,
    >(
        &self,
        index: &PrismIndex,
        kernels: &SearchKernels<A, D, G, N, R, T, F, U, X, Y, Z>,
        query: Seq<u32>,
        filter: &Filter,
    ) -> bool {
        &&& query_verdict(index, query, filter) is Accepted
        &&& self.plan == plan_for(index, filter, kernels.ratio)
        &&& self.query@ == kernels.compared(index, query)
        &&& self.query@.len() == index.store.dim
        &&& all_in_domain(self.query@, index.store.dim as int)
        &&& self.norm == kernels.norm(index, self.query@)
        &&& self.cells@ == passing_cells(&index.tree, filter)
    }
}

/// The outcome of a search: the results of the first phase, or, where these
/// are too few, of a scan of all points that pass.
pub open spec fn outcome_fits<
    A: Fn(&[u32]) -> Vec<u32>,
    D: Fn(Metric, &[u32], &[u32]) -> u32,
    G: Fn(&[u32], &[u32], u64, u64) -> u32,
    N: Fn(&[u32]) -> u64,
    R: Fn(u64) -> u64,
    T: Fn(&[u32], &[u8], &[u32], &[u32]) -> u32,
    F: Fn(&[u32], &[u32], usize) -> Vec<bool>,
    U: Fn(usize, usize) -> u32,
    X: Fn(u32, u32, u32) -> bool,
    Y: Fn(u32, usize) -> usize,
    Z: Fn(Bridge) -> bool,
>(
    index: &PrismIndex,
    kernels: &SearchKernels<A, D, G, N, R, T, F, U, X, Y, Z>,
    query: Seq<u32>,
    filter: &Filter,
    k: int,
    ef: int,
    outcome: &SearchOutcome,
) -> bool {
    let plan = plan_for(index, filter, kernels.ratio);
    let target = target_of(plan, k);
    let asked = kernels.compared(index, query);
    let wide = if ef > k {
        ef
    } else {
        k
    };
    let (primary, execution) = primary_results(
        index,
        kernels,
        plan,
        asked,
        passing_cells(&index.tree, filter),
        k,
        wide,
    );
    let found = outcome.diagnostics;
    &&& found.plan == plan
    &&& found.target_result_count == target
    &&& found.final_result_count == outcome.results@.len()
    &&& found.complete == (outcome.results@.len() == target)
    &&& if target == 0 {
        &&& outcome.results@.len() == 0
        &&& found.primary_execution == SearchExecution::NoWork
        &&& found.primary_result_count == 0
        &&& !found.used_exact_fallback
    } else {
        &&& found.primary_execution == execution
        &&& found.primary_result_count == primary.len()
        &&& found.used_exact_fallback == (may_miss(plan) && primary.len() < target)
        &&& outcome.results@ == if found.used_exact_fallback {
            ranked(kernels.exact(index, asked), eligible(&index.tree, filter), k)
        } else {
            primary
        }
    }
}

/// Every result passes the filter, none comes twice, they come nearest first,
/// and there are as many as asked for or as pass.
pub open spec fn outcome_serves<
    A: Fn(&[u32]) -> Vec<u32>,
    D: Fn(Metric, &[u32], &[u32]) -> u32,
    G: Fn(&[u32], &[u32], u64, u64) -> u32,
    N: Fn(&[u32]) -> u64,
    R: Fn(u64) -> u64,
    T: Fn(&[u32], &[u8], &[u32], &[u32]) -> u32,
    F: Fn(&[u32], &[u32], usize) -> Vec<bool>,
    U: Fn(usize, usize) -> u32,
    X: Fn(u32, u32, u32) -> bool,
    Y: Fn(u32, usize) -> usize,
    Z: Fn(Bridge) -> bool,
>(
    index: &PrismIndex,
    kernels: &SearchKernels<A, D, G, N, R, T, F, U, X, Y, Z>,
    query: Seq<u32>,
    filter: &Filter,
    k: int,
    results: Seq<SearchResult>,
) -> bool {
    let points = eligible(&index.tree, filter).len() as int;
    let exact = kernels.exact(index, kernels.compared(index, query));
    &&& results.len() == if k < points {
        k
    } else {
        points
    }
    &&& forall|i: int|
        0 <= i < results.len() ==> filter.passes(&index.store, (#[trigger] results[i]).id as int)
            && results[i].dist == exact(results[i].id)
    &&& forall|i: int, j: int|
        0 <= i < j < results.len() ==> (#[trigger] results[i]).id != (#[trigger] results[j]).id
            && comes_first(results[i], results[j])
}

/// Whether a query and a filter can be answered.
pub open spec fn query_verdict(index: &PrismIndex, query: Seq<u32>, filter: &Filter) -> Verdict {
    if query.len() == index.store.dim && all_in_domain(query, index.store.dim as int)
        && within_schema(filter.constraints@, index.store.arity()) {
        Verdict::Accepted
    } else {
        Verdict::InvalidInput
    }
}

/// Different points of a list that are at most as many as it has.
proof fn choices_are_few(results: Seq<SearchResult>, all: Seq<u32>, k: int)
    requires
        are_choices(results, all, k),
        all.no_duplicates(),
    ensures
        results.len() <= all.len(),
{
    let ids = results.map_values(|result: SearchResult| result.id);
    assert(ids.no_duplicates()) by {
        assert forall|i: int, j: int| 0 <= i < ids.len() && 0 <= j < ids.len() && i != j implies ids[i]
            != ids[j] by {
            if i < j {
                assert(results[i].id != results[j].id);
            } else {
                assert(results[j].id != results[i].id);
            }
        }
    }
    ids.unique_seq_to_set();
    all.unique_seq_to_set();
    assert(ids.to_set().subset_of(all.to_set())) by {
        assert forall|x: u32| ids.to_set().contains(x) implies all.to_set().contains(x) by {
            let i = choose|i: int| 0 <= i < ids.len() && ids[i] == x;
            assert(all.contains(results[i].id));
        }
    }
    vstd::set_lib::lemma_len_subset(ids.to_set(), all.to_set());
}

impl PrismIndex {
    /// Checks a query.
    pub fn check_query(&self, query: &[u32]) -> (result: PrismResult<()>)
        requires
            self.wf(),
        ensures
            ends(
                result,
                if query@.len() == self.store.dim && all_in_domain(query@, self.store.dim as int) {
                    Verdict::Accepted
                } else {
                    Verdict::InvalidInput
                },
            ),
    {
        if query.len() != self.store.dim {
            return Err(invalid_input("query dimension does not match index dimension"));
        }
        if !check_domain(query, self.store.dim) {
            return Err(invalid_input("query value must be finite, its absolute magnitude within the distance domain"));
        }
        Ok(())
    }

    /// The query as it is compared, and its norm.
    pub fn prepare_query<
        A: Fn(&[u32]) -> Vec<u32>,
        D: Fn(Metric, &[u32], &[u32]) -> u32,
        G: Fn(&[u32], &[u32], u64, u64) -> u32,
        N: Fn(&[u32]) -> u64,
        R: Fn(u64) -> u64,
        T: Fn(&[u32], &[u8], &[u32], &[u32]) -> u32,
        F: Fn(&[u32], &[u32], usize) -> Vec<bool>,
        U: Fn(usize, usize) -> u32,
        X: Fn(u32, u32, u32) -> bool,
        Y: Fn(u32, usize) -> usize,
        Z: Fn(Bridge) -> bool,
    >(&self, kernels: &SearchKernels<A, D, G, N, R, T, F, U, X, Y, Z>, query: &[u32]) -> (prepared: (Vec<u32>, u64))
        requires
            self.wf(),
            kernels.fit(self.store.dim as int),
            query@.len() == self.store.dim,
            all_in_domain(query@, self.store.dim as int),
        ensures
            prepared.0@ == kernels.compared(self, query@),
            prepared.0@.len() == self.store.dim,
            all_in_domain(prepared.0@, self.store.dim as int),
            prepared.1 == kernels.norm(self, prepared.0@),
    {
        if self.config.metric == Metric::Cosine {
            let normalize = &kernels.normalize;
            let squared = &kernels.squared;
            let root = &kernels.root;
            let unit = normalize(query);
            let norm: u64 = root(squared(unit.as_slice()));
            (unit, norm)
        } else {
            let mut copy: Vec<u32> = Vec::new();
            while copy.len() < query.len()
                invariant
                    copy@.len() <= query@.len(),
                    forall|i: int| 0 <= i < copy@.len() ==> #[trigger] copy@[i] == query@[i],
                decreases query@.len() - copy@.len(),
            {
                copy.push(query[copy.len()]);
            }
            assert(copy@ =~= query@);
            (copy, 0)
        }
    }

    /// The first phase of a search where results are due.
    fn primary_search<
        A: Fn(&[u32]) -> Vec<u32>,
        D: Fn(Metric, &[u32], &[u32]) -> u32,
        G: Fn(&[u32], &[u32], u64, u64) -> u32,
        N: Fn(&[u32]) -> u64,
        R: Fn(u64) -> u64,
        T: Fn(&[u32], &[u8], &[u32], &[u32]) -> u32,
        F: Fn(&[u32], &[u32], usize) -> Vec<bool>,
        U: Fn(usize, usize) -> u32,
        X: Fn(u32, u32, u32) -> bool,
        Y: Fn(u32, usize) -> usize,
        Z: Fn(Bridge) -> bool,
    >(
        &self,
        kernels: &SearchKernels<A, D, G, N, R, T, F, U, X, Y, Z>,
        filter: &Filter,
        plan: &SearchPlan,
        cells: &Vec<usize>,
        query: &[u32],
        norm: u64,
        k: usize,
        ef: usize,
    ) -> (result: PrismResult<(Vec<SearchResult>, SearchExecution)>)
        requires
            self.wf(),
            kernels.fit(self.store.dim as int),
            query@.len() == self.store.dim,
            all_in_domain(query@, self.store.dim as int),
            norm == kernels.norm(self, query@),
            within_schema(filter.constraints@, self.store.arity()),
            *plan == plan_for(self, filter, kernels.ratio),
            cells@ == passing_cells(&self.tree, filter),
            plan.matching_points > 0,
            ef > 0,
        ensures
            result is Ok,
            result matches Ok(found) ==> {
                &&& (found.0@, found.1) == primary_results(
                    self,
                    kernels,
                    *plan,
                    query@,
                    cells@,
                    k as int,
                    ef as int,
                )
                &&& are_choices(found.0@, eligible(&self.tree, filter), k as int)
            },
    {
        let count: usize = self.tree.cells.len();
        let ghost exact = kernels.exact(self, query@);
        let ghost points = eligible(&self.tree, filter);
        proof {
            assert(count <= usize::MAX);
            eligible_points_are_exact(self, filter);
            passing_facts(self, filter);
        }
        if plan.regime == SearchRegime::Exact || plan.regime == SearchRegime::Low {
            let results = self.regime_low(&kernels.measure, &kernels.angle, query, norm, cells, k);
            proof {
                assert forall|j: int| 0 <= j < points.len() implies points.contains(#[trigger] points[j]) by {}
                choices_of_some(exact, points, points, k as int);
            }
            return Ok((results, SearchExecution::ExactScan));
        }
        let few = self.config.scan_threshold > 0 && plan.matching_points
            <= self.config.scan_threshold;
        let scattered = self.config.multi_cell_scan_threshold > 0 && 1 < plan.matching_cells
            && plan.matching_cells < count && plan.matching_points
            <= self.config.multi_cell_scan_threshold;
        if few || scattered {
            return self.scan_eligible_population(
                &kernels.rotate,
                &kernels.estimate,
                &kernels.measure,
                &kernels.angle,
                query,
                norm,
                cells,
                k,
                ef,
            );
        }
        proof {
            assert(self.config.local_built(self.store.len as int));
        }
        if self.config.uses_global_graph() && cells.len() > 1 {
            let wide: usize = self.expanded_graph_ef(ef, self.store.len());
            let results = self.regime_mid(
                &kernels.estimate,
                &kernels.measure,
                &kernels.angle,
                &kernels.too_far,
                &kernels.allowance,
                &kernels.promises,
                query,
                norm,
                cells,
                k,
                wide,
            );
            Ok((results, SearchExecution::GlobalGraph))
        } else {
            let results = self.regime_local_graph(
                &kernels.estimate,
                &kernels.measure,
                &kernels.angle,
                query,
                norm,
                cells,
                k,
                ef,
            );
            Ok((results, SearchExecution::LocalGraph))
        }
    }

    /// Whether the results of the first phase are too few.
    fn needs_fallback(plan: &SearchPlan, found: usize, k: usize) -> (answer: bool)
        ensures
            answer == (may_miss(*plan) && found < target_of(*plan, k as int)),
    {
        let target: usize = if k < plan.matching_points { k } else { plan.matching_points };
        let approximate = plan.regime == SearchRegime::High || plan.regime == SearchRegime::Mid;
        approximate && found < target
    }

    /// The outcome that reports some results.
    fn report(
        plan: SearchPlan,
        execution: SearchExecution,
        primary_count: usize,
        fallback: bool,
        k: usize,
        results: Vec<SearchResult>,
    ) -> (outcome: SearchOutcome)
        ensures
            outcome.results == results,
            outcome.diagnostics == (SearchDiagnostics {
                plan,
                primary_execution: execution,
                primary_result_count: primary_count,
                used_exact_fallback: fallback,
                target_result_count: target_of(plan, k as int) as usize,
                final_result_count: results@.len() as usize,
                complete: results@.len() == target_of(plan, k as int),
            }),
            results@.len() <= usize::MAX,
    {
        let target: usize = if k < plan.matching_points { k } else { plan.matching_points };
        let count: usize = results.len();
        SearchOutcome {
            results,
            diagnostics: SearchDiagnostics {
                plan,
                primary_execution: execution,
                primary_result_count: primary_count,
                used_exact_fallback: fallback,
                target_result_count: target,
                final_result_count: count,
                complete: count == target,
            },
        }
    }

    /// Checks a query and a filter and prepares the search for them.
    pub fn ask<
        A: Fn(&[u32]) -> Vec<u32>,
        D: Fn(Metric, &[u32], &[u32]) -> u32,
        G: Fn(&[u32], &[u32], u64, u64) -> u32,
        N: Fn(&[u32]) -> u64,
        R: Fn(u64) -> u64,
        T: Fn(&[u32], &[u8], &[u32], &[u32]) -> u32,
        F: Fn(&[u32], &[u32], usize) -> Vec<bool>,
        U: Fn(usize, usize) -> u32,
        X: Fn(u32, u32, u32) -> bool,
        Y: Fn(u32, usize) -> usize,
        Z: Fn(Bridge) -> bool,
    >(
        &self,
        kernels: &SearchKernels<A, D, G, N, R, T, F, U, X, Y, Z>,
        query: &[u32],
        filter: &Filter,
    ) -> (result: PrismResult<Asked>)
        requires
            self.wf(),
            kernels.fit(self.store.dim as int),
        ensures
            ends(result, query_verdict(self, query@, filter)),
            result matches Ok(asked) ==> asked.is_for(self, kernels, query@, filter),
    {
        match self.check_query(query) {
            Ok(()) => {},
            Err(error) => {
                return Err(error);
            },
        }
        let plan = match self.plan_filter(filter, &kernels.ratio) {
            Ok(plan) => plan,
            Err(error) => {
                return Err(error);
            },
        };
        let (compared, norm) = self.prepare_query(kernels, query);
        let cells = cells_for(self, filter);
        Ok(Asked { plan, query: compared, norm, cells })
    }

    /// The first phase of a search.
    pub fn first_phase<
        A: Fn(&[u32]) -> Vec<u32>,
        D: Fn(Metric, &[u32], &[u32]) -> u32,
        G: Fn(&[u32], &[u32], u64, u64) -> u32,
        N: Fn(&[u32]) -> u64,
        R: Fn(u64) -> u64,
        T: Fn(&[u32], &[u8], &[u32], &[u32]) -> u32,
        F: Fn(&[u32], &[u32], usize) -> Vec<bool>,
        U: Fn(usize, usize) -> u32,
        X: Fn(u32, u32, u32) -> bool,
        Y: Fn(u32, usize) -> usize,
        Z: Fn(Bridge) -> bool,
    >(
        &self,
        kernels: &SearchKernels<A, D, G, N, R, T, F, U, X, Y, Z>,
        query: &[u32],
        filter: &Filter,
        asked: &Asked,
        k: usize,
        ef: usize,
    ) -> (result: PrismResult<(Vec<SearchResult>, SearchExecution)>)
        requires
            self.wf(),
            kernels.fit(self.store.dim as int),
            asked.is_for(self, kernels, query@, filter),
        ensures
            result is Ok,
            result matches Ok(found) ==> {
                &&& (found.0@, found.1) == first_results(
                    self,
                    kernels,
                    query@,
                    filter,
                    k as int,
                    ef as int,
                )
                &&& are_choices(found.0@, eligible(&self.tree, filter), k as int)
            },
    {
        if k == 0 || asked.plan.matching_points == 0 {
            return Ok((Vec::new(), SearchExecution::NoWork));
        }
        let wide: usize = if ef > k { ef } else { k };
        self.primary_search(
            kernels,
            filter,
            &asked.plan,
            &asked.cells,
            asked.query.as_slice(),
            asked.norm,
            k,
            wide,
        )
    }

    /// The rest of a search: where the first phase found too few points, all
    /// that pass are scanned.
    pub fn last_phase<
        A: Fn(&[u32]) -> Vec<u32>,
        D: Fn(Metric, &[u32], &[u32]) -> u32,
        G: Fn(&[u32], &[u32], u64, u64) -> u32,
        N: Fn(&[u32]) -> u64,
        R: Fn(u64) -> u64,
        T: Fn(&[u32], &[u8], &[u32], &[u32]) -> u32,
        F: Fn(&[u32], &[u32], usize) -> Vec<bool>,
        U: Fn(usize, usize) -> u32,
        X: Fn(u32, u32, u32) -> bool,
        Y: Fn(u32, usize) -> usize,
        Z: Fn(Bridge) -> bool,
    >(
        &self,
        kernels: &SearchKernels<A, D, G, N, R, T, F, U, X, Y, Z>,
        query: &[u32],
        filter: &Filter,
        asked: &Asked,
        k: usize,
        ef: usize,
        first: (Vec<SearchResult>, SearchExecution),
    ) -> (outcome: SearchOutcome)
        requires
            self.wf(),
            kernels.fit(self.store.dim as int),
            asked.is_for(self, kernels, query@, filter),
            (first.0@, first.1) == first_results(
                self,
                kernels,
                query@,
                filter,
                k as int,
                ef as int,
            ),
            are_choices(first.0@, eligible(&self.tree, filter), k as int),
        ensures
            outcome_fits(self, kernels, query@, filter, k as int, ef as int, &outcome),
            outcome.diagnostics.complete,
            outcome_serves(self, kernels, query@, filter, k as int, outcome.results@),
    {
        let plan = asked.plan;
        let (primary, execution) = first;
        let count: usize = self.tree.cells.len();
        let ghost points = eligible(&self.tree, filter);
        proof {
            assert(count <= usize::MAX);
            eligible_points_are_exact(self, filter);
            passing_facts(self, filter);
        }
        if k == 0 || plan.matching_points == 0 {
            return PrismIndex::report(plan, SearchExecution::NoWork, 0, false, k, Vec::new());
        }
        let primary_count: usize = primary.len();
        let fallback = PrismIndex::needs_fallback(&plan, primary_count, k);
        let ghost exact = kernels.exact(self, asked.query@);
        let ghost wide: int = if ef > k {
            ef as int
        } else {
            k as int
        };
        proof {
            ranking_is_exact(exact, points, k as int);
            choices_are_few(primary@, points, k as int);
            primary_is_ranked(self, kernels, plan, asked.query@, asked.cells@, k as int, wide);
        }
        let results = if fallback {
            self.regime_low(
                &kernels.measure,
                &kernels.angle,
                asked.query.as_slice(),
                asked.norm,
                &asked.cells,
                k,
            )
        } else {
            primary
        };
        proof {
            assert forall|j: int| 0 <= j < points.len() implies points.contains(
                #[trigger] points[j],
            ) by {}
            choices_of_some(exact, points, points, k as int);
            assert(are_choices(results@, points, k as int));
            let listed = if fallback {
                ranked(exact, points, k as int)
            } else {
                primary_results(self, kernels, plan, asked.query@, asked.cells@, k as int, wide).0
            };
            assert(results@ == listed);
            assert forall|i: int| 0 <= i < results@.len() implies filter.passes(
                &self.store,
                (#[trigger] results@[i]).id as int,
            ) && results@[i].dist == exact(results@[i].id) by {
                assert(points.contains(results@[i].id));
            }
            assert forall|i: int, j: int| 0 <= i < j < results@.len() implies (
            #[trigger] results@[i]).id != (#[trigger] results@[j]).id && comes_first(
                results@[i],
                results@[j],
            ) by {
                assert(comes_first(listed[i], listed[j]));
            }
            assert(outcome_serves(self, kernels, query@, filter, k as int, results@));
        }
        PrismIndex::report(plan, execution, primary_count, fallback, k, results)
    }

    /// Searches for the `k` nearest points that pass a filter.
    ///
    /// What the first phase does depends on how many points pass; it may miss
    /// near points, but the results are never too few.
    pub fn search<
        A: Fn(&[u32]) -> Vec<u32>,
        D: Fn(Metric, &[u32], &[u32]) -> u32,
        G: Fn(&[u32], &[u32], u64, u64) -> u32,
        N: Fn(&[u32]) -> u64,
        R: Fn(u64) -> u64,
        T: Fn(&[u32], &[u8], &[u32], &[u32]) -> u32,
        F: Fn(&[u32], &[u32], usize) -> Vec<bool>,
        U: Fn(usize, usize) -> u32,
        X: Fn(u32, u32, u32) -> bool,
        Y: Fn(u32, usize) -> usize,
        Z: Fn(Bridge) -> bool,
    >(
        &self,
        kernels: &SearchKernels<A, D, G, N, R, T, F, U, X, Y, Z>,
        query: &[u32],
        filter: &Filter,
        k: usize,
        ef: usize,
    ) -> (result: PrismResult<SearchOutcome>)
        requires
            self.wf(),
            kernels.fit(self.store.dim as int),
        ensures
            ends(result, query_verdict(self, query@, filter)),
            result matches Ok(outcome) ==> {
                &&& outcome_fits(self, kernels, query@, filter, k as int, ef as int, &outcome)
                &&& outcome.diagnostics.complete
                &&& outcome_serves(self, kernels, query@, filter, k as int, outcome.results@)
            },
    {
        let asked = match self.ask(kernels, query, filter) {
            Ok(asked) => asked,
            Err(error) => {
                return Err(error);
            },
        };
        match self.first_phase(kernels, query, filter, &asked, k, ef) {
            Ok(first) => Ok(self.last_phase(kernels, query, filter, &asked, k, ef, first)),
            Err(error) => Err(error),
        }
    }

    /// The `k` nearest points that pass a filter.
    pub fn search_exact<
        A: Fn(&[u32]) -> Vec<u32>,
        D: Fn(Metric, &[u32], &[u32]) -> u32,
        G: Fn(&[u32], &[u32], u64, u64) -> u32,
        N: Fn(&[u32]) -> u64,
        R: Fn(u64) -> u64,
        T: Fn(&[u32], &[u8], &[u32], &[u32]) -> u32,
        F: Fn(&[u32], &[u32], usize) -> Vec<bool>,
        U: Fn(usize, usize) -> u32,
        X: Fn(u32, u32, u32) -> bool,
        Y: Fn(u32, usize) -> usize,
        Z: Fn(Bridge) -> bool,
    >(
        &self,
        kernels: &SearchKernels<A, D, G, N, R, T, F, U, X, Y, Z>,
        query: &[u32],
        filter: &Filter,
        k: usize,
    ) -> (result: PrismResult<Vec<SearchResult>>)
        requires
            self.wf(),
            kernels.fit(self.store.dim as int),
        ensures
            ends(result, query_verdict(self, query@, filter)),
            result matches Ok(results) ==> {
                &&& results@ == ranked(
                    kernels.exact(self, kernels.compared(self, query@)),
                    eligible(&self.tree, filter),
                    k as int,
                )
                &&& outcome_serves(self, kernels, query@, filter, k as int, results@)
            },
    {
        match self.check_query(query) {
            Ok(()) => {},
            Err(error) => {
                return Err(error);
            },
        }
        match filter.validate(self.store.k()) {
            Ok(()) => {},
            Err(error) => {
                return Err(error);
            },
        }
        let (asked, norm) = self.prepare_query(kernels, query);
        let cells = cells_for(self, filter);
        let count: usize = self.tree.cells.len();
        proof {
            assert(count <= usize::MAX);
            eligible_points_are_exact(self, filter);
            ranking_is_exact(
                kernels.exact(self, asked@),
                eligible(&self.tree, filter),
                k as int,
            );
        }
        Ok(self.regime_low(&kernels.measure, &kernels.angle, asked.as_slice(), norm, &cells, k))
    }
}

/// The cells that pass are different cells of the index.
proof fn passing_facts(index: &PrismIndex, filter: &Filter)
    requires
        index.wf(),
        index.tree.cells@.len() <= usize::MAX,
    ensures
        passing_cells(&index.tree, filter).no_duplicates(),
        names_cells(passing_cells(&index.tree, filter), index.tree.cells@.len() as int),
        eligible(&index.tree, filter).len() > 0 ==> passing_cells(&index.tree, filter).len() > 0,
{
    crate::search::passing_before_is_exact(
        index.tree.cells@,
        filter.constraints@,
        index.tree.cells@.len() as int,
    );
    let list = passing_cells(&index.tree, filter);
    ascending_is_sorted(list);
    assert forall|i: int| 0 <= i < list.len() implies #[trigger] list[i] < index.tree.cells@.len() by {
        assert(list.contains(list[i]));
    }
}

/// What the first phase returns is in the order of results, with the exact
/// distances.
proof fn primary_is_ranked<
    A: Fn(&[u32]) -> Vec<u32>,
    D: Fn(Metric, &[u32], &[u32]) -> u32,
    G: Fn(&[u32], &[u32], u64, u64) -> u32,
    N: Fn(&[u32]) -> u64,
    R: Fn(u64) -> u64,
    T: Fn(&[u32], &[u8], &[u32], &[u32]) -> u32,
    F: Fn(&[u32], &[u32], usize) -> Vec<bool>,
    U: Fn(usize, usize) -> u32,
    X: Fn(u32, u32, u32) -> bool,
    Y: Fn(u32, usize) -> usize,
    Z: Fn(Bridge) -> bool,
>(
    index: &PrismIndex,
    kernels: &SearchKernels<A, D, G, N, R, T, F, U, X, Y, Z>,
    plan: SearchPlan,
    query: Seq<u32>,
    cells: Seq<usize>,
    k: int,
    ef: int,
)
    requires
        0 <= k,
    ensures
        ({
            let results = primary_results(index, kernels, plan, query, cells, k, ef).0;
            let exact = kernels.exact(index, query);
            &&& forall|i: int|
                0 <= i < results.len() ==> (#[trigger] results[i]).dist == exact(results[i].id)
            &&& forall|i: int, j: int|
                0 <= i < j < results.len() ==> comes_first(#[trigger] results[i], #[trigger] results[j])
        }),
        !may_miss(plan) ==> primary_results(index, kernels, plan, query, cells, k, ef).0 == ranked(
            kernels.exact(index, query),
            gathered(index.tree.cells@, cells),
            k,
        ),
{
    let exact = kernels.exact(index, query);
    let near = kernels.near(index, query);
    let points = gathered(index.tree.cells@, cells);
    let (results, execution) = primary_results(index, kernels, plan, query, cells, k, ef);
    let ids = if !may_miss(plan) {
        points
    } else if is_scanned(index, plan) {
        let budget = crate::descent::rerank_budget(index.config.binary_rerank as int, ef);
        if index.config.binary_rerank == 0 || points.len() <= budget {
            points
        } else {
            let code = crate::descent::query_sketch(index, kernels.rotate, query);
            crate::descent::ids_of(
                crate::descent::estimated(
                    near,
                    crate::descent::preselected(index, code, points, budget),
                    ef,
                ),
            )
        }
    } else if index.config.global_in_use() && cells.len() > 1 {
        let wide = widened(ef, index.config.graph_expansion as int, index.store.len as int);
        crate::descent::ids_of(
            crate::crossing::crossing_found(
                index,
                near,
                |d: u32, worst: u32| of3(kernels.too_far, index.config.epsilon, d, worst),
                |bridge: Bridge| of1(kernels.promises, bridge),
                of2(kernels.allowance, index.config.beta, wide as usize) as int,
                cells,
                wide,
            ),
        )
    } else {
        let order = crate::descent::cells_by_entry(index, near, cells);
        crate::descent::ids_of(
            crate::descent::merged_cells(index, near, order, ef, order.len() as int),
        )
    };
    assert(results == ranked(exact, ids, k));
    ranking_is_exact(exact, ids, k);
}

/// Whether a batch of queries and filters can be answered.
pub open spec fn batch_verdict(index: &PrismIndex, queries: Seq<u32>, filters: Seq<Filter>, nq: int) -> Verdict {
    let dim = index.store.dim as int;
    if nq * dim > usize::MAX {
        Verdict::Overflow
    } else if queries.len() == nq * dim && filters.len() == nq && all_in_domain(queries, dim)
        && forall|q: int|
        0 <= q < nq ==> within_schema((#[trigger] filters[q]).constraints@, index.store.arity()) {
        Verdict::Accepted
    } else {
        Verdict::InvalidInput
    }
}

impl PrismIndex {
    /// Checks the shape of a batch of queries.
    pub fn check_batch(&self, queries: &[u32], filters: &[Filter], nq: usize) -> (result: PrismResult<()>)
        requires
            self.wf(),
        ensures
            ends(result, batch_verdict(self, queries@, filters@, nq as int)),
    {
        let expected: usize = match nq.checked_mul(self.store.dim) {
            Some(expected) => expected,
            None => {
                return Err(overflow("query batch shape exceeds addressable memory"));
            },
        };
        if queries.len() != expected {
            return Err(invalid_input("query data length does not equal nq * dimension"));
        }
        if filters.len() != nq {
            return Err(invalid_input("filter count does not equal query count"));
        }
        if !check_domain(queries, self.store.dim) {
            return Err(invalid_input("query value must be finite, its absolute magnitude within the distance domain"));
        }
        let mut q: usize = 0;
        while q < nq
            invariant
                q <= nq,
                filters@.len() == nq,
                self.wf(),
                nq * self.store.dim <= usize::MAX,
                forall|r: int|
                    0 <= r < q ==> within_schema(
                        (#[trigger] filters@[r]).constraints@,
                        self.store.arity(),
                    ),
            decreases nq - q,
        {
            match filters[q].validate(self.store.k()) {
                Ok(()) => {},
                Err(error) => {
                    assert(!within_schema(filters@[q as int].constraints@, self.store.arity()));
                    return Err(error);
                },
            }
            q = q + 1;
        }
        Ok(())
    }

    /// Searches for several queries, each with its own filter.
    pub fn batch_search<
        A: Fn(&[u32]) -> Vec<u32>,
        D: Fn(Metric, &[u32], &[u32]) -> u32,
        G: Fn(&[u32], &[u32], u64, u64) -> u32,
        N: Fn(&[u32]) -> u64,
        R: Fn(u64) -> u64,
        T: Fn(&[u32], &[u8], &[u32], &[u32]) -> u32,
        F: Fn(&[u32], &[u32], usize) -> Vec<bool>,
        U: Fn(usize, usize) -> u32,
        X: Fn(u32, u32, u32) -> bool,
        Y: Fn(u32, usize) -> usize,
        Z: Fn(Bridge) -> bool,
    >(
        &self,
        kernels: &SearchKernels<A, D, G, N, R, T, F, U, X, Y, Z>,
        queries: &[u32],
        filters: &[Filter],
        nq: usize,
        k: usize,
        ef: usize,
    ) -> (result: PrismResult<Vec<SearchOutcome>>)
        requires
            self.wf(),
            kernels.fit(self.store.dim as int),
        ensures
            ends(result, batch_verdict(self, queries@, filters@, nq as int)),
            result matches Ok(outcomes) ==> {
                &&& outcomes@.len() == nq
                &&& forall|q: int|
                    0 <= q < nq ==> {
                        &&& outcome_fits(
                            self,
                            kernels,
                            row_of(queries@, q, self.store.dim as int),
                            &filters@[q],
                            k as int,
                            ef as int,
                            #[trigger] &outcomes@[q],
                        )
                        &&& outcome_serves(
                            self,
                            kernels,
                            row_of(queries@, q, self.store.dim as int),
                            &filters@[q],
                            k as int,
                            outcomes@[q].results@,
                        )
                    }
            },
    {
        match self.check_batch(queries, filters, nq) {
            Ok(()) => {},
            Err(error) => {
                return Err(error);
            },
        }
        let dim: usize = self.store.dim;
        let mut outcomes: Vec<SearchOutcome> = Vec::new();
        while outcomes.len() < nq
            invariant
                outcomes@.len() <= nq,
                self.wf(),
                dim == self.store.dim,
                kernels.fit(dim as int),
                queries@.len() == nq * dim,
                queries@.len() <= usize::MAX,
                filters@.len() == nq,
                all_in_domain(queries@, dim as int),
                forall|r: int|
                    0 <= r < nq ==> within_schema(
                        (#[trigger] filters@[r]).constraints@,
                        self.store.arity(),
                    ),
                forall|q: int|
                    0 <= q < outcomes@.len() ==> {
                        &&& outcome_fits(
                            self,
                            kernels,
                            row_of(queries@, q, dim as int),
                            &filters@[q],
                            k as int,
                            ef as int,
                            #[trigger] &outcomes@[q],
                        )
                        &&& outcome_serves(
                            self,
                            kernels,
                            row_of(queries@, q, dim as int),
                            &filters@[q],
                            k as int,
                            outcomes@[q].results@,
                        )
                    },
            decreases nq - outcomes@.len(),
        {
            let q: usize = outcomes.len();
            proof {
                crate::point::row_bounds(q as int, nq as int, dim as int);
            }
            let start: usize = q * dim;
            let query = vstd::slice::slice_subrange(queries, start, start + dim);
            proof {
                assert(query@ =~= row_of(queries@, q as int, dim as int));
                assert forall|i: int| 0 <= i < query@.len() implies crate::single::in_domain(
                    #[trigger] query@[i],
                    dim as int,
                ) by {
                    assert(crate::single::in_domain(queries@[start + i], dim as int));
                }
                assert(within_schema(filters@[q as int].constraints@, self.store.arity()));
            }
            match self.search(kernels, query, &filters[q], k, ef) {
                Ok(outcome) => {
                    outcomes.push(outcome);
                },
                Err(error) => {
                    return Err(error);
                },
            }
        }
        Ok(outcomes)
    }
}

/// A search whose first phase measures every eligible point, or that falls
/// back to doing so, returns exactly the nearest ones; so does every search by
/// inner product.
pub proof fn exact_searches_are_exact<
    A: Fn(&[u32]) -> Vec<u32>,
    D: Fn(Metric, &[u32], &[u32]) -> u32,
    G: Fn(&[u32], &[u32], u64, u64) -> u32,
    N: Fn(&[u32]) -> u64,
    R: Fn(u64) -> u64,
    T: Fn(&[u32], &[u8], &[u32], &[u32]) -> u32,
    F: Fn(&[u32], &[u32], usize) -> Vec<bool>,
    U: Fn(usize, usize) -> u32,
    X: Fn(u32, u32, u32) -> bool,
    Y: Fn(u32, usize) -> usize,
    Z: Fn(Bridge) -> bool,
>(
    index: &PrismIndex,
    kernels: &SearchKernels<A, D, G, N, R, T, F, U, X, Y, Z>,
    query: Seq<u32>,
    filter: &Filter,
    k: int,
    ef: int,
    outcome: &SearchOutcome,
)
    requires
        index.wf(),
        index.tree.cells@.len() <= usize::MAX,
        0 <= k,
        outcome_fits(index, kernels, query, filter, k, ef, outcome),
        outcome.diagnostics.primary_execution == SearchExecution::ExactScan
            || outcome.diagnostics.used_exact_fallback || index.config.metric
            == Metric::InnerProduct,
    ensures
        outcome.results@ == ranked(
            kernels.exact(index, kernels.compared(index, query)),
            eligible(&index.tree, filter),
            k,
        ),
{
    let plan = plan_for(index, filter, kernels.ratio);
    let asked = kernels.compared(index, query);
    let exact = kernels.exact(index, asked);
    let points = eligible(&index.tree, filter);
    let wide = if ef > k {
        ef
    } else {
        k
    };
    eligible_points_are_exact(index, filter);
    ranking_is_exact(exact, points, k);
    if target_of(plan, k) == 0 {
        assert(outcome.results@ =~= ranked(exact, points, k));
    } else {
        primary_is_ranked(
            index,
            kernels,
            plan,
            asked,
            passing_cells(&index.tree, filter),
            k,
            wide,
        );
    }
}

} // verus!
