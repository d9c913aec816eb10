//! An index that is put together again answers like the one it came from.

use vstd::prelude::*;
use crate::crossing::{
    advanced, bridge_at, crossed_over, crossing_entry, crossing_found, discovered, open_matches,
    passing_flags, Bridge, Front,
};
use crate::descent::{cell_contribution, cell_found, cells_by_entry, merged_cells, preselected};
use crate::distance::Metric;
use crate::filter::Filter;
use crate::index::PrismIndex;
use crate::partition::gathered;
use crate::pure::{of1, of3};
use crate::query::{outcome_fits, primary_results, SearchKernels};
use crate::search::{passing_cells, plan_for, SearchOutcome, SearchPlan};
use crate::select::Scored;

verus! {

/// The parts of both are the same.
pub open spec fn same_parts(one: &PrismIndex, two: &PrismIndex) -> bool {
    &&& one.store == two.store
    &&& one.tree == two.tree
    &&& one.graph == two.graph
    &&& one.medoids == two.medoids
    &&& one.global_medoid == two.global_medoid
    &&& one.point_cell == two.point_cell
    &&& one.original_ids == two.original_ids
    &&& one.sq8 == two.sq8
    &&& one.binary == two.binary
    &&& one.config == two.config
}

proof fn open_matches_agree(
    one: &PrismIndex,
    two: &PrismIndex,
    passing: Seq<bool>,
    seen: Seq<bool>,
    row: Seq<u32>,
    upto: int,
)
    requires
        same_parts(one, two),
    ensures
        open_matches(one, passing, seen, row, upto) == open_matches(two, passing, seen, row, upto),
    decreases upto,
{
    if upto > 0 {
        open_matches_agree(one, two, passing, seen, row, upto - 1);
    }
}

proof fn advances_agree(
    one: &PrismIndex,
    two: &PrismIndex,
    passing: Seq<bool>,
    seen: Seq<bool>,
    front: Front,
    fresh: Seq<u32>,
    key: spec_fn(u32) -> u64,
    promises: spec_fn(Bridge) -> bool,
    budget: int,
    eligible: int,
    ef: int,
    upto: int,
)
    requires
        same_parts(one, two),
    ensures
        advanced(one, passing, seen, front, fresh, key, promises, budget, eligible, ef, upto)
            == advanced(two, passing, seen, front, fresh, key, promises, budget, eligible, ef, upto),
    decreases upto,
{
    if upto > 0 {
        advances_agree(
            one,
            two,
            passing,
            seen,
            front,
            fresh,
            key,
            promises,
            budget,
            eligible,
            ef,
            upto - 1,
        );
        let w = fresh[upto - 1];
        let row = one.graph.row(w as int);
        open_matches_agree(one, two, passing, seen, row, row.len() as int);
        let best = advanced(
            one,
            passing,
            seen,
            front,
            fresh,
            key,
            promises,
            budget,
            eligible,
            ef,
            upto - 1,
        ).1;
        assert(bridge_at(one, passing, seen, best, key, eligible, w) == bridge_at(
            two,
            passing,
            seen,
            best,
            key,
            eligible,
            w,
        ));
    }
}

proof fn crossings_agree(
    one: &PrismIndex,
    two: &PrismIndex,
    passing: Seq<bool>,
    seen: Seq<bool>,
    front: Front,
    key: spec_fn(u32) -> u64,
    too_far: spec_fn(u32, u32) -> bool,
    promises: spec_fn(Bridge) -> bool,
    budget: int,
    eligible: int,
    ef: int,
    fuel: int,
)
    requires
        same_parts(one, two),
    ensures
        crossed_over(
            one,
            passing,
            seen,
            front,
            key,
            too_far,
            promises,
            budget,
            eligible,
            ef,
            fuel,
        ) == crossed_over(
            two,
            passing,
            seen,
            front,
            key,
            too_far,
            promises,
            budget,
            eligible,
            ef,
            fuel,
        ),
    decreases fuel,
{
    let (frontier, best, crossed) = front;
    if fuel > 0 && frontier.len() > 0 {
        let row = one.graph.row(frontier[0].1 as int);
        let (fresh, now) = discovered(row, seen, row.len() as int);
        let rest = (frontier.skip(1), best, crossed);
        let count = fresh.len() as int;
        advances_agree(
            one,
            two,
            passing,
            now,
            rest,
            fresh,
            key,
            promises,
            budget,
            eligible,
            ef,
            count,
        );
        crossings_agree(
            one,
            two,
            passing,
            now,
            advanced(
                one,
                passing,
                now,
                rest,
                fresh,
                key,
                promises,
                budget,
                eligible,
                ef,
                count,
            ),
            key,
            too_far,
            promises,
            budget,
            eligible,
            ef,
            fuel - 1,
        );
    }
}

proof fn merges_agree(
    one: &PrismIndex,
    two: &PrismIndex,
    key: spec_fn(u32) -> u64,
    order: Seq<Scored>,
    ef: int,
    upto: int,
)
    requires
        same_parts(one, two),
    ensures
        merged_cells(one, key, order, ef, upto) == merged_cells(two, key, order, ef, upto),
    decreases upto,
{
    if upto > 0 {
        merges_agree(one, two, key, order, ef, upto - 1);
        let c = order[upto - 1].1 as int;
        assert forall|wide: int| #[trigger] cell_found(one, key, c, wide) == cell_found(
            two,
            key,
            c,
            wide,
        ) by {}
        assert(cell_contribution(one, key, c, ef) == cell_contribution(two, key, c, ef));
    }
}

/// The first phase of a search returns the same from both.
proof fn primaries_agree<
    A: Fn(&[u32]) -> Vec<u32>,
    D: Fn(Metric, &[u32], &[u32]) -> u32,
    G: Fn(&[u32], &[u32], u64, u64) -> u32,
    N: Fn(&[u32]) -> u64,
    R: Fn(u64) -> u64,
    T: Fn(&[u32], &[u8], &[u32], &[u32]) -> u32,
    F: Fn(&[u32], &[u32], usize) -> Vec<bool>,
    U: Fn(usize, usize) -> u32,
    X: Fn(u32, u32, u32) -> bool,
    Y: Fn(u32, usize) -> usize,
    Z: Fn(Bridge) -> bool,
>(
    one: &PrismIndex,
    two: &PrismIndex,
    kernels: &SearchKernels<A, D, G, N, R, T, F, U, X, Y, Z>,
    plan: SearchPlan,
    query: Seq<u32>,
    cells: Seq<usize>,
    k: int,
    ef: int,
)
    requires
        same_parts(one, two),
        one.cosine_norms.values@ == two.cosine_norms.values@,
    ensures
        primary_results(one, kernels, plan, query, cells, k, ef) == primary_results(
            two,
            kernels,
            plan,
            query,
            cells,
            k,
            ef,
        ),
        kernels.exact(one, query) == kernels.exact(two, query),
{
    let exact = kernels.exact(one, query);
    let near = kernels.near(one, query);
    assert(exact =~= kernels.exact(two, query));
    assert(near =~= kernels.near(two, query));
    assert forall|code: Seq<u64>, ids: Seq<u32>, budget: int| #[trigger]
        preselected(one, code, ids, budget) == preselected(two, code, ids, budget) by {}
    let order = cells_by_entry(one, near, cells);
    assert(order == cells_by_entry(two, near, cells));
    merges_agree(one, two, near, order, ef, order.len() as int);
    let epsilon = one.config.epsilon;
    let too_far = |d: u32, worst: u32| of3(kernels.too_far, epsilon, d, worst);
    let promises = |bridge: Bridge| of1(kernels.promises, bridge);
    assert((|d: u32, worst: u32| of3(kernels.too_far, one.config.epsilon, d, worst))
        =~= too_far);
    assert((|d: u32, worst: u32| of3(kernels.too_far, two.config.epsilon, d, worst))
        =~= too_far);
    assert forall|budget: int, wide: int|
        #![trigger crossing_found(one, near, too_far, promises, budget, cells, wide)]
        crossing_found(one, near, too_far, promises, budget, cells, wide) == crossing_found(
            two,
            near,
            too_far,
            promises,
            budget,
            cells,
            wide,
        ) by {
        let n = one.store.len as int;
        let entry = crossing_entry(one, near, cells);
        assert(entry == crossing_entry(two, near, cells));
        let start = seq![(near(entry), entry)];
        crossings_agree(
            one,
            two,
            passing_flags(cells, one.tree.cells@.len() as int),
            Seq::new(n as nat, |i: int| i == entry),
            (start, start, 0),
            near,
            too_far,
            promises,
            budget,
            gathered(one.tree.cells@, cells).len() as int,
            wide,
            n,
        );
    }
}

/// An index whose parts are those of another, with the norms that belong to
/// them, gives the same results and says the same of how it found them.
pub proof fn reassembled_index_answers_alike<
    A: Fn(&[u32]) -> Vec<u32>,
    D: Fn(Metric, &[u32], &[u32]) -> u32,
    G: Fn(&[u32], &[u32], u64, u64) -> u32,
    N: Fn(&[u32]) -> u64,
    R: Fn(u64) -> u64,
    T: Fn(&[u32], &[u8], &[u32], &[u32]) -> u32,
    F: Fn(&[u32], &[u32], usize) -> Vec<bool>,
    U: Fn(usize, usize) -> u32,
    X: Fn(u32, u32, u32) -> bool,
    Y: Fn(u32, usize) -> usize,
    Z: Fn(Bridge) -> bool,
>(
    one: &PrismIndex,
    two: &PrismIndex,
    kernels: &SearchKernels<A, D, G, N, R, T, F, U, X, Y, Z>,
    query: Seq<u32>,
    filter: &Filter,
    k: int,
    ef: int,
    first: &SearchOutcome,
    second: &SearchOutcome,
)
    requires
        same_parts(one, two),
        one.cosine_norms.caches(&one.store, one.config.metric, kernels.squared, kernels.root),
        two.cosine_norms.caches(&two.store, two.config.metric, kernels.squared, kernels.root),
        outcome_fits(one, kernels, query, filter, k, ef, first),
        outcome_fits(two, kernels, query, filter, k, ef, second),
    ensures
        first.results@ == second.results@,
        first.diagnostics == second.diagnostics,
{
    assert(one.cosine_norms.values@ =~= two.cosine_norms.values@);
    let plan = plan_for(one, filter, kernels.ratio);
    assert(plan == plan_for(two, filter, kernels.ratio));
    let wide = if ef > k {
        ef
    } else {
        k
    };
    primaries_agree(
        one,
        two,
        kernels,
        plan,
        kernels.compared(one, query),
        passing_cells(&one.tree, filter),
        k,
        wide,
    );
    assert(first.results@ =~= second.results@);
}

} // verus!
