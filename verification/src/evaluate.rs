//! Measuring how good and how complete answers are.

use vstd::prelude::*;
use crate::descent::inside;
use crate::filter::Filter;
use crate::graph::Graph;
use crate::index::PrismIndex;
use crate::order::{ascending, ascending_is_sorted, ascending_set};
use crate::point::PointStore;
use crate::search::SearchResult;
use crate::single::{finite, is_finite, less, less_than};

verus! {

/// Number of different entries.
pub open spec fn distinct(ids: Seq<u32>) -> nat {
    ids.to_set().len()
}

/// Number of different entries.
fn count_distinct(ids: &Vec<u32>) -> (count: usize)
    ensures
        count == distinct(ids@),
        count <= ids@.len(),
{
    let unique = ascending_set(ids.as_slice());
    let given: usize = ids.len();
    proof {
        ascending_is_sorted(unique@);
        unique@.unique_seq_to_set();
        assert(unique@.to_set() =~= ids@.to_set()) by {
            assert forall|x: u32| unique@.to_set().contains(x) <==> ids@.to_set().contains(x) by {
                assert(unique@.contains(x) <==> ids@.contains(x));
            }
        }
        ids@.lemma_cardinality_of_set();
    }
    unique.len()
}

/// Value `id` is among the first `accepted` true neighbours of query `q`.
pub open spec fn is_true_neighbor(truth: Seq<i32>, gt_k: int, accepted: int, q: int, id: u32) -> bool {
    exists|j: int| 0 <= j < accepted && #[trigger] truth[q * gt_k + j] == id
}

/// The true neighbours of every query, as far as they count: the first
/// `requested_k` of each row of a table with `gt_k` columns, without the
/// negative entries that fill short rows.
pub fn build_ground_truth_sets(ground_truth: &[i32], nq: usize, gt_k: usize, requested_k: usize) -> (sets:
    Vec<Vec<u32>>)
    requires
        ground_truth@.len() == nq * gt_k,
    ensures
        sets@.len() == nq,
        forall|q: int|
            0 <= q < nq ==> ascending((#[trigger] sets@[q])@) && forall|id: u32|
                #[trigger] sets@[q]@.contains(id) <==> is_true_neighbor(
                    ground_truth@,
                    gt_k as int,
                    if requested_k < gt_k {
                        requested_k as int
                    } else {
                        gt_k as int
                    },
                    q,
                    id,
                ),
{
    let accepted: usize = if requested_k < gt_k { requested_k } else { gt_k };
    let size: usize = ground_truth.len();
    let mut sets: Vec<Vec<u32>> = Vec::new();
    while sets.len() < nq
        invariant
            sets@.len() <= nq,
            accepted <= gt_k,
            size == ground_truth@.len(),
            ground_truth@.len() == nq * gt_k,
            forall|q: int|
                0 <= q < sets@.len() ==> ascending((#[trigger] sets@[q])@) && forall|id: u32|
                    #[trigger] sets@[q]@.contains(id) <==> is_true_neighbor(
                        ground_truth@,
                        gt_k as int,
                        accepted as int,
                        q,
                        id,
                    ),
        decreases nq - sets@.len(),
    {
        let q: usize = sets.len();
        let mut row: Vec<u32> = Vec::new();
        let mut j: usize = 0;
        while j < accepted
            invariant
                q < nq,
                j <= accepted <= gt_k,
                size == ground_truth@.len(),
                ground_truth@.len() == nq * gt_k,
                forall|id: u32|
                    #[trigger] row@.contains(id) <==> is_true_neighbor(
                        ground_truth@,
                        gt_k as int,
                        j as int,
                        q as int,
                        id,
                    ),
            decreases accepted - j,
        {
            proof {
                assert(0 <= q * gt_k && q * gt_k + j < nq * gt_k) by (nonlinear_arith)
                    requires
                        0 <= q < nq,
                        0 <= j < gt_k,
                ;
            }
            let id: i32 = ground_truth[q * gt_k + j];
            let ghost before = row@;
            if id >= 0 {
                row.push(id as u32);
            }
            proof {
                assert forall|x: u32| #[trigger] row@.contains(x) <==> is_true_neighbor(
                    ground_truth@,
                    gt_k as int,
                    j + 1,
                    q as int,
                    x,
                ) by {
                    assert(before.contains(x) <==> is_true_neighbor(
                        ground_truth@,
                        gt_k as int,
                        j as int,
                        q as int,
                        x,
                    ));
                    if before.contains(x) {
                        let m = choose|m: int| 0 <= m < before.len() && before[m] == x;
                        assert(row@[m] == x);
                    }
                    if id >= 0 {
                        assert(row@[before.len() as int] == id);
                    }
                    if row@.contains(x) {
                        let m = choose|m: int| 0 <= m < row@.len() && row@[m] == x;
                        if m < before.len() {
                            assert(before[m] == x);
                        } else {
                            assert(ground_truth@[q * gt_k + j] == x);
                        }
                    }
                    if is_true_neighbor(ground_truth@, gt_k as int, j + 1, q as int, x) {
                        let m = choose|m: int|
                            0 <= m < j + 1 && #[trigger] ground_truth@[q * gt_k + m] == x;
                        if m < j {
                            assert(is_true_neighbor(
                                ground_truth@,
                                gt_k as int,
                                j as int,
                                q as int,
                                x,
                            ));
                        }
                    }
                }
            }
            j = j + 1;
        }
        let set = ascending_set(row.as_slice());
        assert forall|id: u32| #[trigger] set@.contains(id) <==> is_true_neighbor(
            ground_truth@,
            gt_k as int,
            accepted as int,
            q as int,
            id,
        ) by {
            assert(set@.contains(id) <==> row@.contains(id));
        }
        sets.push(set);
    }
    sets
}

/// The first `k` entries that are in a set.
pub open spec fn hits(row: Seq<u32>, truth: Seq<u32>, k: int) -> Seq<u32> {
    let few = if k < row.len() {
        row.take(k)
    } else {
        row
    };
    few.filter(|id: u32| truth.contains(id))
}

/// Credit for one answer: what was found, and what was to be found.  Where
/// nothing was to be found an empty answer has full credit, any other none.
pub open spec fn credit(row: Seq<u32>, truth: Seq<u32>, k: int) -> (int, int) {
    if truth.len() == 0 {
        (
            if row.len() == 0 {
                1int
            } else {
                0
            },
            1,
        )
    } else {
        (distinct(hits(row, truth, k)) as int, truth.len() as int)
    }
}

/// Entries of `row` before `upto` that satisfy `good`.
proof fn filter_push(row: Seq<u32>, good: spec_fn(u32) -> bool, upto: int)
    requires
        0 <= upto < row.len(),
    ensures
        row.take(upto + 1).filter(good) == if good(row[upto]) {
            row.take(upto).filter(good).push(row[upto])
        } else {
            row.take(upto).filter(good)
        },
{
    reveal(Seq::filter);
    assert(row.take(upto + 1).drop_last() =~= row.take(upto));
}

/// Whether a set holds an identifier.
fn is_in(truth: &Vec<u32>, id: u32) -> (answer: bool)
    ensures
        answer == truth@.contains(id),
{
    let mut i: usize = 0;
    while i < truth.len()
        invariant
            i <= truth@.len(),
            forall|j: int| 0 <= j < i ==> truth@[j] != id,
        decreases truth@.len() - i,
    {
        if truth[i] == id {
            return true;
        }
        i = i + 1;
    }
    false
}

/// Credit of every answer.
pub fn recall_credits(results: &[Vec<u32>], truth: &[Vec<u32>], k: usize) -> (credits: Vec<(usize, usize)>)
    requires
        results@.len() == truth@.len(),
    ensures
        credits@.len() == results@.len(),
        forall|q: int|
            0 <= q < results@.len() ==> ((#[trigger] credits@[q]).0 as int, credits@[q].1 as int) == credit(
                results@[q]@,
                truth@[q]@,
                k as int,
            ),
{
    let mut credits: Vec<(usize, usize)> = Vec::new();
    while credits.len() < results.len()
        invariant
            credits@.len() <= results@.len(),
            results@.len() == truth@.len(),
            forall|q: int|
                0 <= q < credits@.len() ==> ((#[trigger] credits@[q]).0 as int, credits@[q].1 as int)
                    == credit(results@[q]@, truth@[q]@, k as int),
        decreases results@.len() - credits@.len(),
    {
        let q: usize = credits.len();
        let row = &results[q];
        let expected = &truth[q];
        if expected.len() == 0 {
            credits.push((if row.len() == 0 { 1 } else { 0 }, 1));
        } else {
            let count: usize = if k < row.len() { k } else { row.len() };
            let ghost few = if k < row@.len() {
                row@.take(k as int)
            } else {
                row@
            };
            let ghost good = |id: u32| expected@.contains(id);
            let mut found: Vec<u32> = Vec::new();
            let mut i: usize = 0;
            proof {
                reveal(Seq::filter);
                assert(few.take(0) =~= Seq::<u32>::empty());
            }
            while i < count
                invariant
                    i <= count,
                    count <= row@.len(),
                    few == row@.take(count as int),
                    good == (|id: u32| expected@.contains(id)),
                    found@ == few.take(i as int).filter(good),
                decreases count - i,
            {
                let id: u32 = row[i];
                proof {
                    filter_push(few, good, i as int);
                }
                if is_in(expected, id) {
                    found.push(id);
                }
                i = i + 1;
            }
            assert(few.take(count as int) =~= few);
            credits.push((count_distinct(&found), expected.len()));
        }
    }
    credits
}

/// The identifiers of results.
pub open spec fn result_ids(results: Seq<SearchResult>) -> Seq<u32> {
    results.map_values(|result: SearchResult| result.id)
}

/// The results that pass a filter and, where a limit is given, are not farther
/// away than it.
pub open spec fn good_results(
    results: Seq<SearchResult>,
    filter: &Filter,
    store: &PointStore,
    limit: Option<u32>,
) -> Seq<SearchResult> {
    results.filter(|result: SearchResult| is_good(result, filter, store, limit))
}

/// Whether a result passes a filter and is not farther away than a limit.
pub open spec fn is_good(
    result: SearchResult,
    filter: &Filter,
    store: &PointStore,
    limit: Option<u32>,
) -> bool {
    filter.passes(store, result.id as int) && match limit {
        Some(bits) => is_finite(bits) && is_finite(result.dist) && !less(bits, result.dist),
        None => true,
    }
}

proof fn results_push(results: Seq<SearchResult>, good: spec_fn(SearchResult) -> bool, upto: int)
    requires
        0 <= upto < results.len(),
    ensures
        results.take(upto + 1).filter(good) == if good(results[upto]) {
            results.take(upto).filter(good).push(results[upto])
        } else {
            results.take(upto).filter(good)
        },
{
    reveal(Seq::filter);
    assert(results.take(upto + 1).drop_last() =~= results.take(upto));
}

/// How many different results pass a filter and, where a limit is given, are
/// not farther away than it.
pub fn count_good(
    results: &Vec<SearchResult>,
    filter: &Filter,
    store: &PointStore,
    limit: Option<u32>,
) -> (count: usize)
    requires
        store.wf(),
        filter.wf(),
    ensures
        count == distinct(result_ids(good_results(results@, filter, store, limit))),
        count <= results@.len(),
{
    let ghost good = |result: SearchResult| is_good(result, filter, store, limit);
    let mut ids: Vec<u32> = Vec::new();
    let mut i: usize = 0;
    proof {
        reveal(Seq::filter);
        assert(results@.take(0) =~= Seq::<SearchResult>::empty());
        assert(ids@ =~= result_ids(results@.take(0).filter(good)));
    }
    while i < results.len()
        invariant
            i <= results@.len(),
            store.wf(),
            filter.wf(),
            good == (|result: SearchResult| is_good(result, filter, store, limit)),
            ids@ == result_ids(results@.take(i as int).filter(good)),
            ids@.len() <= i,
        decreases results@.len() - i,
    {
        let result: SearchResult = results[i];
        let near = match limit {
            Some(bits) => finite(bits) && finite(result.dist) && !less_than(bits, result.dist),
            None => true,
        };
        proof {
            results_push(results@, good, i as int);
        }
        let ghost before = results@.take(i as int).filter(good);
        if near && filter.matches(store, result.id) {
            ids.push(result.id);
            assert(ids@ =~= result_ids(before.push(result)));
        }
        i = i + 1;
    }
    assert(results@.take(results@.len() as int) =~= results@);
    count_distinct(&ids)
}

/// Whether every result passes a filter.
pub fn all_pass(results: &Vec<SearchResult>, filter: &Filter, store: &PointStore) -> (answer: bool)
    requires
        store.wf(),
        filter.wf(),
    ensures
        answer == forall|i: int|
            0 <= i < results@.len() ==> filter.passes(store, (#[trigger] results@[i]).id as int),
{
    let mut i: usize = 0;
    while i < results.len()
        invariant
            i <= results@.len(),
            store.wf(),
            filter.wf(),
            forall|j: int|
                0 <= j < i ==> filter.passes(store, (#[trigger] results@[j]).id as int),
        decreases results@.len() - i,
    {
        if !filter.matches(store, results[i].id) {
            assert(!filter.passes(store, results@[i as int].id as int));
            return false;
        }
        i = i + 1;
    }
    true
}

/// Sum of the counts, each at most `target`.
pub open spec fn capped_sum(counts: Seq<usize>, target: int) -> int
    decreases counts.len(),
{
    if counts.len() == 0 {
        0
    } else {
        capped_sum(counts.drop_last(), target) + if counts.last() < target {
            counts.last() as int
        } else {
            target
        }
    }
}

/// How many counts reach `target`.
pub open spec fn reached(counts: Seq<usize>, target: int) -> int
    decreases counts.len(),
{
    if counts.len() == 0 {
        0
    } else {
        reached(counts.drop_last(), target) + if counts.last() >= target {
            1int
        } else {
            0
        }
    }
}

/// Completeness of several answers: how much of the target they have together,
/// and how many have all of it.
pub fn completeness(counts: &Vec<usize>, target: usize) -> (summary: (u128, usize))
    ensures
        summary.0 == capped_sum(counts@, target as int),
        summary.1 == reached(counts@, target as int),
{
    let size: usize = counts.len();
    let mut total: u128 = 0;
    let mut full: usize = 0;
    let mut i: usize = 0;
    assert(counts@.take(0) =~= Seq::<usize>::empty());
    while i < size
        invariant
            i <= size,
            size == counts@.len(),
            total == capped_sum(counts@.take(i as int), target as int),
            total <= i * (target as int),
            full == reached(counts@.take(i as int), target as int),
            full <= i,
        decreases size - i,
    {
        let count: usize = counts[i];
        proof {
            assert(counts@.take(i + 1).drop_last() =~= counts@.take(i as int));
            assert((i + 1) * (target as int) == i * (target as int) + target) by (nonlinear_arith);
            assert(i * (target as int) <= 0xffff_ffff_ffff_ffff * 0xffff_ffff_ffff_ffff)
                by (nonlinear_arith)
                requires
                    0 <= i <= 0xffff_ffff_ffff_ffff,
                    0 <= target <= 0xffff_ffff_ffff_ffff,
            ;
        }
        total = total + (if count < target { count } else { target }) as u128;
        if count >= target {
            full = full + 1;
        }
        i = i + 1;
    }
    assert(counts@.take(size as int) =~= counts@);
    (total, full)
}

/// The least and the greatest number of neighbours.
pub fn degree_range(graph: &Graph) -> (range: (usize, usize))
    requires
        graph.wf(),
    ensures
        graph.n == 0 ==> range == (0usize, 0usize),
        graph.n > 0 ==> {
            &&& forall|i: int|
                0 <= i < graph.n ==> range.0 <= (#[trigger] graph.row(i)).len() <= range.1
            &&& exists|i: int| 0 <= i < graph.n && (#[trigger] graph.row(i)).len() == range.0
            &&& exists|i: int| 0 <= i < graph.n && (#[trigger] graph.row(i)).len() == range.1
        },
{
    let n: usize = graph.len();
    if n == 0 {
        return (0, 0);
    }
    let first: usize = graph.neighbors_unchecked(0).len();
    let mut least: usize = first;
    let mut most: usize = first;
    assert(graph.row(0).len() == first);
    let mut i: usize = 1;
    while i < n
        invariant
            1 <= i <= n,
            n == graph.n,
            graph.wf(),
            forall|j: int| 0 <= j < i ==> least <= (#[trigger] graph.row(j)).len() <= most,
            exists|j: int| 0 <= j < i && (#[trigger] graph.row(j)).len() == least,
            exists|j: int| 0 <= j < i && (#[trigger] graph.row(j)).len() == most,
        decreases n - i,
    {
        let degree: usize = graph.neighbors_unchecked(i as u32).len();
        assert(graph.row(i as int).len() == degree);
        if degree < least {
            least = degree;
        }
        if degree > most {
            most = degree;
        }
        i = i + 1;
    }
    (least, most)
}

/// Number of edges of the first `upto` points that stay in their cell.
pub open spec fn local_edges(index: &PrismIndex, upto: int) -> nat
    decreases upto,
{
    if upto <= 0 {
        0
    } else {
        let p = (upto - 1) as u32;
        let ids = index.tree.cells@[index.point_cell@[upto - 1] as int].point_ids@;
        local_edges(index, upto - 1) + inside(&index.graph, p, ids[0], ids.last()).len()
    }
}

/// Number of edges that stay in their cell.
pub fn count_local_edges(index: &PrismIndex) -> (count: u64)
    requires
        index.wf(),
    ensures
        count == local_edges(index, index.store.len as int),
{
    let n: usize = index.store.len();
    let mut count: u64 = 0;
    let mut p: usize = 0;
    while p < n
        invariant
            p <= n,
            n == index.store.len,
            index.wf(),
            count == local_edges(index, p as int),
            count <= p * 0xffff_ffff,
        decreases n - p,
    {
        let list = index.local_neighbors(p as u32);
        let degree: usize = list.len();
        proof {
            let ids = index.tree.cells@[index.point_cell@[p as int] as int].point_ids@;
            crate::descent::inside_is_small(&index.graph, p as u32, ids[0], ids.last());
        }
        count = count + degree as u64;
        p = p + 1;
    }
    count
}

/// Point `p` has these values, one for each attribute.
pub open spec fn has_values(attrs: Seq<Vec<u32>>, values: Seq<u32>, p: int) -> bool {
    forall|j: int| 0 <= j < values.len() ==> (#[trigger] attrs[j])@[p] == values[j]
}

/// Leaves point `kept` alone with its combination of values: the last attribute
/// of every other point that has the values becomes `moved`.
pub fn leave_alone(attrs: &mut Vec<Vec<u32>>, values: &[u32], kept: usize, moved: u32)
    requires
        old(attrs)@.len() == values@.len(),
        values@.len() > 0,
        forall|j: int|
            0 <= j < values@.len() ==> (#[trigger] old(attrs)@[j])@.len() == old(attrs)@[0]@.len(),
    ensures
        final(attrs)@.len() == old(attrs)@.len(),
        forall|j: int|
            0 <= j < values@.len() - 1 ==> #[trigger] final(attrs)@[j] == old(attrs)@[j],
        final(attrs)@.last()@ == Seq::new(
            old(attrs)@.last()@.len(),
            |p: int|
                if p != kept && has_values(old(attrs)@, values@, p) {
                    moved
                } else {
                    old(attrs)@.last()@[p]
                },
        ),
{
    let ghost before = attrs@;
    let last: usize = attrs.len() - 1;
    let n: usize = attrs[last].len();
    let mut column: Vec<u32> = Vec::new();
    while column.len() < n
        invariant
            column@.len() <= n,
            attrs@ == before,
            before.len() == values@.len(),
            last == before.len() - 1,
            forall|j: int| 0 <= j < values@.len() ==> (#[trigger] before[j])@.len() == n,
            forall|p: int|
                0 <= p < column@.len() ==> #[trigger] column@[p] == if p != kept && has_values(
                    before,
                    values@,
                    p,
                ) {
                    moved
                } else {
                    before[last as int]@[p]
                },
        decreases n - column@.len(),
    {
        let p: usize = column.len();
        let mut same: bool = true;
        let mut j: usize = 0;
        while j < values.len()
            invariant
                j <= values@.len(),
                p < n,
                attrs@ == before,
                before.len() == values@.len(),
                forall|i: int| 0 <= i < values@.len() ==> (#[trigger] before[i])@.len() == n,
                same == forall|i: int| 0 <= i < j ==> (#[trigger] before[i])@[p as int] == values@[i],
            decreases values@.len() - j,
        {
            assert(before[j as int]@.len() == n);
            if attrs[j][p] != values[j] {
                same = false;
            }
            j = j + 1;
        }
        assert(same == has_values(before, values@, p as int));
        assert(before[last as int]@.len() == n);
        column.push(
            if p != kept && same {
                moved
            } else {
                attrs[last][p]
            },
        );
    }
    assert(column@ =~= Seq::new(
        before.last()@.len(),
        |p: int|
            if p != kept && has_values(before, values@, p) {
                moved
            } else {
                before.last()@[p]
            },
    ));
    attrs.set(last, column);
}

/// Whether measuring goes on: until there were enough rounds and they took long
/// enough, but never beyond the greatest number of rounds.
pub fn another_round(rounds: usize, min_rounds: usize, max_rounds: usize, long_enough: bool) -> (answer:
    bool)
    ensures
        answer == (rounds < max_rounds && (rounds < min_rounds || !long_enough)),
{
    (rounds < min_rounds || !long_enough) && rounds < max_rounds
}

} // verus!
