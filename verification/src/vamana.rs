//! Neighbour lists within one cell: greedy search and robust pruning.
//!
//! The points of a cell have consecutive identifiers; here they go by their
//! position in the cell.

use rand::rngs::StdRng;
use vstd::prelude::*;
use crate::chance::{arrange, draw, draw_below, held, shuffled, shuffled_prefix};
use crate::distance::{ord_key, Metric};
use crate::medoid::{find_medoid, medoid_of};
use crate::order::{arranged, arranged_holds, arranged_is_sorted, sorted, sorted_copy};
use crate::point::PointStore;
use crate::pure::{gives_means, of4, total4, Measure};
use crate::select::{keep, kept, Scored};
use crate::single::{order_of, ONE};
use crate::vecstore::rows_of;
use crate::walk::{ids_below, kept_ids};
use crate::weave::{apart, covering, is_shuffled, linked_twice, passes_relink};

verus! {

/// Distance pattern of positions `a` and `b` of the cell that begins at `first`.
pub open spec fn gap<D: Fn(Metric, &[u32], &[u32]) -> u32>(
    store: &PointStore,
    first: int,
    measure: Measure<D>,
    a: u32,
    b: u32,
) -> u32 {
    measure.gives(store.row(first + a), store.row(first + b))
}

/// The distance as a key.
pub open spec fn gap_key<D: Fn(Metric, &[u32], &[u32]) -> u32>(
    store: &PointStore,
    first: int,
    measure: Measure<D>,
    a: u32,
    b: u32,
) -> u64 {
    order_of(gap(store, first, measure, a, b)) as u64
}

/// Some entry of the list has this identifier.
pub open spec fn lists_id(list: Seq<Scored>, id: u32) -> bool {
    exists|i: int| 0 <= i < list.len() && (#[trigger] list[i]).1 == id
}

/// Position of the first entry that is not done yet.
pub open spec fn next_open(list: Seq<Scored>, done: Seq<u32>, from: int) -> Option<int>
    decreases list.len() - from,
{
    if from >= list.len() {
        None
    } else if !done.contains(list[from].1) {
        Some(from)
    } else {
        next_open(list, done, from + 1)
    }
}

/// The list after the first `upto` neighbours were offered, except those that
/// are done or listed.
pub open spec fn absorbed(
    list: Seq<Scored>,
    done: Seq<u32>,
    neighbors: Seq<u32>,
    key: spec_fn(u32) -> u64,
    beam: int,
    upto: int,
) -> Seq<Scored>
    decreases upto,
{
    if upto <= 0 {
        list
    } else {
        let before = absorbed(list, done, neighbors, key, beam, upto - 1);
        let w = neighbors[upto - 1];
        if done.contains(w) || lists_id(before, w) {
            before
        } else {
            kept(before, (key(w), w), beam)
        }
    }
}

/// The positions that a search expands, at most `fuel` more: always the nearest
/// listed one that is not expanded yet.
pub open spec fn expanded(
    graph: Seq<Seq<u32>>,
    list: Seq<Scored>,
    done: Seq<u32>,
    key: spec_fn(u32) -> u64,
    beam: int,
    fuel: int,
) -> Seq<u32>
    decreases fuel,
{
    if fuel <= 0 {
        done
    } else {
        match next_open(list, done, 0) {
            None => done,
            Some(i) => {
                let v = list[i].1;
                let more = done.push(v);
                let neighbors = graph[v as int];
                expanded(
                    graph,
                    absorbed(list, more, neighbors, key, beam, neighbors.len() as int),
                    more,
                    key,
                    beam,
                    fuel - 1,
                )
            },
        }
    }
}

/// The positions that a search for `query` from `entry` expands.
pub open spec fn searched<D: Fn(Metric, &[u32], &[u32]) -> u32>(
    store: &PointStore,
    first: int,
    measure: Measure<D>,
    graph: Seq<Seq<u32>>,
    entry: u32,
    query: u32,
    beam: int,
) -> Seq<u32> {
    let key = |w: u32| gap_key(store, first, measure, query, w);
    expanded(graph, seq![(key(entry), entry)], Seq::empty(), key, beam, graph.len() as int)
}

/// Neighbour lists of a cell of `n` points: different positions, never the
/// point itself.
pub open spec fn lists_fit(graph: Seq<Seq<u32>>, n: int) -> bool {
    &&& graph.len() == n
    &&& forall|i: int| 0 <= i < n ==> #[trigger] list_fits(graph[i], n, i)
}

/// Different positions below `n`, and not `i`.
pub open spec fn list_fits(list: Seq<u32>, n: int, i: int) -> bool {
    &&& list.no_duplicates()
    &&& forall|j: int| 0 <= j < list.len() ==> #[trigger] list[j] < n && list[j] != i
}

/// The candidates without `p`.
pub open spec fn others(candidates: Seq<u32>, p: u32, upto: int) -> Seq<u32>
    decreases upto,
{
    if upto <= 0 {
        Seq::empty()
    } else if candidates[upto - 1] == p {
        others(candidates, p, upto - 1)
    } else {
        others(candidates, p, upto - 1).push(candidates[upto - 1])
    }
}

/// Keys of candidates with their positions in the list.
pub open spec fn ranked(candidates: Seq<u32>, key: spec_fn(u32) -> u64) -> Seq<Scored> {
    Seq::new(candidates.len(), |i: int| (key(candidates[i]), i as u32))
}

/// The candidates by distance from `p`; ties stay in their order.
pub open spec fn nearest_first<D: Fn(Metric, &[u32], &[u32]) -> u32>(
    store: &PointStore,
    first: int,
    measure: Measure<D>,
    p: u32,
    candidates: Seq<u32>,
) -> Seq<u32> {
    let rest = others(candidates, p, candidates.len() as int);
    arranged(ranked(rest, |w: u32| gap_key(store, first, measure, p, w))).map_values(
        |entry: Scored| rest[entry.1 as int],
    )
}

/// How many times the strictness `alpha` multiplies a distance.  It applies to
/// lengths, so it counts twice where distances are squares of lengths.
pub open spec fn alpha_power(metric: Metric) -> u32 {
    match metric {
        Metric::L2 | Metric::Cosine => 2,
        Metric::InnerProduct => 1,
    }
}

/// Some selected position makes `c` superfluous for `p`: `covers` tells whether
/// a power of `alpha` times their distance is at most that of `c` from `p`.
pub open spec fn is_dominated<D: Fn(Metric, &[u32], &[u32]) -> u32, P: Fn(u32, u32, u32, u32) -> bool>(
    store: &PointStore,
    first: int,
    measure: Measure<D>,
    covers: P,
    alpha: u32,
    p: u32,
    selected: Seq<u32>,
    c: u32,
) -> bool {
    exists|j: int|
        0 <= j < selected.len() && of4(
            covers,
            alpha,
            alpha_power(measure.metric),
            gap(store, first, measure, c, #[trigger] selected[j]),
            gap(store, first, measure, p, c),
        )
}

/// What pruning selects of the first `upto` candidates: one after the other
/// those that no selected one dominates, up to `r`.
pub open spec fn pruned<D: Fn(Metric, &[u32], &[u32]) -> u32, P: Fn(u32, u32, u32, u32) -> bool>(
    store: &PointStore,
    first: int,
    measure: Measure<D>,
    covers: P,
    alpha: u32,
    p: u32,
    order: Seq<u32>,
    r: int,
    upto: int,
) -> Seq<u32>
    decreases upto,
{
    if upto <= 0 {
        Seq::empty()
    } else {
        let before = pruned(store, first, measure, covers, alpha, p, order, r, upto - 1);
        let c = order[upto - 1];
        if before.len() >= r || is_dominated(
            store,
            first,
            measure,
            covers,
            alpha,
            p,
            before,
            c,
        ) {
            before
        } else {
            before.push(c)
        }
    }
}

/// The pruned neighbour list of `p`.
pub open spec fn robustly_pruned<D: Fn(Metric, &[u32], &[u32]) -> u32, P: Fn(u32, u32, u32, u32) -> bool>(
    store: &PointStore,
    first: int,
    measure: Measure<D>,
    covers: P,
    alpha: u32,
    p: u32,
    candidates: Seq<u32>,
    r: int,
) -> Seq<u32> {
    let order = nearest_first(store, first, measure, p, candidates);
    pruned(store, first, measure, covers, alpha, p, order, r, order.len() as int)
}

/// Whether an identifier is listed.
fn has_id(list: &Vec<Scored>, id: u32) -> (found: bool)
    ensures
        found == lists_id(list@, id),
{
    let mut i: usize = 0;
    while i < list.len()
        invariant
            i <= list@.len(),
            forall|j: int| 0 <= j < i ==> (#[trigger] list@[j]).1 != id,
        decreases list@.len() - i,
    {
        if list[i].1 == id {
            return true;
        }
        i = i + 1;
    }
    false
}

/// `done` holds exactly the positions that are flagged.
pub open spec fn flagged(flags: Seq<bool>, done: Seq<u32>) -> bool {
    forall|v: u32| v < flags.len() ==> (#[trigger] flags[v as int] <==> done.contains(v))
}

/// Distance pattern of two positions.
fn measure_gap<D: Fn(Metric, &[u32], &[u32]) -> u32>(
    store: &PointStore,
    first: u32,
    measure: &Measure<D>,
    a: u32,
    b: u32,
) -> (bits: u32)
    requires
        store.wf(),
        first + a < store.len,
        first + b < store.len,
        measure.fits(store.dim as int),
    ensures
        bits == gap(store, first as int, *measure, a, b),
{
    measure.between(store.vector_unchecked(first + a), store.vector_unchecked(first + b))
}

/// The positions that a search for `query` from `entry` expands.
pub fn vamana_search_full<D: Fn(Metric, &[u32], &[u32]) -> u32>(
    store: &PointStore,
    first: u32,
    measure: &Measure<D>,
    graph: &Vec<Vec<u32>>,
    entry: u32,
    query: u32,
    beam: usize,
) -> (done: Vec<u32>)
    requires
        store.wf(),
        lists_fit(rows_of(graph@), graph@.len() as int),
        first + graph@.len() <= store.len,
        entry < graph@.len(),
        query < graph@.len(),
        beam > 0,
        measure.fits(store.dim as int),
    ensures
        done@ == searched(
            store,
            first as int,
            *measure,
            rows_of(graph@),
            entry,
            query,
            beam as int,
        ),
        done@.no_duplicates(),
        forall|i: int| 0 <= i < done@.len() ==> #[trigger] done@[i] < graph@.len(),
{
    let n: usize = graph.len();
    let ghost key = |w: u32| gap_key(store, first as int, *measure, query, w);
    let mut flags: Vec<bool> = Vec::new();
    while flags.len() < n
        invariant
            flags@.len() <= n,
            forall|i: int| 0 <= i < flags@.len() ==> !#[trigger] flags@[i],
        decreases n - flags@.len(),
    {
        flags.push(false);
    }
    let mut done: Vec<u32> = Vec::new();
    let mut list: Vec<Scored> = Vec::new();
    list.push((ord_key(measure_gap(store, first, measure, query, entry)) as u64, entry));
    let ghost goal = expanded(rows_of(graph@), list@, done@, key, beam as int, n as int);
    proof {
        assert(list@ =~= seq![(key(entry), entry)]);
        assert(done@ =~= Seq::<u32>::empty());
    }
    let mut fuel: usize = n;
    loop
        invariant_except_break
            goal == expanded(rows_of(graph@), list@, done@, key, beam as int, fuel as int),
        invariant
            n == graph@.len(),
            n <= u32::MAX,
            store.wf(),
            lists_fit(rows_of(graph@), n as int),
            first + n <= store.len,
            query < n,
            beam > 0,
            measure.fits(store.dim as int),
            key == (|w: u32| gap_key(store, first as int, *measure, query, w)),
            flags@.len() == n,
            flagged(flags@, done@),
            done@.no_duplicates(),
            done@.len() + fuel == n,
            forall|i: int| 0 <= i < done@.len() ==> #[trigger] done@[i] < n,
            sorted(list@),
            list@.len() <= beam,
            ids_below(list@, n as int),
        ensures
            done@ == goal,
        decreases fuel,
    {
        let mut i: usize = 0;
        while i < list.len() && flags[list[i].1 as usize]
            invariant
                i <= list@.len(),
                flags@.len() == n,
                flagged(flags@, done@),
                ids_below(list@, n as int),
                next_open(list@, done@, 0) == next_open(list@, done@, i as int),
            decreases list@.len() - i,
        {
            assert(list@[i as int].1 < n);
            i = i + 1;
        }
        if i >= list.len() {
            break;
        }
        let v: u32 = list[i].1;
        assert(list@[i as int].1 < n);
        assert(!done@.contains(v));
        if fuel == 0 {
            proof {
                all_are_done(done@, n as int, v);
            }
            break;
        }
        let ghost before = list@;
        let ghost prior = done@;
        done.push(v);
        flags.set(v as usize, true);
        proof {
            assert forall|w: u32| w < flags@.len() implies (#[trigger] flags@[w as int] <==> done@.contains(w)) by {
                assert(done@[prior.len() as int] == v);
                if prior.contains(w) {
                    let at = choose|at: int| 0 <= at < prior.len() && prior[at] == w;
                    assert(done@[at] == w);
                }
                if done@.contains(w) && w != v {
                    let at = choose|at: int| 0 <= at < done@.len() && done@[at] == w;
                    assert(prior[at] == w);
                }
            }
            assert(rows_of(graph@)[v as int] == graph@[v as int]@);
            assert(list_fits(rows_of(graph@)[v as int], n as int, v as int));
        }
        let neighbors = &graph[v as usize];
        let mut j: usize = 0;
        while j < neighbors.len()
            invariant
                j <= neighbors@.len(),
                n == graph@.len(),
                n <= u32::MAX,
                store.wf(),
                first + n <= store.len,
                query < n,
                v < n,
                neighbors@ == graph@[v as int]@,
                list_fits(neighbors@, n as int, v as int),
                beam > 0,
                measure.fits(store.dim as int),
                key == (|w: u32| gap_key(store, first as int, *measure, query, w)),
                flags@.len() == n,
                flagged(flags@, done@),
                sorted(list@),
                list@.len() <= beam,
                ids_below(list@, n as int),
                list@ == absorbed(before, done@, neighbors@, key, beam as int, j as int),
            decreases neighbors@.len() - j,
        {
            let w: u32 = neighbors[j];
            assert(neighbors@[j as int] < n);
            if !flags[w as usize] && !has_id(&list, w) {
                let distance: u64 = ord_key(measure_gap(store, first, measure, query, w)) as u64;
                proof {
                    kept_ids(list@, (distance, w), beam as int, n as int);
                }
                keep(&mut list, (distance, w), beam);
            }
            j = j + 1;
        }
        fuel = fuel - 1;
    }
    done
}

/// Where all `n` positions are done, none is left.
proof fn all_are_done(done: Seq<u32>, n: int, v: u32)
    requires
        done.no_duplicates(),
        done.len() == n,
        n <= u32::MAX,
        forall|i: int| 0 <= i < done.len() ==> #[trigger] done[i] < n,
        v < n,
    ensures
        done.contains(v),
{
    let numbers = done.map_values(|p: u32| p as int);
    assert(numbers.no_duplicates());
    numbers.unique_seq_to_set();
    vstd::set_lib::lemma_int_range(0, n);
    assert forall|x: int| numbers.to_set().contains(x) implies vstd::set_lib::set_int_range(0, n).contains(x) by {
        let g = choose|g: int| 0 <= g < numbers.len() && numbers[g] == x;
        assert(done[g] < n);
    }
    vstd::set_lib::lemma_subset_equality(numbers.to_set(), vstd::set_lib::set_int_range(0, n));
    assert(numbers.to_set().contains(v as int));
    let g = choose|g: int| 0 <= g < numbers.len() && numbers[g] == v as int;
    assert(done[g] == v);
}

/// The candidates without `p` are different, and exactly those.
pub proof fn others_are_exact(candidates: Seq<u32>, p: u32, upto: int)
    requires
        0 <= upto <= candidates.len(),
        candidates.no_duplicates(),
    ensures
        others(candidates, p, upto).len() <= upto,
        others(candidates, p, upto).no_duplicates(),
        forall|i: int|
            0 <= i < others(candidates, p, upto).len() ==> {
                &&& #[trigger] others(candidates, p, upto)[i] != p
                &&& exists|j: int| 0 <= j < upto && candidates[j] == others(candidates, p, upto)[i]
            },
    decreases upto,
{
    if upto > 0 {
        others_are_exact(candidates, p, upto - 1);
        let before = others(candidates, p, upto - 1);
        let all = others(candidates, p, upto);
        if candidates[upto - 1] != p {
            assert forall|i: int| 0 <= i < all.len() implies {
                &&& #[trigger] all[i] != p
                &&& exists|j: int| 0 <= j < upto && candidates[j] == all[i]
            } by {
                if i < before.len() {
                    assert(before[i] == all[i]);
                    let j = choose|j: int| 0 <= j < upto - 1 && candidates[j] == before[i];
                    assert(candidates[j] == all[i]);
                } else {
                    assert(candidates[upto - 1] == all[i]);
                }
            }
            assert forall|i: int, j: int| 0 <= i < all.len() && 0 <= j < all.len() && i != j implies all[i]
                != all[j] by {
                if i == before.len() || j == before.len() {
                    let k = if i == before.len() {
                        j
                    } else {
                        i
                    };
                    assert(before[k] == all[k]);
                    let m = choose|m: int| 0 <= m < upto - 1 && candidates[m] == before[k];
                    assert(candidates[m] != candidates[upto - 1]);
                }
            }
        }
    }
}

/// The ordered candidates are different ones of the candidates, without `p`.
pub proof fn nearest_first_is_exact<D: Fn(Metric, &[u32], &[u32]) -> u32>(
    store: &PointStore,
    first: int,
    measure: Measure<D>,
    p: u32,
    candidates: Seq<u32>,
)
    requires
        candidates.no_duplicates(),
        candidates.len() <= u32::MAX,
    ensures
        nearest_first(store, first, measure, p, candidates).no_duplicates(),
        nearest_first(store, first, measure, p, candidates).len() <= candidates.len(),
        forall|i: int|
            0 <= i < nearest_first(store, first, measure, p, candidates).len() ==> candidates.contains(
                #[trigger] nearest_first(store, first, measure, p, candidates)[i],
            ) && nearest_first(store, first, measure, p, candidates)[i] != p,
{
    let rest = others(candidates, p, candidates.len() as int);
    others_are_exact(candidates, p, candidates.len() as int);
    let key = |w: u32| gap_key(store, first, measure, p, w);
    let pairs = ranked(rest, key);
    let all = arranged(pairs);
    let out = nearest_first(store, first, measure, p, candidates);
    arranged_is_sorted(pairs);
    assert(pairs.no_duplicates()) by {
        assert forall|i: int, j: int| 0 <= i < pairs.len() && 0 <= j < pairs.len() && i != j implies pairs[i]
            != pairs[j] by {
            assert(pairs[i].1 == i as u32);
            assert(pairs[j].1 == j as u32);
        }
    }
    pairs.lemma_multiset_has_no_duplicates();
    all.lemma_multiset_has_no_duplicates_conv();
    assert forall|i: int| 0 <= i < all.len() implies (#[trigger] all[i]).1 < rest.len() && all[i]
        == pairs[all[i].1 as int] by {
        assert(all.contains(all[i]));
        arranged_holds(pairs, all[i]);
        let w = choose|w: int| 0 <= w < pairs.len() && pairs[w] == all[i];
        assert(pairs[w].1 == w as u32);
    }
    assert forall|i: int| 0 <= i < out.len() implies candidates.contains(#[trigger] out[i]) && out[i] != p by {
        let at = all[i].1 as int;
        assert(rest[at] != p);
        let j = choose|j: int| 0 <= j < candidates.len() && candidates[j] == rest[at];
        assert(candidates.contains(candidates[j]));
    }
    assert forall|i: int, j: int| 0 <= i < out.len() && 0 <= j < out.len() && i != j implies out[i] != out[j] by {
        let a = all[i].1 as int;
        let b = all[j].1 as int;
        assert(all[i] == pairs[a]);
        assert(all[j] == pairs[b]);
        assert(a != b);
        assert(rest[a] != rest[b]);
    }
}

/// What pruning selects is different ones of the ordered candidates, at most `r`.
pub proof fn pruned_is_within<D: Fn(Metric, &[u32], &[u32]) -> u32, P: Fn(u32, u32, u32, u32) -> bool>(
    store: &PointStore,
    first: int,
    measure: Measure<D>,
    covers: P,
    alpha: u32,
    p: u32,
    order: Seq<u32>,
    r: int,
    upto: int,
)
    requires
        0 <= upto <= order.len(),
        0 <= r,
        order.no_duplicates(),
    ensures
        ({
            let out = pruned(store, first, measure, covers, alpha, p, order, r, upto);
            &&& out.len() <= r
            &&& out.no_duplicates()
            &&& forall|i: int|
                0 <= i < out.len() ==> exists|j: int| 0 <= j < upto && order[j] == #[trigger] out[i]
        }),
    decreases upto,
{
    if upto > 0 {
        pruned_is_within(store, first, measure, covers, alpha, p, order, r, upto - 1);
        let before = pruned(store, first, measure, covers, alpha, p, order, r, upto - 1);
        let out = pruned(store, first, measure, covers, alpha, p, order, r, upto);
        assert forall|i: int| 0 <= i < out.len() implies exists|j: int| 0 <= j < upto && order[j] == #[trigger] out[i] by {
            if i < before.len() {
                let j = choose|j: int| 0 <= j < upto - 1 && order[j] == before[i];
                assert(order[j] == out[i]);
            } else {
                assert(order[upto - 1] == out[i]);
            }
        }
        assert forall|i: int, j: int| 0 <= i < out.len() && 0 <= j < out.len() && i != j implies out[i] != out[j] by {
            if i == before.len() || j == before.len() {
                let k = if i == before.len() {
                    j
                } else {
                    i
                };
                let m = choose|m: int| 0 <= m < upto - 1 && order[m] == before[k];
                assert(order[m] != order[upto - 1]);
            }
        }
    }
}

/// Pruning keeps at most `r` different candidates, never `p`.
pub proof fn pruning_is_bounded<D: Fn(Metric, &[u32], &[u32]) -> u32, P: Fn(u32, u32, u32, u32) -> bool>(
    store: &PointStore,
    first: int,
    measure: Measure<D>,
    covers: P,
    alpha: u32,
    p: u32,
    candidates: Seq<u32>,
    r: int,
    n: int,
)
    requires
        0 <= r,
        n <= u32::MAX,
        candidates.no_duplicates(),
        candidates.len() <= u32::MAX,
        forall|i: int| 0 <= i < candidates.len() ==> #[trigger] candidates[i] < n,
    ensures
        ({
            let out = robustly_pruned(store, first, measure, covers, alpha, p, candidates, r);
            &&& out.len() <= r
            &&& list_fits(out, n, p as int)
            &&& forall|i: int| 0 <= i < out.len() ==> candidates.contains(#[trigger] out[i])
        }),
{
    let order = nearest_first(store, first, measure, p, candidates);
    let out = robustly_pruned(store, first, measure, covers, alpha, p, candidates, r);
    nearest_first_is_exact(store, first, measure, p, candidates);
    pruned_is_within(store, first, measure, covers, alpha, p, order, r, order.len() as int);
    assert forall|i: int| 0 <= i < out.len() implies candidates.contains(#[trigger] out[i]) && out[i] < n
        && out[i] != p by {
        let j = choose|j: int| 0 <= j < order.len() && order[j] == out[i];
        assert(candidates.contains(order[j]) && order[j] != p);
        let w = choose|w: int| 0 <= w < candidates.len() && candidates[w] == out[i];
        assert(candidates[w] < n);
    }
}

/// The candidates by distance from `p`.
fn order_candidates<D: Fn(Metric, &[u32], &[u32]) -> u32>(
    store: &PointStore,
    first: u32,
    measure: &Measure<D>,
    p: u32,
    candidates: &Vec<u32>,
    n: usize,
) -> (order: Vec<u32>)
    requires
        store.wf(),
        first + n <= store.len,
        p < n,
        candidates@.no_duplicates(),
        candidates@.len() <= u32::MAX,
        forall|i: int| 0 <= i < candidates@.len() ==> #[trigger] candidates@[i] < n,
        measure.fits(store.dim as int),
    ensures
        order@ == nearest_first(store, first as int, *measure, p, candidates@),
{
    let ghost key = |w: u32| gap_key(store, first as int, *measure, p, w);
    let mut rest: Vec<u32> = Vec::new();
    let mut pairs: Vec<Scored> = Vec::new();
    let mut i: usize = 0;
    while i < candidates.len()
        invariant
            i <= candidates@.len() <= u32::MAX,
            store.wf(),
            first + n <= store.len,
            p < n,
            measure.fits(store.dim as int),
            forall|j: int| 0 <= j < candidates@.len() ==> #[trigger] candidates@[j] < n,
            key == (|w: u32| gap_key(store, first as int, *measure, p, w)),
            rest@ == others(candidates@, p, i as int),
            rest@.len() <= i,
            pairs@.len() == rest@.len(),
            forall|j: int| 0 <= j < pairs@.len() ==> #[trigger] pairs@[j] == (key(rest@[j]), j as u32),
        decreases candidates@.len() - i,
    {
        let c: u32 = candidates[i];
        assert(candidates@[i as int] < n);
        if c != p {
            let distance: u64 = ord_key(measure_gap(store, first, measure, p, c)) as u64;
            pairs.push((distance, rest.len() as u32));
            rest.push(c);
        }
        i = i + 1;
    }
    assert(pairs@ =~= ranked(rest@, key));
    let sorted_pairs = sorted_copy(pairs.as_slice());
    proof {
        arranged_is_sorted(pairs@);
        assert forall|j: int| 0 <= j < sorted_pairs@.len() implies (#[trigger] sorted_pairs@[j]).1 < rest@.len() by {
            assert(sorted_pairs@.contains(sorted_pairs@[j]));
            arranged_holds(pairs@, sorted_pairs@[j]);
            let w = choose|w: int| 0 <= w < pairs@.len() && pairs@[w] == sorted_pairs@[j];
            assert(pairs@[w].1 == w as u32);
        }
    }
    let mut order: Vec<u32> = Vec::new();
    let mut i: usize = 0;
    while i < sorted_pairs.len()
        invariant
            i <= sorted_pairs@.len(),
            order@.len() == i,
            forall|j: int| 0 <= j < sorted_pairs@.len() ==> (#[trigger] sorted_pairs@[j]).1 < rest@.len(),
            forall|j: int| 0 <= j < i ==> #[trigger] order@[j] == rest@[sorted_pairs@[j].1 as int],
        decreases sorted_pairs@.len() - i,
    {
        assert(sorted_pairs@[i as int].1 < rest@.len());
        order.push(rest[sorted_pairs[i].1 as usize]);
        i = i + 1;
    }
    assert(order@ =~= nearest_first(store, first as int, *measure, p, candidates@));
    order
}

/// How many times the strictness multiplies a distance.
fn count_alpha(metric: Metric) -> (power: u32)
    ensures
        power == alpha_power(metric),
{
    match metric {
        Metric::L2 | Metric::Cosine => 2,
        Metric::InnerProduct => 1,
    }
}

/// Prunes the neighbour candidates of `p`.  `covers` tells, for a strictness,
/// how many times it counts, a distance between two candidates and the distance
/// of one of them from `p`, whether the other makes it superfluous.
pub fn robust_prune<D: Fn(Metric, &[u32], &[u32]) -> u32, P: Fn(u32, u32, u32, u32) -> bool>(
    store: &PointStore,
    first: u32,
    measure: &Measure<D>,
    covers: &P,
    alpha: u32,
    p: u32,
    candidates: &Vec<u32>,
    r: usize,
    n: usize,
) -> (selected: Vec<u32>)
    requires
        store.wf(),
        first + n <= store.len,
        p < n,
        candidates@.no_duplicates(),
        candidates@.len() <= u32::MAX,
        forall|i: int| 0 <= i < candidates@.len() ==> #[trigger] candidates@[i] < n,
        measure.fits(store.dim as int),
        total4(*covers),
    ensures
        selected@ == robustly_pruned(
            store,
            first as int,
            *measure,
            *covers,
            alpha,
            p,
            candidates@,
            r as int,
        ),
        selected@.len() <= r,
        list_fits(selected@, n as int, p as int),
{
    let order = order_candidates(store, first, measure, p, candidates, n);
    proof {
        nearest_first_is_exact(store, first as int, *measure, p, candidates@);
        pruning_is_bounded(
            store,
            first as int,
            *measure,
            *covers,
            alpha,
            p,
            candidates@,
            r as int,
            n as int,
        );
        assert forall|i: int| 0 <= i < order@.len() implies #[trigger] order@[i] < n by {
            assert(candidates@.contains(order@[i]));
        }
    }
    let power: u32 = count_alpha(measure.metric);
    let mut selected: Vec<u32> = Vec::new();
    let mut i: usize = 0;
    while i < order.len()
        invariant
            i <= order@.len(),
            power == alpha_power(measure.metric),
            store.wf(),
            first + n <= store.len,
            p < n,
            measure.fits(store.dim as int),
            total4(*covers),
            forall|j: int| 0 <= j < order@.len() ==> #[trigger] order@[j] < n,
            forall|j: int| 0 <= j < selected@.len() ==> #[trigger] selected@[j] < n,
            selected@ == pruned(
                store,
                first as int,
                *measure,
                *covers,
                alpha,
                p,
                order@,
                r as int,
                i as int,
            ),
        decreases order@.len() - i,
    {
        let c: u32 = order[i];
        assert(order@[i as int] < n);
        if selected.len() < r {
            let near: u32 = measure_gap(store, first, measure, p, c);
            let mut dominated: bool = false;
            let mut j: usize = 0;
            while j < selected.len()
                invariant
                    j <= selected@.len(),
                    power == alpha_power(measure.metric),
                    store.wf(),
                    first + n <= store.len,
                    p < n,
                    c < n,
                    measure.fits(store.dim as int),
                    total4(*covers),
                    near == gap(store, first as int, *measure, p, c),
                    forall|k: int| 0 <= k < selected@.len() ==> #[trigger] selected@[k] < n,
                    dominated == exists|k: int|
                        0 <= k < j && of4(
                            *covers,
                            alpha,
                            power,
                            gap(store, first as int, *measure, c, #[trigger] selected@[k]),
                            near,
                        ),
                decreases selected@.len() - j,
            {
                assert(selected@[j as int] < n);
                let between: u32 = measure_gap(store, first, measure, c, selected[j]);
                if covers(alpha, power, between, near) {
                    dominated = true;
                }
                j = j + 1;
            }
            if !dominated {
                selected.push(c);
            }
        }
        i = i + 1;
    }
    selected
}

/// `base` and then the first `upto` entries of `extra` that are not there yet.
pub open spec fn joined(base: Seq<u32>, extra: Seq<u32>, upto: int) -> Seq<u32>
    decreases upto,
{
    if upto <= 0 {
        base
    } else {
        let before = joined(base, extra, upto - 1);
        if before.contains(extra[upto - 1]) {
            before
        } else {
            before.push(extra[upto - 1])
        }
    }
}

/// The lists after `j` took `i` as a neighbour, pruned if there are more than `r`.
pub open spec fn answered<D: Fn(Metric, &[u32], &[u32]) -> u32, P: Fn(u32, u32, u32, u32) -> bool>(
    store: &PointStore,
    first: int,
    measure: Measure<D>,
    covers: P,
    alpha: u32,
    r: int,
    graph: Seq<Seq<u32>>,
    i: u32,
    j: u32,
) -> Seq<Seq<u32>> {
    if graph[j as int].contains(i) {
        graph
    } else {
        let longer = graph[j as int].push(i);
        graph.update(
            j as int,
            if longer.len() > r {
                robustly_pruned(store, first, measure, covers, alpha, j, longer, r)
            } else {
                longer
            },
        )
    }
}

/// The lists after the first `upto` of `neighbors` took `i` as a neighbour.
pub open spec fn all_answered<D: Fn(Metric, &[u32], &[u32]) -> u32, P: Fn(u32, u32, u32, u32) -> bool>(
    store: &PointStore,
    first: int,
    measure: Measure<D>,
    covers: P,
    alpha: u32,
    r: int,
    graph: Seq<Seq<u32>>,
    i: u32,
    neighbors: Seq<u32>,
    upto: int,
) -> Seq<Seq<u32>>
    decreases upto,
{
    if upto <= 0 {
        graph
    } else {
        answered(
            store,
            first,
            measure,
            covers,
            alpha,
            r,
            all_answered(
                store,
                first,
                measure,
                covers,
                alpha,
                r,
                graph,
                i,
                neighbors,
                upto - 1,
            ),
            i,
            neighbors[upto - 1],
        )
    }
}

/// The lists after `i` was linked anew: it keeps the pruned best of what a
/// search for it expands and of its neighbours so far, and these take it as a
/// neighbour.
pub open spec fn linked<D: Fn(Metric, &[u32], &[u32]) -> u32, P: Fn(u32, u32, u32, u32) -> bool>(
    store: &PointStore,
    first: int,
    measure: Measure<D>,
    covers: P,
    alpha: u32,
    r: int,
    beam: int,
    entry: u32,
    graph: Seq<Seq<u32>>,
    i: u32,
) -> Seq<Seq<u32>> {
    let found = searched(store, first, measure, graph, entry, i, beam);
    let candidates = joined(found, graph[i as int], graph[i as int].len() as int);
    let own = robustly_pruned(store, first, measure, covers, alpha, i, candidates, r);
    all_answered(
        store,
        first,
        measure,
        covers,
        alpha,
        r,
        graph.update(i as int, own),
        i,
        own,
        own.len() as int,
    )
}

/// The lists after the first `upto` positions of `order` were linked anew.
pub open spec fn refined<D: Fn(Metric, &[u32], &[u32]) -> u32, P: Fn(u32, u32, u32, u32) -> bool>(
    store: &PointStore,
    first: int,
    measure: Measure<D>,
    covers: P,
    alpha: u32,
    r: int,
    beam: int,
    entry: u32,
    graph: Seq<Seq<u32>>,
    order: Seq<usize>,
    upto: int,
) -> Seq<Seq<u32>>
    decreases upto,
{
    if upto <= 0 {
        graph
    } else {
        linked(
            store,
            first,
            measure,
            covers,
            alpha,
            r,
            beam,
            entry,
            refined(
                store,
                first,
                measure,
                covers,
                alpha,
                r,
                beam,
                entry,
                graph,
                order,
                upto - 1,
            ),
            order[upto - 1] as u32,
        )
    }
}

/// No list is longer than `r`.
pub open spec fn lists_bounded(graph: Seq<Seq<u32>>, r: int) -> bool {
    forall|i: int| 0 <= i < graph.len() ==> (#[trigger] graph[i]).len() <= r
}

/// Positions other than `i` and not in the list, drawn until there are `r` or
/// `fuel` draws were made, and what the generator then holds.
pub open spec fn drawn_list(state: Seq<u32>, n: int, r: int, i: int, list: Seq<u32>, fuel: nat) -> (Seq<u32>, Seq<u32>)
    decreases fuel,
{
    if list.len() >= r || fuel == 0 {
        (list, state)
    } else {
        let (v, after) = draw(state, n as nat, usize::BITS as nat);
        let longer = if v != i && !list.contains(v as u32) {
            list.push(v as u32)
        } else {
            list
        };
        drawn_list(after, n, r, i, longer, (fuel - 1) as nat)
    }
}

/// A list filled up to `r` entries with the lowest positions from `v` on that
/// are not `i` and not in it.
pub open spec fn filled_list(list: Seq<u32>, n: int, r: int, i: int, v: int) -> Seq<u32>
    decreases n - v,
{
    if list.len() >= r || v >= n {
        list
    } else {
        let longer = if v != i && !list.contains(v as u32) {
            list.push(v as u32)
        } else {
            list
        };
        filled_list(longer, n, r, i, v + 1)
    }
}

/// `r` different random positions other than `i`, and what the generator then
/// holds.  Should the draws keep repeating themselves, the lowest positions
/// fill the list.
pub open spec fn chance_list(state: Seq<u32>, n: int, r: int, i: int) -> (Seq<u32>, Seq<u32>) {
    let (list, after) = drawn_list(state, n, r, i, Seq::empty(), u64::MAX as nat);
    (filled_list(list, n, r, i, 0), after)
}

/// The random lists of the first `upto` positions, and what the generator then
/// holds.
pub open spec fn chance_lists(state: Seq<u32>, n: int, r: int, upto: int) -> (Seq<Seq<u32>>, Seq<u32>)
    decreases upto,
{
    if upto <= 0 {
        (Seq::empty(), state)
    } else {
        let (lists, between) = chance_lists(state, n, r, upto - 1);
        let (list, after) = chance_list(between, n, r, upto - 1);
        (lists.push(list), after)
    }
}

/// Neighbour lists after two passes over lists of `r` random neighbours, in two
/// random orders, the second pass with its own strictness.  `state` is what the
/// generator holds at the start.
pub open spec fn vamana_lists<D: Fn(Metric, &[u32], &[u32]) -> u32, P: Fn(u32, u32, u32, u32) -> bool>(
    store: &PointStore,
    first: int,
    n: int,
    measure: Measure<D>,
    covers: P,
    alpha: u32,
    r: int,
    beam: int,
    entry: u32,
    state: Seq<u32>,
) -> Seq<Seq<u32>> {
    let (start, drawn) = chance_lists(state, n, r, n);
    let one = shuffled(drawn, n as nat);
    let two = shuffled(arrange(drawn, n as nat).1, n as nat);
    refined(
        store,
        first,
        measure,
        covers,
        alpha,
        r,
        beam,
        entry,
        refined(store, first, measure, covers, ONE, r, beam, entry, start, one, n),
        two,
        n,
    )
}

proof fn joined_is_distinct(base: Seq<u32>, extra: Seq<u32>, upto: int, n: int)
    requires
        0 <= upto <= extra.len(),
        base.no_duplicates(),
        forall|i: int| 0 <= i < base.len() ==> #[trigger] base[i] < n,
        forall|i: int| 0 <= i < extra.len() ==> #[trigger] extra[i] < n,
        0 <= n <= u32::MAX,
    ensures
        joined(base, extra, upto).no_duplicates(),
        joined(base, extra, upto).len() <= n,
        forall|i: int| 0 <= i < joined(base, extra, upto).len() ==> #[trigger] joined(base, extra, upto)[i] < n,
    decreases upto,
{
    if upto > 0 {
        joined_is_distinct(base, extra, upto - 1, n);
        let before = joined(base, extra, upto - 1);
        let after = joined(base, extra, upto);
        assert forall|i: int, j: int| 0 <= i < after.len() && 0 <= j < after.len() && i != j implies after[i]
            != after[j] by {
            if after.len() > before.len() {
                if i == before.len() {
                    assert(before.contains(before[j]));
                }
                if j == before.len() {
                    assert(before.contains(before[i]));
                }
            }
        }
    }
    distinct_below(joined(base, extra, upto), n);
}

/// Different numbers below `n` are at most `n`.
pub proof fn distinct_below(list: Seq<u32>, n: int)
    requires
        list.no_duplicates(),
        0 <= n <= u32::MAX,
        forall|i: int| 0 <= i < list.len() ==> #[trigger] list[i] < n,
    ensures
        list.len() <= n,
{
    let numbers = list.map_values(|p: u32| p as int);
    assert(numbers.no_duplicates());
    numbers.unique_seq_to_set();
    vstd::set_lib::lemma_int_range(0, n);
    assert forall|x: int| numbers.to_set().contains(x) implies vstd::set_lib::set_int_range(0, n).contains(x) by {
        let g = choose|g: int| 0 <= g < numbers.len() && numbers[g] == x;
        assert(list[g] < n);
    }
    vstd::set_lib::lemma_len_subset(numbers.to_set(), vstd::set_lib::set_int_range(0, n));
}

/// Lists stay valid and bounded when `j` takes `i` as a neighbour.
pub proof fn answering_keeps_lists<D: Fn(Metric, &[u32], &[u32]) -> u32, P: Fn(u32, u32, u32, u32) -> bool>(
    store: &PointStore,
    first: int,
    measure: Measure<D>,
    covers: P,
    alpha: u32,
    r: int,
    graph: Seq<Seq<u32>>,
    i: u32,
    j: u32,
)
    requires
        lists_fit(graph, graph.len() as int),
        lists_bounded(graph, r),
        graph.len() <= u32::MAX,
        i < graph.len(),
        j < graph.len(),
        i != j,
        0 <= r,
    ensures
        ({
            let after = answered(store, first, measure, covers, alpha, r, graph, i, j);
            lists_fit(after, graph.len() as int) && lists_bounded(after, r)
        }),
{
    let n = graph.len() as int;
    let after = answered(store, first, measure, covers, alpha, r, graph, i, j);
    let list = graph[j as int];
    assert(list_fits(list, n, j as int));
    if !list.contains(i) {
        let longer = list.push(i);
        assert(longer.no_duplicates()) by {
            assert forall|a: int, b: int| 0 <= a < longer.len() && 0 <= b < longer.len() && a != b implies longer[a]
                != longer[b] by {
                if a == list.len() {
                    assert(list.contains(list[b]));
                }
                if b == list.len() {
                    assert(list.contains(list[a]));
                }
            }
        }
        assert forall|a: int| 0 <= a < longer.len() implies #[trigger] longer[a] < n && longer[a] != j by {
            if a < list.len() {
                assert(list[a] < n && list[a] != j);
            }
        }
        distinct_below(longer, n);
        pruning_is_bounded(store, first, measure, covers, alpha, j, longer, r, n);
        assert forall|k: int| 0 <= k < n implies #[trigger] list_fits(after[k], n, k) by {
            if k != j {
                assert(list_fits(graph[k], n, k));
            }
        }
        assert forall|k: int| 0 <= k < after.len() implies (#[trigger] after[k]).len() <= r by {
            if k != j {
                assert(graph[k].len() <= r);
            }
        }
    }
}

/// Lets the neighbours of `i` take it as a neighbour.
fn answer_all<D: Fn(Metric, &[u32], &[u32]) -> u32, P: Fn(u32, u32, u32, u32) -> bool>(
    store: &PointStore,
    first: u32,
    measure: &Measure<D>,
    covers: &P,
    alpha: u32,
    r: usize,
    graph: &mut Vec<Vec<u32>>,
    i: u32,
    neighbors: &Vec<u32>,
)
    requires
        store.wf(),
        first + old(graph)@.len() <= store.len,
        lists_fit(rows_of(old(graph)@), old(graph)@.len() as int),
        lists_bounded(rows_of(old(graph)@), r as int),
        i < old(graph)@.len(),
        list_fits(neighbors@, old(graph)@.len() as int, i as int),
        measure.fits(store.dim as int),
        total4(*covers),
    ensures
        final(graph)@.len() == old(graph)@.len(),
        rows_of(final(graph)@) == all_answered(
            store,
            first as int,
            *measure,
            *covers,
            alpha,
            r as int,
            rows_of(old(graph)@),
            i,
            neighbors@,
            neighbors@.len() as int,
        ),
        lists_fit(rows_of(final(graph)@), old(graph)@.len() as int),
        lists_bounded(rows_of(final(graph)@), r as int),
{
    let n: usize = graph.len();
    let ghost before = rows_of(graph@);
    let mut k: usize = 0;
    while k < neighbors.len()
        invariant
            k <= neighbors@.len(),
            n == graph@.len(),
            store.wf(),
            first + n <= store.len,
            i < n,
            list_fits(neighbors@, n as int, i as int),
            measure.fits(store.dim as int),
            total4(*covers),
            lists_fit(rows_of(graph@), n as int),
            lists_bounded(rows_of(graph@), r as int),
            rows_of(graph@) == all_answered(
                store,
                first as int,
                *measure,
                *covers,
                alpha,
                r as int,
                before,
                i,
                neighbors@,
                k as int,
            ),
        decreases neighbors@.len() - k,
    {
        let j: u32 = neighbors[k];
        assert(neighbors@[k as int] < n && neighbors@[k as int] != i);
        let ghost rows = rows_of(graph@);
        proof {
            assert(rows[j as int] == graph@[j as int]@);
            assert(list_fits(rows[j as int], n as int, j as int));
            answering_keeps_lists(
                store,
                first as int,
                *measure,
                *covers,
                alpha,
                r as int,
                rows,
                i,
                j,
            );
        }
        if !lists(&graph[j as usize], i) {
            let ghost list = graph@[j as int]@;
            graph[j as usize].push(i);
            if graph[j as usize].len() > r {
                proof {
                    let longer = graph@[j as int]@;
                    assert(longer == list.push(i));
                    assert forall|a: int, b: int| 0 <= a < longer.len() && 0 <= b < longer.len() && a != b implies longer[a]
                        != longer[b] by {
                        if a == list.len() {
                            assert(list.contains(list[b]));
                        }
                        if b == list.len() {
                            assert(list.contains(list[a]));
                        }
                    }
                    assert forall|a: int| 0 <= a < longer.len() implies #[trigger] longer[a] < n by {
                        if a < list.len() {
                            assert(list[a] < n);
                        }
                    }
                    distinct_below(longer, n as int);
                }
                let short = robust_prune(
                    store,
                    first,
                    measure,
                    covers,
                    alpha,
                    j,
                    &graph[j as usize],
                    r,
                    n,
                );
                graph.set(j as usize, short);
            }
        }
        assert(rows_of(graph@) =~= answered(
            store,
            first as int,
            *measure,
            *covers,
            alpha,
            r as int,
            rows,
            i,
            j,
        ));
        k = k + 1;
    }
}

fn lists(list: &Vec<u32>, id: u32) -> (found: bool)
    ensures
        found == list@.contains(id),
{
    let mut i: usize = 0;
    while i < list.len()
        invariant
            i <= list@.len(),
            forall|j: int| 0 <= j < i ==> list@[j] != id,
        decreases list@.len() - i,
    {
        if list[i] == id {
            return true;
        }
        i = i + 1;
    }
    false
}

/// Links position `i` anew.
fn link<D: Fn(Metric, &[u32], &[u32]) -> u32, P: Fn(u32, u32, u32, u32) -> bool>(
    store: &PointStore,
    first: u32,
    measure: &Measure<D>,
    covers: &P,
    alpha: u32,
    r: usize,
    beam: usize,
    entry: u32,
    graph: &mut Vec<Vec<u32>>,
    i: u32,
)
    requires
        store.wf(),
        first + old(graph)@.len() <= store.len,
        lists_fit(rows_of(old(graph)@), old(graph)@.len() as int),
        lists_bounded(rows_of(old(graph)@), r as int),
        i < old(graph)@.len(),
        entry < old(graph)@.len(),
        beam > 0,
        measure.fits(store.dim as int),
        total4(*covers),
    ensures
        final(graph)@.len() == old(graph)@.len(),
        rows_of(final(graph)@) == linked(
            store,
            first as int,
            *measure,
            *covers,
            alpha,
            r as int,
            beam as int,
            entry,
            rows_of(old(graph)@),
            i,
        ),
        lists_fit(rows_of(final(graph)@), old(graph)@.len() as int),
        lists_bounded(rows_of(final(graph)@), r as int),
{
    let n: usize = graph.len();
    let ghost rows = rows_of(graph@);
    let mut candidates = vamana_search_full(store, first, measure, graph, entry, i, beam);
    let ghost found = candidates@;
    let ghost own = graph@[i as int]@;
    proof {
        assert(rows[i as int] == own);
        assert(list_fits(rows[i as int], n as int, i as int));
    }
    let mut k: usize = 0;
    while k < graph[i as usize].len()
        invariant
            k <= own.len(),
            i < n,
            n == graph@.len(),
            own == graph@[i as int]@,
            candidates@ == joined(found, own, k as int),
        decreases own.len() - k,
    {
        let w: u32 = graph[i as usize][k];
        if !lists(&candidates, w) {
            candidates.push(w);
        }
        k = k + 1;
    }
    proof {
        joined_is_distinct(found, own, own.len() as int, n as int);
    }
    let list = robust_prune(store, first, measure, covers, alpha, i, &candidates, r, n);
    let mut copy: Vec<u32> = Vec::new();
    copy.extend_from_slice(list.as_slice());
    assert(copy@ =~= list@);
    graph.set(i as usize, copy);
    proof {
        let after = rows_of(graph@);
        assert(after =~= rows.update(i as int, list@));
        assert forall|j: int| 0 <= j < n implies #[trigger] list_fits(after[j], n as int, j) by {
            if j != i {
                assert(list_fits(rows[j], n as int, j));
            }
        }
        assert forall|j: int| 0 <= j < after.len() implies (#[trigger] after[j]).len() <= r by {
            if j != i {
                assert(rows[j].len() <= r);
            }
        }
    }
    answer_all(store, first, measure, covers, alpha, r, graph, i, &list);
}

/// Links all positions anew, in the given order.
pub fn refine<D: Fn(Metric, &[u32], &[u32]) -> u32, P: Fn(u32, u32, u32, u32) -> bool>(
    store: &PointStore,
    first: u32,
    measure: &Measure<D>,
    covers: &P,
    alpha: u32,
    r: usize,
    beam: usize,
    entry: u32,
    graph: &mut Vec<Vec<u32>>,
    order: &Vec<usize>,
)
    requires
        store.wf(),
        first + old(graph)@.len() <= store.len,
        lists_fit(rows_of(old(graph)@), old(graph)@.len() as int),
        lists_bounded(rows_of(old(graph)@), r as int),
        entry < old(graph)@.len(),
        beam > 0,
        forall|i: int| 0 <= i < order@.len() ==> #[trigger] order@[i] < old(graph)@.len(),
        measure.fits(store.dim as int),
        total4(*covers),
    ensures
        final(graph)@.len() == old(graph)@.len(),
        rows_of(final(graph)@) == refined(
            store,
            first as int,
            *measure,
            *covers,
            alpha,
            r as int,
            beam as int,
            entry,
            rows_of(old(graph)@),
            order@,
            order@.len() as int,
        ),
        lists_fit(rows_of(final(graph)@), old(graph)@.len() as int),
        lists_bounded(rows_of(final(graph)@), r as int),
{
    let n: usize = graph.len();
    let ghost before = rows_of(graph@);
    let mut k: usize = 0;
    while k < order.len()
        invariant
            k <= order@.len(),
            n == graph@.len(),
            store.wf(),
            first + n <= store.len,
            entry < n,
            beam > 0,
            forall|i: int| 0 <= i < order@.len() ==> #[trigger] order@[i] < n,
            measure.fits(store.dim as int),
            total4(*covers),
            lists_fit(rows_of(graph@), n as int),
            lists_bounded(rows_of(graph@), r as int),
            rows_of(graph@) == refined(
                store,
                first as int,
                *measure,
                *covers,
                alpha,
                r as int,
                beam as int,
                entry,
                before,
                order@,
                k as int,
            ),
        decreases order@.len() - k,
    {
        assert(order@[k as int] < n);
        let i: u32 = order[k] as u32;
        link(store, first, measure, covers, alpha, r, beam, entry, graph, i);
        k = k + 1;
    }
}

/// A list that lacks nobody but `i` has `n - 1` entries.
proof fn full_list(list: Seq<u32>, n: int, i: int)
    requires
        list_fits(list, n, i),
        0 <= i < n <= u32::MAX,
        forall|v: u32| v < n && v != i ==> #[trigger] list.contains(v),
    ensures
        list.len() >= n - 1,
{
    let all = list.push(i as u32);
    let numbers = all.map_values(|p: u32| p as int);
    assert(numbers.no_duplicates()) by {
        assert forall|a: int, b: int| 0 <= a < numbers.len() && 0 <= b < numbers.len() && a != b implies numbers[a]
            != numbers[b] by {
            if a < list.len() {
                assert(list[a] != i);
            }
            if b < list.len() {
                assert(list[b] != i);
            }
        }
    }
    numbers.unique_seq_to_set();
    vstd::set_lib::lemma_int_range(0, n);
    assert forall|x: int| vstd::set_lib::set_int_range(0, n).contains(x) implies numbers.to_set().contains(x) by {
        if x == i {
            assert(numbers[list.len() as int] == x);
        } else {
            assert(list.contains(x as u32));
            let w = choose|w: int| 0 <= w < list.len() && list[w] == x as u32;
            assert(numbers[w] == x);
        }
    }
    vstd::set_lib::lemma_len_subset(vstd::set_lib::set_int_range(0, n), numbers.to_set());
}

proof fn longer_list_fits(list: Seq<u32>, n: int, i: int, v: u32)
    requires
        list_fits(list, n, i),
        v < n,
        v != i,
        !list.contains(v),
    ensures
        list_fits(list.push(v), n, i),
{
    let longer = list.push(v);
    assert forall|a: int, b: int| 0 <= a < longer.len() && 0 <= b < longer.len() && a != b implies longer[a]
        != longer[b] by {
        if a == list.len() {
            assert(list.contains(list[b]));
        }
        if b == list.len() {
            assert(list.contains(list[a]));
        }
    }
    assert forall|a: int| 0 <= a < longer.len() implies #[trigger] longer[a] < n && longer[a] != i by {
        if a < list.len() {
            assert(list[a] < n && list[a] != i);
        }
    }
}

/// `r` different random positions other than `i`.
fn random_list(rng: &mut StdRng, n: usize, r: usize, i: usize) -> (list: Vec<u32>)
    requires
        i < n <= u32::MAX,
        r < n,
    ensures
        (list@, held(*final(rng))) == chance_list(held(*old(rng)), n as int, r as int, i as int),
        list_fits(list@, n as int, i as int),
        list@.len() == r,
{
    let mut list: Vec<u32> = Vec::new();
    let mut draws: u64 = u64::MAX;
    let ghost expected = drawn_list(
        held(*rng),
        n as int,
        r as int,
        i as int,
        Seq::empty(),
        u64::MAX as nat,
    );
    while list.len() < r && draws > 0
        invariant
            i < n <= u32::MAX,
            list@.len() <= r < n,
            list_fits(list@, n as int, i as int),
            expected == drawn_list(held(*rng), n as int, r as int, i as int, list@, draws as nat),
        decreases draws,
    {
        let v: u32 = draw_below(rng, n) as u32;
        if v as usize != i && !lists(&list, v) {
            proof {
                longer_list_fits(list@, n as int, i as int, v);
            }
            list.push(v);
        }
        draws = draws - 1;
    }
    assert(expected == (list@, held(*rng)));
    let ghost full = filled_list(list@, n as int, r as int, i as int, 0);
    let mut v: u32 = 0;
    while list.len() < r && (v as usize) < n
        invariant
            i < n <= u32::MAX,
            v <= n,
            list@.len() <= r < n,
            list_fits(list@, n as int, i as int),
            forall|w: u32| w < v && w != i ==> #[trigger] list@.contains(w),
            full == filled_list(list@, n as int, r as int, i as int, v as int),
        decreases n - v,
    {
        let ghost before = list@;
        if v as usize != i && !lists(&list, v) {
            proof {
                longer_list_fits(list@, n as int, i as int, v);
            }
            list.push(v);
        }
        proof {
            assert forall|w: u32| w < v + 1 && w != i implies #[trigger] list@.contains(w) by {
                if before.contains(w) {
                    let at = choose|at: int| 0 <= at < before.len() && before[at] == w;
                    assert(list@[at] == w);
                } else {
                    assert(w == v);
                    assert(list@[before.len() as int] == w);
                }
            }
        }
        v = v + 1;
    }
    proof {
        if list@.len() < r {
            full_list(list@, n as int, i as int);
        }
    }
    list
}

/// Neighbour lists of a cell of `n` points from `first` on: two passes of
/// search and pruning over random lists, entering at the point closest to the
/// mean.
pub fn build_vamana_cell<
    D: Fn(Metric, &[u32], &[u32]) -> u32,
    C: Fn(&[u32], usize) -> Vec<u32>,
    P: Fn(u32, u32, u32, u32) -> bool,
>(
    store: &PointStore,
    first: u32,
    n: usize,
    measure: &Measure<D>,
    centroid: &C,
    covers: &P,
    alpha: u32,
    m_local: usize,
    beam_width: usize,
    rng: &mut StdRng,
) -> (graph: Vec<Vec<u32>>)
    requires
        store.wf(),
        n > 0,
        first + n <= store.len,
        beam_width > 0,
        measure.fits(store.dim as int),
        gives_means(*centroid, store.dim),
        total4(*covers),
    ensures
        ({
            let r = if m_local < n {
                m_local as int
            } else {
                n - 1
            };
            &&& lists_fit(rows_of(graph@), n as int)
            &&& lists_bounded(rows_of(graph@), r)
            &&& rows_of(graph@) == vamana_lists(
                store,
                first as int,
                n as int,
                *measure,
                *covers,
                alpha,
                r,
                if beam_width < n {
                    beam_width as int
                } else {
                    n as int
                },
                medoid_of(store, first as int, n as int, *measure, *centroid) as u32,
                held(*old(rng)),
            )
            &&& linked_twice(
                apart(store, first as int, *measure),
                covering(measure.metric, *covers, 0x3f80_0000),
                covering(measure.metric, *covers, alpha),
                r,
                if beam_width < n {
                    beam_width as int
                } else {
                    n as int
                },
                medoid_of(store, first as int, n as int, *measure, *centroid) as u32,
                rows_of(graph@),
            )
        }),
{
    let r: usize = if m_local < n { m_local } else { n - 1 };
    let beam: usize = if beam_width < n { beam_width } else { n };
    let mut graph: Vec<Vec<u32>> = Vec::new();
    while graph.len() < n
        invariant
            graph@.len() <= n <= u32::MAX,
            r < n,
            forall|i: int|
                0 <= i < graph@.len() ==> list_fits((#[trigger] graph@[i])@, n as int, i)
                    && graph@[i]@.len() == r,
            (rows_of(graph@), held(*rng)) == chance_lists(
                held(*old(rng)),
                n as int,
                r as int,
                graph@.len() as int,
            ),
        decreases n - graph@.len(),
    {
        let i: usize = graph.len();
        let ghost before = rows_of(graph@);
        graph.push(random_list(rng, n, r, i));
        assert(rows_of(graph@) =~= before.push(graph@[i as int]@));
    }
    let ghost start = rows_of(graph@);
    proof {
        assert forall|i: int| 0 <= i < n implies #[trigger] list_fits(start[i], n as int, i) by {
            assert(start[i] == graph@[i]@);
        }
        assert forall|i: int| 0 <= i < n implies (#[trigger] start[i]).len() == r by {
            assert(start[i] == graph@[i]@);
        }
    }
    let entry: u32 = find_medoid(store, first, n, measure, centroid);
    let ghost drawn = held(*rng);
    let one = shuffled_prefix(rng, n, n);
    assert(one@ =~= shuffled(drawn, n as nat));
    let ghost between = held(*rng);
    refine(store, first, measure, covers, ONE, r, beam, entry, &mut graph, &one);
    let ghost middle = rows_of(graph@);
    let two = shuffled_prefix(rng, n, n);
    assert(two@ =~= shuffled(between, n as nat));
    refine(store, first, measure, covers, alpha, r, beam, entry, &mut graph, &two);
    proof {
        let (f, w, b) = (first as int, r as int, beam as int);
        passes_relink(store, f, *measure, *covers, ONE, w, b, entry, start, one@);
        passes_relink(store, f, *measure, *covers, alpha, w, b, entry, middle, two@);
        assert(is_shuffled(one@, drawn));
        assert(is_shuffled(two@, between));
    }
    graph
}

} // verus!
