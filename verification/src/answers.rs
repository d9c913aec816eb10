//! What answers say of the points that an index was made from.

use vstd::prelude::*;
use crate::config::PrismConfig;
use crate::crossing::Bridge;
use crate::distance::Metric;
use crate::filter::Filter;
use crate::index::PrismIndex;
use crate::indexing::{is_index_of, is_prepared, laid_out};
use crate::ivf::IvfIndex;
use crate::partition::PartitionTree;
use crate::point::PointStore;
use crate::probe::{best_ids, first_distinct};
use crate::pure::row_for;
use crate::query::{outcome_serves, SearchKernels};
use crate::relayout::spread_is_a_permutation;
use crate::search::{eligible, eligible_points_are_exact, SearchResult};
use crate::select::Scored;
use crate::sparse::SpMat;
use crate::vecstore::{QueryStore, VecStore};

verus! {

/// As many different numbers as there are below `n` are all of them.
proof fn distinct_numbers_are_all(ids: Seq<u32>, id: u32)
    requires
        ids.no_duplicates(),
        forall|i: int| 0 <= i < ids.len() ==> #[trigger] ids[i] < ids.len(),
        id < ids.len(),
    ensures
        ids.contains(id),
{
    let n = ids.len() as int;
    let used = ids.map_values(|x: u32| x as int);
    let all = vstd::set_lib::set_int_range(0, n);
    assert(used.no_duplicates());
    used.unique_seq_to_set();
    vstd::set_lib::lemma_int_range(0, n);
    assert(used.to_set().subset_of(all)) by {
        assert forall|x: int| used.to_set().contains(x) implies all.contains(x) by {
            let i = choose|i: int| 0 <= i < used.len() && used[i] == x;
            assert(ids[i] < n);
        }
    }
    vstd::set_lib::lemma_subset_equality(used.to_set(), all);
    assert(used.to_set().contains(id as int));
    let i = choose|i: int| 0 <= i < used.len() && used[i] == id as int;
    assert(ids[i] == id);
}

/// As many different members of a list as it has are all of them.
proof fn distinct_members_are_all(few: Seq<u32>, all: Seq<u32>, id: u32)
    requires
        few.no_duplicates(),
        all.no_duplicates(),
        few.len() == all.len(),
        forall|i: int| 0 <= i < few.len() ==> all.contains(#[trigger] few[i]),
        all.contains(id),
    ensures
        few.contains(id),
{
    few.unique_seq_to_set();
    all.unique_seq_to_set();
    assert(few.to_set().subset_of(all.to_set())) by {
        assert forall|x: u32| few.to_set().contains(x) implies all.to_set().contains(x) by {
            let i = choose|i: int| 0 <= i < few.len() && few[i] == x;
            assert(all.contains(few[i]));
        }
    }
    vstd::set_lib::lemma_subset_equality(few.to_set(), all.to_set());
    assert(few.to_set().contains(id));
}

/// The identifiers of an index name the points it was built from: each point
/// once, with its attributes and its vector, which for cosine is scaled.  So a
/// filter says the same of a point in the index and of the point it names.
pub proof fn original_ids_name_the_points<
    A: Fn(&[u32]) -> Vec<u32>,
    D: Fn(Metric, &[u32], &[u32]) -> u32,
    C: Fn(&[u32], usize) -> Vec<u32>,
    P: Fn(u32, u32, u32, u32) -> bool,
    Q: Fn(&[u8], &[u8], &[u32]) -> u32,
    W: Fn(u32, usize, u32) -> u32,
    S: Fn(u32, u32) -> u32,
    E: Fn(u32, u32, u32) -> u8,
    F: Fn(&[u32], &[u32], usize) -> Vec<bool>,
    N: Fn(&[u32]) -> u64,
    R: Fn(u64) -> u64,
>(
    index: &PrismIndex,
    store: &PointStore,
    config: &PrismConfig,
    normalize: A,
    distance: D,
    centroid: C,
    covers: P,
    compare: Q,
    score: W,
    step: S,
    encode: E,
    rotate: F,
    squared: N,
    root: R,
)
    requires
        store.wf(),
        is_index_of(
            index,
            store,
            config,
            normalize,
            distance,
            centroid,
            covers,
            compare,
            score,
            step,
            encode,
            rotate,
            squared,
            root,
        ),
    ensures
        index.store.len == store.len,
        index.original_ids@.len() == store.len,
        index.original_ids@.no_duplicates(),
        forall|g: int|
            0 <= g < store.len ==> {
                let p = #[trigger] index.original_ids@[g] as int;
                &&& p < store.len
                &&& index.store.tuple(g) == store.tuple(p)
                &&& index.store.row(g) == if config.metric == Metric::Cosine {
                    row_for(normalize, store.row(p))
                } else {
                    store.row(p)
                }
            },
        forall|filter: &Filter, g: int|
            0 <= g < store.len ==> (#[trigger] filter.passes(&index.store, g) <==> filter.passes(
                store,
                index.original_ids@[g] as int,
            )),
{
    let (prepared, found) = choose|prepared: PointStore, found: PartitionTree|
        is_prepared(store, &prepared, config.metric, normalize) && #[trigger] laid_out(
            &prepared,
            &found,
            index,
        );
    spread_is_a_permutation(&found, &prepared);
    let order = index.original_ids@;
    assert forall|g: int| 0 <= g < store.len implies {
        let p = #[trigger] order[g] as int;
        &&& p < store.len
        &&& index.store.tuple(g) == store.tuple(p)
        &&& index.store.row(g) == if config.metric == Metric::Cosine {
            row_for(normalize, store.row(p))
        } else {
            store.row(p)
        }
    } by {
        let p = order[g] as int;
        assert(index.store.row(g) == prepared.row(p));
        assert(index.store.tuple(g) == prepared.tuple(p));
        assert(prepared.tuple(p) =~= store.tuple(p));
    }
    assert forall|filter: &Filter, g: int| 0 <= g < store.len implies (#[trigger] filter.passes(
        &index.store,
        g,
    ) <==> filter.passes(store, order[g] as int)) by {
        assert(index.store.tuple(g) == store.tuple(order[g] as int));
    }
}

/// Every answer of an index names a different point that passes the filter,
/// and where there are fewer than `k`, every point that passes is among them.
pub proof fn answers_name_passing_points<
    A: Fn(&[u32]) -> Vec<u32>,
    D: Fn(Metric, &[u32], &[u32]) -> u32,
    C: Fn(&[u32], usize) -> Vec<u32>,
    P: Fn(u32, u32, u32, u32) -> bool,
    Q: Fn(&[u8], &[u8], &[u32]) -> u32,
    W: Fn(u32, usize, u32) -> u32,
    S: Fn(u32, u32) -> u32,
    E: Fn(u32, u32, u32) -> u8,
    F: Fn(&[u32], &[u32], usize) -> Vec<bool>,
    N: Fn(&[u32]) -> u64,
    R: Fn(u64) -> u64,
    G: Fn(&[u32], &[u32], u64, u64) -> u32,
    T: Fn(&[u32], &[u8], &[u32], &[u32]) -> u32,
    U: Fn(usize, usize) -> u32,
    X: Fn(u32, u32, u32) -> bool,
    Y: Fn(u32, usize) -> usize,
    Z: Fn(Bridge) -> bool,
>(
    index: &PrismIndex,
    store: &PointStore,
    config: &PrismConfig,
    centroid: C,
    covers: P,
    compare: Q,
    score: W,
    step: S,
    encode: E,
    kernels: &SearchKernels<A, D, G, N, R, T, F, U, X, Y, Z>,
    query: Seq<u32>,
    filter: &Filter,
    k: int,
    results: Seq<SearchResult>,
)
    requires
        store.wf(),
        index.wf(),
        index.tree.cells@.len() <= usize::MAX,
        is_index_of(
            index,
            store,
            config,
            kernels.normalize,
            kernels.measure,
            centroid,
            covers,
            compare,
            score,
            step,
            encode,
            kernels.rotate,
            kernels.squared,
            kernels.root,
        ),
        outcome_serves(index, kernels, query, filter, k, results),
    ensures
        forall|i: int|
            0 <= i < results.len() ==> (#[trigger] results[i]).id < store.len && filter.passes(
                store,
                index.original_ids@[results[i].id as int] as int,
            ),
        forall|i: int, j: int|
            0 <= i < j < results.len() ==> index.original_ids@[(#[trigger] results[i]).id as int]
                != index.original_ids@[(#[trigger] results[j]).id as int],
        forall|p: u32|
            results.len() < k && #[trigger] filter.passes(store, p as int) ==> exists|i: int|
                0 <= i < results.len() && index.original_ids@[(#[trigger] results[i]).id as int] == p,
{
    original_ids_name_the_points(
        index,
        store,
        config,
        kernels.normalize,
        kernels.measure,
        centroid,
        covers,
        compare,
        score,
        step,
        encode,
        kernels.rotate,
        kernels.squared,
        kernels.root,
    );
    let order = index.original_ids@;
    assert forall|i: int| 0 <= i < results.len() implies (#[trigger] results[i]).id < store.len
        && filter.passes(store, order[results[i].id as int] as int) by {
        assert(filter.passes(&index.store, results[i].id as int));
    }
    assert forall|i: int, j: int| 0 <= i < j < results.len() implies order[(#[trigger] results[i]).id as int]
        != order[(#[trigger] results[j]).id as int] by {
        assert(results[i].id < store.len && results[j].id < store.len);
        assert(results[i].id != results[j].id);
    }
    assert forall|p: u32| results.len() < k && #[trigger] filter.passes(store, p as int) implies exists|i: int|
        0 <= i < results.len() && order[(#[trigger] results[i]).id as int] == p by {
        distinct_numbers_are_all(order, p);
        let g = choose|g: int| 0 <= g < order.len() && order[g] == p;
        assert(filter.passes(&index.store, g));
        eligible_points_are_exact(index, filter);
        let all = eligible(&index.tree, filter);
        assert(all.contains(g as u32));
        let ids = results.map_values(|result: SearchResult| result.id);
        assert forall|i: int| 0 <= i < ids.len() implies all.contains(#[trigger] ids[i]) by {
            assert(filter.passes(&index.store, results[i].id as int));
        }
        assert forall|i: int, j: int| 0 <= i < ids.len() && 0 <= j < ids.len() && i != j implies ids[i]
            != ids[j] by {
            if i < j {
                assert(results[i].id != results[j].id);
            } else {
                assert(results[j].id != results[i].id);
            }
        }
        distinct_members_are_all(ids, all, g as u32);
        let i = choose|i: int| 0 <= i < ids.len() && ids[i] == g as u32;
        assert(order[results[i].id as int] == p);
    }
}

/// Row `p` has all of the tags.
pub open spec fn has_all(meta: &SpMat, tags: Seq<usize>, p: int) -> bool {
    forall|i: int|
        0 <= i < tags.len() ==> #[trigger] tags[i] <= i32::MAX && meta.row(p).contains(
            tags[i] as i32,
        )
}

/// Every answer of a clustered index is a different point that was given to
/// it, has all of the tags and lies in a probed cluster.
pub proof fn tagged_answers_have_the_tags<
    M: Fn(&[u32], &[u32]) -> u32,
    R: Fn(&[u32], &[u32], usize) -> Vec<bool>,
>(
    index: &IvfIndex,
    base: &VecStore,
    meta: &SpMat,
    assignments: Seq<u16>,
    queries: &QueryStore,
    q: usize,
    tags: Seq<usize>,
    top_clusters: Seq<usize>,
    k: usize,
    ef: usize,
    n_probe: usize,
    binary_rerank: usize,
    measure: M,
    rotate: R,
)
    requires
        index.wf(),
        index.holds_points(base, meta, assignments, index.original_ids@.len() as int),
    ensures
        ({
            let answer = best_ids(
                index.pool(
                    queries,
                    q,
                    tags,
                    top_clusters,
                    ef,
                    n_probe,
                    binary_rerank,
                    measure,
                    rotate,
                    index.n_clusters as int,
                ),
                k as int,
            );
            &&& answer.len() <= k
            &&& answer.no_duplicates()
            &&& forall|i: int|
                0 <= i < answer.len() ==> {
                    &&& (#[trigger] answer[i]) < index.original_ids@.len()
                    &&& has_all(meta, tags, answer[i] as int)
                    &&& first_distinct(top_clusters, n_probe as int).contains(
                        assignments[answer[i] as int] as usize,
                    )
                }
        }),
{
    index.answers_are_eligible(
        queries,
        q,
        tags,
        top_clusters,
        k,
        ef,
        n_probe,
        binary_rerank,
        measure,
        rotate,
    );
    let count = index.n_clusters as int;
    let pool = index.pool(
        queries,
        q,
        tags,
        top_clusters,
        ef,
        n_probe,
        binary_rerank,
        measure,
        rotate,
        count,
    );
    let answer = best_ids(pool, k as int);
    let probed = first_distinct(top_clusters, n_probe as int);
    let distance = |g: u32| index.distance_to(queries, measure, q, g);
    assert forall|i: int| 0 <= i < answer.len() implies {
        &&& (#[trigger] answer[i]) < index.original_ids@.len()
        &&& has_all(meta, tags, answer[i] as int)
        &&& probed.contains(assignments[answer[i] as int] as usize)
    } by {
        let entry = pool[i];
        assert(answer[i] == entry.1);
        assert(index.eligible(probed, tags, distance, count, entry));
        let (c, l) = choose|c: int, l: u32|
            #[trigger] index.comes_from(probed, tags, distance, count, entry, c, l);
        let g = index.cluster_starts@[c] + l;
        cluster_is_inside(index, c);
        assert(index.in_cluster(c, g));
        assert forall|j: int| 0 <= j < tags.len() implies #[trigger] tags[j] <= i32::MAX && meta.row(
            answer[i] as int,
        ).contains(tags[j] as i32) by {
            assert(index.carries(c, l, tags[j] as u32));
        }
    }
}

/// A cluster lies within the reordered points.
proof fn cluster_is_inside(index: &IvfIndex, c: int)
    requires
        index.wf(),
        0 <= c < index.n_clusters,
    ensures
        0 <= index.cluster_starts@[c] <= index.cluster_starts@[c + 1] <= index.original_ids@.len(),
{
    assert(index.cluster_starts@[c] <= index.cluster_starts@[c + 1]);
    assert(index.cluster_starts@[c + 1] <= index.cluster_starts@[index.n_clusters as int]);
}

/// Without a rerank budget a clustered index misses nothing: a point that has
/// all of the tags and lies in a probed cluster is answered, or there are `k`
/// answers.
pub proof fn tagged_answers_miss_nothing<
    M: Fn(&[u32], &[u32]) -> u32,
    R: Fn(&[u32], &[u32], usize) -> Vec<bool>,
>(
    index: &IvfIndex,
    base: &VecStore,
    meta: &SpMat,
    assignments: Seq<u16>,
    queries: &QueryStore,
    q: usize,
    tags: Seq<usize>,
    top_clusters: Seq<usize>,
    k: usize,
    ef: usize,
    n_probe: usize,
    measure: M,
    rotate: R,
    p: u32,
)
    requires
        index.wf(),
        index.holds_points(base, meta, assignments, index.original_ids@.len() as int),
        k <= ef,
        p < index.original_ids@.len(),
        assignments[p as int] < index.n_clusters,
        has_all(meta, tags, p as int),
        first_distinct(top_clusters, n_probe as int).contains(assignments[p as int] as usize),
    ensures
        ({
            let answer = best_ids(
                index.pool(
                    queries,
                    q,
                    tags,
                    top_clusters,
                    ef,
                    n_probe,
                    0,
                    measure,
                    rotate,
                    index.n_clusters as int,
                ),
                k as int,
            );
            answer.contains(p) || answer.len() == k
        }),
{
    index.answers_are_nearest(queries, q, tags, top_clusters, k, ef, n_probe, measure, rotate);
    let count = index.n_clusters as int;
    let probed = first_distinct(top_clusters, n_probe as int);
    let distance = |g: u32| index.distance_to(queries, measure, q, g);
    distinct_numbers_are_all(index.original_ids@, p);
    let g = choose|g: int| 0 <= g < index.original_ids@.len() && index.original_ids@[g] == p;
    let c = assignments[p as int] as int;
    assert(index.in_cluster(c, g));
    let l = (g - index.cluster_starts@[c]) as u32;
    assert forall|i: int| 0 <= i < tags.len() implies #[trigger] tags[i] <= u32::MAX && index.carries(
        c,
        l,
        tags[i] as u32,
    ) by {
        assert(meta.row(p as int).contains(tags[i] as i32));
    }
    let entry: Scored = (distance(g as u32), p);
    assert(index.comes_from(probed, tags, distance, count, entry, c, l));
    assert(index.eligible(probed, tags, distance, count, entry));
}

} // verus!
