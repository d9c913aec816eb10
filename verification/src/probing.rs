//! Which clusters a query probes and which of their points it measures.

use vstd::multiset::Multiset;
use vstd::prelude::*;
use crate::answers::has_all;
use crate::distance::{byte_distance, code_distance};
use crate::explore::is_beaten;
use crate::ivf::{affinity, places, IvfIndex};
use crate::order::{
    arranged, arranged_holds, arranged_is_sorted, ascending_is_sorted, lowest, sorted, Ranked,
};
use crate::probe::{
    all_are_offered, best_ids, first_distinct, lowest_of_distinct, offered_all_is_distinct,
    rerank_budget,
};
use crate::pure::pair_value;
use crate::select::{identity, offered_all, offered_all_is_nearest, rank_orders_distances, Scored};
use crate::session::{cluster_gap, clusters_near};
use crate::sparse::SpMat;
use crate::vecstore::{row_of, QueryStore, VecStore};
use crate::walk::ids_distinct;

verus! {

/// Cluster `c` is probed: where it is named, fewer than `n_probe` different
/// clusters are named before.
pub open spec fn is_probed(top_clusters: Seq<usize>, n_probe: int, c: usize) -> bool {
    exists|i: int|
        0 <= i < top_clusters.len() && #[trigger] top_clusters[i] == c && top_clusters.take(
            i,
        ).to_set().len() < n_probe
}

proof fn sets_grow(entries: Seq<usize>)
    requires
        entries.len() > 0,
    ensures
        entries.to_set() == entries.drop_last().to_set().insert(entries.last()),
        entries.to_set().finite(),
        entries.drop_last().to_set().finite(),
{
    let front = entries.drop_last();
    vstd::seq_lib::seq_to_set_is_finite(entries);
    vstd::seq_lib::seq_to_set_is_finite(front);
    assert forall|c: usize| entries.contains(c) <==> front.contains(c) || c == entries.last() by {
        if entries.contains(c) {
            let i = choose|i: int| 0 <= i < entries.len() && entries[i] == c;
            if i < front.len() {
                assert(front[i] == c);
            }
        }
        if front.contains(c) {
            let i = choose|i: int| 0 <= i < front.len() && front[i] == c;
            assert(entries[i] == c);
        }
        assert(entries[entries.len() - 1] == entries.last());
    }
    assert(entries.to_set() =~= front.to_set().insert(entries.last()));
}

/// The probed clusters are those that are named first: as many different ones
/// as asked for, or all.  With a cluster every one is probed that is named
/// earlier.
pub proof fn probes_go_by_rank(top_clusters: Seq<usize>, n_probe: int)
    requires
        0 <= n_probe,
    ensures
        ({
            let probed = first_distinct(top_clusters, n_probe);
            let named = top_clusters.to_set().len();
            &&& probed.no_duplicates()
            &&& probed.len() == if n_probe < named {
                n_probe
            } else {
                named as int
            }
            &&& forall|c: usize| #[trigger]
                probed.contains(c) <==> is_probed(top_clusters, n_probe, c)
            &&& forall|i: int, j: int|
                0 <= i < j < top_clusters.len() && probed.contains(#[trigger] top_clusters[j])
                    && !top_clusters.take(j).contains(top_clusters[j]) ==> probed.contains(
                    #[trigger] top_clusters[i],
                )
            &&& n_probe == 1 && top_clusters.len() > 0 ==> probed =~= seq![top_clusters[0]]
        }),
    decreases top_clusters.len(),
{
    let probed = first_distinct(top_clusters, n_probe);
    let named = top_clusters.to_set();
    if top_clusters.len() == 0 {
        assert(named =~= Set::empty());
    } else {
        let front = top_clusters.drop_last();
        let last = top_clusters.last();
        let end = top_clusters.len() - 1;
        probes_go_by_rank(front, n_probe);
        sets_grow(top_clusters);
        let before = first_distinct(front, n_probe);
        let few = front.to_set();
        assert(top_clusters.take(end) =~= front);
        assert forall|c: usize| #[trigger] probed.contains(c) <==> before.contains(c) || (few.len()
            < n_probe && c == last) by {
            if probed.contains(c) {
                let i = choose|i: int| 0 <= i < probed.len() && probed[i] == c;
                if i < before.len() {
                    assert(before[i] == c);
                }
            }
            if before.contains(c) {
                let i = choose|i: int| 0 <= i < before.len() && before[i] == c;
                assert(probed[i] == c);
            } else if few.len() < n_probe && c == last {
                assert(probed[probed.len() - 1] == c);
            }
        }
        assert(few.len() < n_probe ==> (before.contains(last) <==> few.contains(last))) by {
            if few.len() < n_probe {
                if few.contains(last) {
                    assert(front.contains(last));
                    let i = choose|i: int| 0 <= i < front.len() && front[i] == last;
                    shorter_names_fewer(front, i);
                    assert(is_probed(front, n_probe, last));
                }
                if before.contains(last) {
                    assert(is_probed(front, n_probe, last));
                }
            }
        }
        if probed.len() > before.len() {
            assert forall|i: int, j: int| 0 <= i < probed.len() && 0 <= j < probed.len() && i != j implies probed[i]
                != probed[j] by {
                if i == before.len() {
                    assert(before.contains(before[j]));
                }
                if j == before.len() {
                    assert(before.contains(before[i]));
                }
            }
        }
        assert forall|c: usize| #[trigger] probed.contains(c) <==> is_probed(
            top_clusters,
            n_probe,
            c,
        ) by {
            if is_probed(front, n_probe, c) {
                let i = choose|i: int|
                    0 <= i < front.len() && #[trigger] front[i] == c && front.take(i).to_set().len()
                        < n_probe;
                assert(top_clusters[i] == c);
                assert(top_clusters.take(i) =~= front.take(i));
            }
            if is_probed(top_clusters, n_probe, c) {
                let i = choose|i: int|
                    0 <= i < top_clusters.len() && #[trigger] top_clusters[i] == c
                        && top_clusters.take(i).to_set().len() < n_probe;
                if i < end {
                    assert(front[i] == c);
                    assert(top_clusters.take(i) =~= front.take(i));
                    assert(is_probed(front, n_probe, c));
                }
            }
            if few.len() < n_probe && c == last {
                assert(top_clusters[end] == c);
            }
        }
        assert forall|i: int, j: int|
            0 <= i < j < top_clusters.len() && probed.contains(#[trigger] top_clusters[j])
                && !top_clusters.take(j).contains(top_clusters[j]) implies probed.contains(
            #[trigger] top_clusters[i],
        ) by {
            let c = top_clusters[j];
            assert(is_probed(top_clusters, n_probe, c));
            let m = choose|m: int|
                0 <= m < top_clusters.len() && #[trigger] top_clusters[m] == c && top_clusters.take(
                    m,
                ).to_set().len() < n_probe;
            if m < j {
                assert(top_clusters.take(j)[m] == c);
            }
            shorter_names_fewer(top_clusters.take(m), i);
            assert(top_clusters.take(m).take(i) =~= top_clusters.take(i));
            assert(is_probed(top_clusters, n_probe, top_clusters[i]));
        }
        if n_probe == 1 {
            assert(top_clusters.take(0).to_set() =~= Set::empty());
            assert(is_probed(top_clusters, 1, top_clusters[0]));
            assert(probed.contains(top_clusters[0]));
        }
    }
}

proof fn shorter_names_fewer(entries: Seq<usize>, i: int)
    requires
        0 <= i <= entries.len(),
    ensures
        entries.take(i).to_set().len() <= entries.to_set().len(),
{
    vstd::seq_lib::seq_to_set_is_finite(entries);
    let few = entries.take(i);
    assert forall|c: usize| #[trigger] few.to_set().contains(c) implies entries.to_set().contains(c) by {
        let j = choose|j: int| 0 <= j < few.len() && few[j] == c;
        assert(entries[j] == c);
    }
    vstd::set_lib::lemma_len_subset(few.to_set(), entries.to_set());
}

/// The positions of cluster `c` that are measured: they have the tags, and one
/// that has them and is left out has as many others before it as the budget
/// allows, none of whose sketches differs more from the query's.
pub open spec fn well_picked(
    index: &IvfIndex,
    c: int,
    tags: Seq<usize>,
    code: Seq<u64>,
    budget: int,
    chosen: Seq<u32>,
) -> bool {
    let start = index.cluster_starts@[c] as int;
    &&& chosen.no_duplicates()
    &&& forall|i: int|
        0 <= i < chosen.len() ==> #[trigger] chosen[i] < index.cluster_size(c) && index.has_tags(
            c,
            tags,
            chosen[i] as int,
        )
    &&& forall|l: u32|
        l < index.cluster_size(c) && index.has_tags(c, tags, l as int) && !(
        #[trigger] chosen.contains(l)) ==> 0 < budget == chosen.len() && forall|i: int|
            0 <= i < chosen.len() ==> code_distance(
                code,
                index.binary.code_of(start + #[trigger] chosen[i]),
            ) <= code_distance(code, index.binary.code_of(start + l))
}

/// Cluster `c` was searched: its measured points are among the best, or as many
/// as asked for are, none of them farther away.
pub open spec fn is_served(
    index: &IvfIndex,
    c: int,
    tags: Seq<usize>,
    code: Seq<u64>,
    budget: int,
    distance: spec_fn(u32) -> u64,
    width: int,
    best: Seq<Scored>,
) -> bool {
    exists|chosen: Seq<u32>| #[trigger]
        well_picked(index, c, tags, code, budget, chosen) && forall|i: int|
            0 <= i < chosen.len() ==> {
                let g = index.cluster_starts@[c] + #[trigger] chosen[i];
                best.contains((distance(g as u32), index.original_ids@[g])) || is_beaten(
                    best,
                    width,
                    distance(g as u32),
                )
            }
}

/// The positions that are scored exactly.
proof fn picking_picks_well(
    index: &IvfIndex,
    c: int,
    tags: Seq<usize>,
    code: Seq<u64>,
    binary_rerank: int,
    width: int,
)
    requires
        index.wf(),
        0 <= c < index.n_clusters,
        0 <= binary_rerank,
        0 <= width,
    ensures
        well_picked(
            index,
            c,
            tags,
            code,
            binary_rerank * width,
            index.rescored(c, tags, code, rerank_budget(binary_rerank, width)),
        ),
{
    assert(0 <= binary_rerank * width) by (nonlinear_arith)
        requires
            0 <= binary_rerank,
            0 <= width,
    ;
    let budget = rerank_budget(binary_rerank, width);
    let size = index.cluster_size(c);
    let start = index.cluster_starts@[c] as int;
    let chosen = index.rescored(c, tags, code, budget);
    index.cluster_fits(c);
    index.rescored_matches(c, tags, code, budget);
    let all = index.matching(c, tags, size);
    index.matching_is_exact(c, tags, size);
    ascending_is_sorted(all);
    if 0 < budget < all.len() {
        let scores = index.sketch_scores(c, all, code);
        lowest_of_distinct(scores, budget);
        let low = lowest(scores, budget);
        let order = arranged(scores);
        arranged_is_sorted(scores);
        assert forall|l: u32|
            l < size && index.has_tags(c, tags, l as int) && !(#[trigger] chosen.contains(l)) implies 0
            < binary_rerank * width == chosen.len() && forall|i: int|
            0 <= i < chosen.len() ==> code_distance(
                code,
                index.binary.code_of(start + #[trigger] chosen[i]),
            ) <= code_distance(code, index.binary.code_of(start + l)) by {
            assert(all.contains(l));
            let w = choose|w: int| 0 <= w < all.len() && all[w] == l;
            arranged_holds(scores, scores[w]);
            assert(scores.contains(scores[w]));
            let m = choose|m: int| 0 <= m < order.len() && order[m] == scores[w];
            if m < budget {
                assert(low[m] == order[m]);
                assert(chosen[m] == l);
            }
            assert forall|i: int| 0 <= i < chosen.len() implies code_distance(
                code,
                index.binary.code_of(start + #[trigger] chosen[i]),
            ) <= code_distance(code, index.binary.code_of(start + l)) by {
                assert(low[i] == order[i]);
                assert(order[i].rank() <= order[m].rank());
                rank_orders_distances(order[i], order[m]);
                let v = choose|v: int| 0 <= v < scores.len() && scores[v] == low[i];
                assert(scores.contains(low[i]));
            }
        }
    } else {
        assert forall|l: u32| l < size && index.has_tags(c, tags, l as int) implies #[trigger] chosen.contains(
            l,
        ) by {
            assert(all.contains(l));
        }
    }
}

/// The candidates hold what was picked of every probed cluster.
proof fn candidates_hold_picks(
    index: &IvfIndex,
    probed: Seq<usize>,
    tags: Seq<usize>,
    code: Seq<u64>,
    budget: int,
    distance: spec_fn(u32) -> u64,
    upto: int,
    c: int,
    i: int,
)
    requires
        0 <= c < upto <= index.n_clusters,
        probed.contains(c as usize),
        0 <= i < index.rescored(c, tags, code, budget).len(),
    ensures
        ({
            let g = index.cluster_starts@[c] + index.rescored(c, tags, code, budget)[i];
            index.candidates(probed, tags, code, budget, distance, upto).contains(
                (distance(g as u32), index.original_ids@[g]),
            )
        }),
    decreases upto,
{
    let g = index.cluster_starts@[c] + index.rescored(c, tags, code, budget)[i];
    let entry = (distance(g as u32), index.original_ids@[g]);
    let all = index.candidates(probed, tags, code, budget, distance, upto);
    let before = index.candidates(probed, tags, code, budget, distance, upto - 1);
    if c < upto - 1 {
        candidates_hold_picks(index, probed, tags, code, budget, distance, upto - 1, c, i);
        let w = choose|w: int| 0 <= w < before.len() && before[w] == entry;
        assert(all[w] == entry);
    } else {
        let here = index.measured(c, index.rescored(c, tags, code, budget), distance);
        assert(here[i] == entry);
        assert(all[before.len() + i] == entry);
    }
}

/// What a clustered index answers: every probed cluster was searched, the best
/// of what was measured are kept, and the nearest `k` of these are answered,
/// nearest first.
pub proof fn tagged_answers_are_the_best<
    M: Fn(&[u32], &[u32]) -> u32,
    R: Fn(&[u32], &[u32], usize) -> Vec<bool>,
>(
    index: &IvfIndex,
    queries: &QueryStore,
    q: usize,
    tags: Seq<usize>,
    top_clusters: Seq<usize>,
    k: usize,
    width: usize,
    n_probe: usize,
    binary_rerank: usize,
    measure: M,
    rotate: R,
    answer: Seq<u32>,
) -> (best: Seq<Scored>)
    requires
        index.wf(),
        answer == best_ids(
            index.pool(
                queries,
                q,
                tags,
                top_clusters,
                width,
                n_probe,
                binary_rerank,
                measure,
                rotate,
                index.n_clusters as int,
            ),
            k as int,
        ),
    ensures
        ({
            let distance = |g: u32| index.distance_to(queries, measure, q, g);
            let code = index.sketch_of(queries, rotate, q, binary_rerank);
            &&& sorted(best)
            &&& ids_distinct(best)
            &&& best.len() <= width
            &&& forall|i: int|
                0 <= i < best.len() ==> is_candidate(
                    index,
                    tags,
                    top_clusters,
                    n_probe as int,
                    distance,
                    #[trigger] best[i],
                )
            &&& forall|c: int|
                0 <= c < index.n_clusters && #[trigger] is_probed(
                    top_clusters,
                    n_probe as int,
                    c as usize,
                ) ==> is_served(
                    index,
                    c,
                    tags,
                    code,
                    binary_rerank * width,
                    distance,
                    width as int,
                    best,
                )
            &&& answer.len() == if k < best.len() {
                k as int
            } else {
                best.len() as int
            }
            &&& forall|i: int| 0 <= i < answer.len() ==> #[trigger] answer[i] == best[i].1
        }),
{
    let distance = |g: u32| index.distance_to(queries, measure, q, g);
    let code = index.sketch_of(queries, rotate, q, binary_rerank);
    let probed = first_distinct(top_clusters, n_probe as int);
    let budget = rerank_budget(binary_rerank as int, width as int);
    let count = index.n_clusters as int;
    let all = index.candidates(probed, tags, code, budget, distance, count);
    let best = offered_all(Seq::empty(), all, width as int);
    probes_go_by_rank(top_clusters, n_probe as int);
    index.candidates_are_eligible(probed, tags, code, budget, distance, count);
    offered_all_is_nearest(all, width as int);
    offered_all_is_distinct(all, width as int);
    assert forall|i: int| 0 <= i < best.len() implies is_candidate(
        index,
        tags,
        top_clusters,
        n_probe as int,
        distance,
        #[trigger] best[i],
    ) by {
        assert(best.contains(best[i]));
        let w = choose|w: int| 0 <= w < all.len() && all[w] == best[i];
        assert(index.eligible(probed, tags, distance, count, all[w]));
        let (c, l) = choose|c: int, l: u32| #[trigger]
            index.comes_from(probed, tags, distance, count, all[w], c, l);
        assert(probed.contains(c as usize));
        assert(is_candidate_at(index, tags, distance, best[i], c, l));
    }
    assert forall|c: int|
        0 <= c < count && #[trigger] is_probed(top_clusters, n_probe as int, c as usize) implies is_served(
        index,
        c,
        tags,
        code,
        binary_rerank * width,
        distance,
        width as int,
        best,
    ) by {
        assert(probed.contains(c as usize));
        picking_picks_well(index, c, tags, code, binary_rerank as int, width as int);
        let chosen = index.rescored(c, tags, code, budget);
        assert(well_picked(index, c, tags, code, binary_rerank * width, chosen));
        assert forall|i: int| 0 <= i < chosen.len() implies {
            let g = index.cluster_starts@[c] + #[trigger] chosen[i];
            best.contains((distance(g as u32), index.original_ids@[g])) || is_beaten(
                best,
                width as int,
                distance(g as u32),
            )
        } by {
            let g = index.cluster_starts@[c] + chosen[i];
            let entry = (distance(g as u32), index.original_ids@[g]);
            candidates_hold_picks(index, probed, tags, code, budget, distance, count, c, i);
            if !best.contains(entry) {
                if all.len() < width {
                    all_are_offered(all, width as int);
                }
                assert forall|m: int| 0 <= m < best.len() implies (#[trigger] best[m]).0 <= entry.0 by {
                    assert(identity(entry) == entry);
                }
            }
        }
    }
    best
}

/// `entry` is the point at position `l` of cluster `c`, has the tags and is as
/// far away as it says.
pub open spec fn is_candidate_at(
    index: &IvfIndex,
    tags: Seq<usize>,
    distance: spec_fn(u32) -> u64,
    entry: Scored,
    c: int,
    l: u32,
) -> bool {
    let g = index.cluster_starts@[c] + l;
    &&& 0 <= c < index.n_clusters
    &&& l < index.cluster_size(c)
    &&& index.has_tags(c, tags, l as int)
    &&& entry == (distance(g as u32), index.original_ids@[g])
}

/// `entry` is a point with the tags in a probed cluster.
pub open spec fn is_candidate(
    index: &IvfIndex,
    tags: Seq<usize>,
    top_clusters: Seq<usize>,
    n_probe: int,
    distance: spec_fn(u32) -> u64,
    entry: Scored,
) -> bool {
    exists|c: int, l: u32| #[trigger]
        is_candidate_at(index, tags, distance, entry, c, l) && is_probed(
            top_clusters,
            n_probe,
            c as usize,
        )
}

/// A query that probes a single cluster gets points of the cluster that is
/// named first.
pub proof fn single_probes_stay_in_one_cluster<
    M: Fn(&[u32], &[u32]) -> u32,
    R: Fn(&[u32], &[u32], usize) -> Vec<bool>,
>(
    index: &IvfIndex,
    base: &VecStore,
    meta: &SpMat,
    assignments: Seq<u16>,
    queries: &QueryStore,
    q: usize,
    tags: Seq<usize>,
    top_clusters: Seq<usize>,
    k: usize,
    width: usize,
    binary_rerank: usize,
    measure: M,
    rotate: R,
    answer: Seq<u32>,
)
    requires
        index.wf(),
        index.holds_points(base, meta, assignments, index.original_ids@.len() as int),
        answer == best_ids(
            index.pool(
                queries,
                q,
                tags,
                top_clusters,
                width,
                1,
                binary_rerank,
                measure,
                rotate,
                index.n_clusters as int,
            ),
            k as int,
        ),
    ensures
        answer.len() > 0 ==> top_clusters.len() > 0,
        forall|i: int|
            0 <= i < answer.len() ==> lies_in(
                assignments,
                #[trigger] answer[i],
                top_clusters[0],
            ) && has_all(meta, tags, answer[i] as int),
{
    crate::answers::tagged_answers_have_the_tags(
        index,
        base,
        meta,
        assignments,
        queries,
        q,
        tags,
        top_clusters,
        k,
        width,
        1,
        binary_rerank,
        measure,
        rotate,
    );
    probes_go_by_rank(top_clusters, 1);
    let probed = first_distinct(top_clusters, 1);
    assert forall|i: int| 0 <= i < answer.len() implies top_clusters.len() > 0 && lies_in(
        assignments,
        #[trigger] answer[i],
        top_clusters[0],
    ) && has_all(meta, tags, answer[i] as int) by {
        let c = assignments[answer[i] as int] as usize;
        assert(probed.contains(c));
        let j = choose|j: int| 0 <= j < probed.len() && probed[j] == c;
        assert(top_clusters.len() > 0);
        assert(probed =~= seq![top_clusters[0]]);
        assert(probed[j] == top_clusters[0]);
    }
    if answer.len() > 0 {
        assert(has_all(meta, tags, answer[0] as int));
    }
}

/// Point `p` was assigned to cluster `c`.
pub open spec fn lies_in(assignments: Seq<u16>, p: u32, c: usize) -> bool {
    assignments[p as int] == c
}

/// The clusters that a query names first are those whose centres are nearest,
/// nearest first.
pub proof fn named_clusters_are_nearest<M: Fn(&[u32], &[u32]) -> u32>(
    queries: &VecStore,
    centroids: &VecStore,
    dim: int,
    measure: M,
    q: int,
    candidates: Seq<u16>,
    nprobe: int,
)
    requires
        candidates.no_duplicates(),
        0 <= nprobe,
    ensures
        ({
            let named = clusters_near(queries, centroids, dim, measure, q, candidates, nprobe);
            let away = |c: int|
                if queries is U8 {
                    byte_distance(
                        row_of(queries.bytes(), q, dim),
                        row_of(centroids.bytes(), c, dim),
                    )
                } else {
                    pair_value(
                        measure,
                        row_of(queries.patterns(), q, dim),
                        row_of(centroids.patterns(), c, dim),
                    ) as u64
                };
            &&& named.len() == if nprobe < candidates.len() {
                nprobe
            } else {
                candidates.len() as int
            }
            &&& named.no_duplicates()
            &&& forall|i: int|
                0 <= i < named.len() ==> #[trigger] named[i] <= u16::MAX && candidates.contains(
                    named[i] as u16,
                )
            &&& forall|i: int, j: int|
                0 <= i <= j < named.len() ==> away(#[trigger] named[i] as int) <= away(
                    #[trigger] named[j] as int,
                )
            &&& forall|c: u16, i: int|
                #![trigger candidates.contains(c), named[i]]
                candidates.contains(c) && !named.contains(c as usize) && 0 <= i < named.len()
                    ==> away(named[i] as int) <= away(c as int)
        }),
{
    let away = |c: int| cluster_gap(queries, centroids, dim, measure, q, c);
    let scores = candidates.map_values(|c: u16| (away(c as int), c as u32));
    assert(scores =~= candidates.map_values(
        |c: u16| (cluster_gap(queries, centroids, dim, measure, q, c as int), c as u32),
    ));
    let order = arranged(scores);
    let low = lowest(scores, nprobe);
    let named = clusters_near(queries, centroids, dim, measure, q, candidates, nprobe);
    arranged_is_sorted(scores);
    assert forall|i: int| 0 <= i < low.len() implies #[trigger] low[i] == order[i] by {}
    assert(scores.no_duplicates()) by {
        assert forall|i: int, j: int| 0 <= i < scores.len() && 0 <= j < scores.len() && i != j implies scores[i]
            != scores[j] by {
            assert(candidates[i] != candidates[j]);
        }
    }
    scores.lemma_multiset_has_no_duplicates();
    order.lemma_multiset_has_no_duplicates_conv();
    assert forall|i: int| 0 <= i < order.len() implies (#[trigger] order[i]).1 <= u16::MAX
        && candidates.contains(order[i].1 as u16) && order[i].0 == away(order[i].1 as int) by {
        arranged_holds(scores, order[i]);
        assert(order.contains(order[i]));
        let j = choose|j: int| 0 <= j < scores.len() && scores[j] == order[i];
        assert(candidates[j] == order[i].1 as u16);
    }
    assert forall|i: int| 0 <= i < named.len() implies #[trigger] named[i] <= u16::MAX
        && candidates.contains(named[i] as u16) && named[i] == order[i].1 && order[i].0 == away(
        named[i] as int,
    ) by {
        assert(low[i] == order[i]);
    }
    assert forall|i: int, j: int| 0 <= i < named.len() && 0 <= j < named.len() && i != j implies named[i]
        != named[j] by {
        assert(order[i] != order[j]);
        assert(order[i].0 == away(named[i] as int) && order[j].0 == away(named[j] as int));
    }
    assert forall|i: int, j: int| 0 <= i <= j < named.len() implies away(#[trigger] named[i] as int)
        <= away(#[trigger] named[j] as int) by {
        assert(order[i].rank() <= order[j].rank());
        rank_orders_distances(order[i], order[j]);
    }
    assert forall|c: u16, i: int|
        #![trigger candidates.contains(c), named[i]]
        candidates.contains(c) && !named.contains(c as usize) && 0 <= i < named.len() implies away(
        named[i] as int,
    ) <= away(c as int) by {
        let j = choose|j: int| 0 <= j < candidates.len() && candidates[j] == c;
        arranged_holds(scores, scores[j]);
        assert(scores.contains(scores[j]));
        let m = choose|m: int| 0 <= m < order.len() && order[m] == scores[j];
        if m < named.len() {
            assert(named[m] == c as usize);
        }
        assert(order[i].rank() <= order[m].rank());
        rank_orders_distances(order[i], order[m]);
        assert(order[i].0 == away(named[i] as int));
    }
}

/// `t` is the tag of the row that occurs most often, the last one of several.
pub open spec fn is_commonest(counts: Multiset<i32>, row: Seq<i32>, t: u32) -> bool {
    if row.len() == 0 {
        t == u32::MAX
    } else {
        exists|i: int|
            0 <= i < row.len() && t == #[trigger] row[i] && (forall|j: int|
                0 <= j < row.len() ==> counts.count(#[trigger] row[j]) <= counts.count(row[i]))
                && (forall|j: int|
                i < j < row.len() ==> counts.count(#[trigger] row[j]) < counts.count(row[i]))
    }
}

proof fn affinity_is_commonest(counts: Multiset<i32>, row: Seq<i32>)
    requires
        forall|i: int| 0 <= i < row.len() ==> 0 <= #[trigger] row[i],
    ensures
        is_commonest(counts, row, affinity(counts, row)),
    decreases row.len(),
{
    reveal_with_fuel(affinity, 2);
    if row.len() == 1 {
        assert(row[0] as u32 == row[0]);
    } else if row.len() > 1 {
        let few = row.drop_last();
        let last = row.len() - 1;
        assert forall|i: int| 0 <= i < few.len() implies 0 <= #[trigger] few[i] by {
            assert(row[i] == few[i]);
        }
        affinity_is_commonest(counts, few);
        let best = affinity(counts, few);
        let i = choose|i: int|
            0 <= i < few.len() && best == #[trigger] few[i] && (forall|j: int|
                0 <= j < few.len() ==> counts.count(#[trigger] few[j]) <= counts.count(few[i]))
                && (forall|j: int|
                i < j < few.len() ==> counts.count(#[trigger] few[j]) < counts.count(few[i]));
        assert(best as i32 == few[i]);
        assert forall|j: int| 0 <= j < last implies #[trigger] row[j] == few[j] by {}
        if counts.count(row.last()) >= counts.count(best as i32) {
            assert(row[last] as u32 == row[last]);
            assert forall|j: int| 0 <= j < row.len() implies counts.count(#[trigger] row[j])
                <= counts.count(row[last]) by {
                if j < last {
                    assert(counts.count(few[j]) <= counts.count(few[i]));
                }
            }
        } else {
            assert(row[i] == best);
            assert forall|j: int| 0 <= j < row.len() implies counts.count(#[trigger] row[j])
                <= counts.count(row[i]) by {
                if j < last {
                    assert(counts.count(few[j]) <= counts.count(few[i]));
                }
            }
            assert forall|j: int| i < j < row.len() implies counts.count(#[trigger] row[j])
                < counts.count(row[i]) by {
                if j < last {
                    assert(counts.count(few[j]) < counts.count(few[i]));
                }
            }
        }
    }
}

/// Within a cluster the points are grouped by their commonest tags: `tags` are
/// these, and the points of a cluster come by tag and then in the order in which
/// they were given.
pub proof fn points_are_grouped_by_tag(
    index: &IvfIndex,
    base: &VecStore,
    meta: &SpMat,
    assignments: Seq<u16>,
) -> (tags: Seq<u32>)
    requires
        index.holds_points(base, meta, assignments, index.original_ids@.len() as int),
        index.original_ids@.len() <= u32::MAX,
        forall|p: int, i: int|
            #![trigger meta.row(p)[i]]
            0 <= p < index.original_ids@.len() && 0 <= i < meta.row(p).len() ==> 0 <= meta.row(p)[i],
    ensures
        ({
            let ids = index.original_ids@;
            &&& tags.len() == ids.len()
            &&& forall|p: int|
                0 <= p < tags.len() ==> is_commonest(
                    meta.indices@.to_multiset(),
                    meta.row(p),
                    #[trigger] tags[p],
                )
            &&& forall|g: int, h: int|
                0 <= g < h < ids.len() ==> {
                    let (p, q) = (#[trigger] ids[g] as int, #[trigger] ids[h] as int);
                    &&& assignments[p] <= assignments[q]
                    &&& assignments[p] == assignments[q] ==> tags[p] < tags[q] || (tags[p]
                        == tags[q] && p < q)
                }
        }),
{
    let ids = index.original_ids@;
    let n = ids.len() as int;
    let counts = meta.indices@.to_multiset();
    let tags = Seq::new(n as nat, |p: int| affinity(counts, meta.row(p)));
    assert forall|p: int| 0 <= p < n implies is_commonest(counts, meta.row(p), #[trigger] tags[p]) by {
        let row = meta.row(p);
        assert forall|i: int| 0 <= i < row.len() implies 0 <= #[trigger] row[i] by {
            assert(0 <= meta.row(p)[i]);
        }
        affinity_is_commonest(counts, row);
    }
    let all = places(meta, assignments, n);
    let order = arranged(all);
    arranged_is_sorted(all);
    assert(all.no_duplicates()) by {
        assert forall|i: int, j: int| 0 <= i < all.len() && 0 <= j < all.len() && i != j implies all[i]
            != all[j] by {
            assert(all[i].2 == i as u32 && all[j].2 == j as u32);
        }
    }
    all.lemma_multiset_has_no_duplicates();
    order.lemma_multiset_has_no_duplicates_conv();
    assert forall|g: int| 0 <= g < n implies ids[g] == (#[trigger] order[g]).2 && ids[g] < n
        && order[g].0 == assignments[ids[g] as int] && order[g].1 == tags[ids[g] as int] by {
        arranged_holds(all, order[g]);
        assert(order.contains(order[g]));
        let w = choose|w: int| 0 <= w < all.len() && all[w] == order[g];
        assert(all[w].2 == w as u32);
    }
    assert forall|g: int, h: int| 0 <= g < h < n implies {
        let (p, q) = (#[trigger] ids[g] as int, #[trigger] ids[h] as int);
        &&& assignments[p] <= assignments[q]
        &&& assignments[p] == assignments[q] ==> tags[p] < tags[q] || (tags[p] == tags[q] && p < q)
    } by {
        assert(order[g] != order[h]);
        assert(order[g].rank() <= order[h].rank());
        assert(ids[g] == order[g].2 && ids[h] == order[h].2);
    }
    tags
}

} // verus!
