//! What stands between a caller's arrays and the indexes: staging of points,
//! checks of shapes, tags and clusters of queries, and padded answers.

use vstd::prelude::*;
use crate::config::PrismConfig;
use crate::distance::{byte_distance, l2_sq8};
use crate::error::{
    ends, invalid_input, refused_format, refused_input, refused_size, PrismResult, Verdict,
};
use crate::index::{input_verdict, PrismIndex};
use crate::ivf::{occurs, IvfIndex};
use crate::order::{ascending, ascending_is_unique, ascending_set, lowest};
use crate::point::row_bounds;
use crate::probe::sorted_intersect_u16;
use crate::pure::{measures, pair_value};
use crate::search::SearchResult;
use crate::select::{nearest, Scored};
use crate::single::{finite, is_finite};
use crate::sparse::{pointers_fit, tags_fit};
use crate::vecstore::{row_of, VecStore};

verus! {

/// Whether a table of `nq` rows of `k` four-byte entries can exist.
pub open spec fn output_fits(nq: int, k: int) -> bool {
    nq <= isize::MAX && k <= isize::MAX && nq * k * 4 <= isize::MAX
}

/// Number of entries of a table of answers.
pub fn checked_output_len(nq: usize, k: usize) -> (result: PrismResult<usize>)
    ensures
        ends(
            result,
            if output_fits(nq as int, k as int) {
                Verdict::Accepted
            } else {
                Verdict::InvalidInput
            },
        ),
        result matches Ok(count) ==> count == nq * k,
{
    let limit: usize = isize::MAX as usize;
    if nq > limit || k > limit {
        return Err(invalid_input("output dimensions exceed the platform array-index space"));
    }
    let entries: usize = match nq.checked_mul(k) {
        Some(entries) => entries,
        None => {
            return Err(invalid_input("output shape nq * k overflows usize"));
        },
    };
    let bytes: usize = match entries.checked_mul(4) {
        Some(bytes) => bytes,
        None => {
            return Err(invalid_input("output byte size overflows usize"));
        },
    };
    if bytes > limit {
        return Err(invalid_input("output array exceeds the platform allocation limit"));
    }
    Ok(entries)
}

/// Checks row-compressed tags.
pub fn validate_csr(indptr: &[i64], indices: &[i32], rows: usize, cols: usize) -> (result: PrismResult<
    (),
>)
    ensures
        ends(
            result,
            if pointers_fit(indptr@, indices@.len() as int, rows as int) && tags_fit(
                indices@,
                cols as int,
            ) && rows < usize::MAX && indices@.len() <= i64::MAX {
                Verdict::Accepted
            } else {
                Verdict::InvalidInput
            },
        ),
{
    if rows == usize::MAX {
        return Err(invalid_input("row count is too large"));
    }
    if indptr.len() != rows + 1 {
        return Err(invalid_input("indptr length must equal rows + 1"));
    }
    if indptr[0] != 0 {
        return Err(invalid_input("indptr must start at zero"));
    }
    let count: usize = indices.len();
    if count as u64 > 0x7fff_ffff_ffff_ffff {
        return Err(invalid_input("there are too many indices"));
    }
    let entries: i64 = count as i64;
    let mut i: usize = 0;
    while i < rows
        invariant
            i <= rows < usize::MAX,
            indptr@.len() == rows + 1,
            indptr@[0] == 0,
            entries == indices@.len(),
            indptr@[i as int] >= 0,
            forall|a: int, b: int| 0 <= a <= b <= i ==> indptr@[a] <= indptr@[b],
        decreases rows - i,
    {
        if indptr[i] > indptr[i + 1] || indptr[i + 1] > entries {
            proof {
                if pointers_fit(indptr@, entries as int, rows as int) {
                    assert(indptr@[i as int] <= indptr@[i + 1]);
                    assert(indptr@[i + 1] <= indptr@[rows as int]);
                }
            }
            return Err(invalid_input("indptr must be nonnegative, monotone, and within indices"));
        }
        i = i + 1;
    }
    if indptr[rows] != entries {
        return Err(invalid_input("indptr must end at the indices length"));
    }
    let mut j: usize = 0;
    while j < count
        invariant
            j <= count,
            count == indices@.len(),
            forall|a: int| 0 <= a < j ==> 0 <= #[trigger] indices@[a] < cols,
        decreases count - j,
    {
        let tag: i32 = indices[j];
        if tag < 0 || tag as u64 >= cols as u64 {
            assert(!(0 <= indices@[j as int] < cols));
            return Err(invalid_input("tag is outside the valid range"));
        }
        j = j + 1;
    }
    Ok(())
}

/// The tags of one row, each once.
pub open spec fn tags_listed(indptr: Seq<i64>, indices: Seq<i32>, q: int, tags: Seq<usize>) -> bool {
    let row = indices.subrange(indptr[q] as int, indptr[q + 1] as int);
    &&& ascending(tags)
    &&& forall|t: usize|
        #[trigger] tags.contains(t) <==> exists|i: int| 0 <= i < row.len() && #[trigger] row[i] == t
}

/// The tags of every row, each once and in ascending order.
pub fn row_tags(indptr: &[i64], indices: &[i32], rows: usize) -> (all: Vec<Vec<usize>>)
    requires
        pointers_fit(indptr@, indices@.len() as int, rows as int),
        forall|i: int| 0 <= i < indices@.len() ==> 0 <= #[trigger] indices@[i],
        indices@.len() <= i64::MAX,
    ensures
        all@.len() == rows,
        forall|q: int|
            0 <= q < rows ==> tags_listed(indptr@, indices@, q, (#[trigger] all@[q])@),
{
    let mut all: Vec<Vec<usize>> = Vec::new();
    let count: usize = indices.len();
    while all.len() < rows
        invariant
            all@.len() <= rows,
            count == indices@.len(),
            pointers_fit(indptr@, indices@.len() as int, rows as int),
            forall|i: int| 0 <= i < indices@.len() ==> 0 <= #[trigger] indices@[i],
            forall|q: int|
                0 <= q < all@.len() ==> tags_listed(indptr@, indices@, q, (#[trigger] all@[q])@),
        decreases rows - all@.len(),
    {
        let q: usize = all.len();
        proof {
            assert(indptr@[0] <= indptr@[q as int] <= indptr@[q + 1] <= indptr@[rows as int]);
        }
        let start: usize = indptr[q] as usize;
        let end: usize = indptr[q + 1] as usize;
        let mut row: Vec<usize> = Vec::new();
        let mut at: usize = start;
        while at < end
            invariant
                start <= at <= end <= count,
                count == indices@.len(),
                forall|i: int| 0 <= i < indices@.len() ==> 0 <= #[trigger] indices@[i],
                row@.len() == at - start,
                forall|i: int| 0 <= i < row@.len() ==> #[trigger] row@[i] == indices@[start + i],
            decreases end - at,
        {
            let tag: i32 = indices[at];
            assert(0 <= indices@[at as int]);
            row.push(tag as usize);
            at = at + 1;
        }
        let tags = ascending_set(row.as_slice());
        proof {
            let due = indices@.subrange(indptr@[q as int] as int, indptr@[q + 1] as int);
            assert forall|t: usize| #[trigger] tags@.contains(t) <==> exists|i: int|
                0 <= i < due.len() && #[trigger] due[i] == t by {
                assert(tags@.contains(t) <==> row@.contains(t));
                if row@.contains(t) {
                    let i = choose|i: int| 0 <= i < row@.len() && row@[i] == t;
                    assert(due[i] == t);
                }
                if exists|i: int| 0 <= i < due.len() && #[trigger] due[i] == t {
                    let i = choose|i: int| 0 <= i < due.len() && #[trigger] due[i] == t;
                    assert(row@[i] == t);
                }
            }
        }
        all.push(tags);
    }
    all
}

/// `list` is one that `f` gives for a tag.
pub open spec fn answers_tag<'a, P: Fn(usize) -> Option<&'a [u16]>>(
    f: P,
    tag: usize,
    list: Option<Seq<u16>>,
) -> bool {
    exists|given: Option<&'a [u16]>|
        #[trigger] call_ensures(f, (tag,), given) && list == match given {
            Some(slice) => Some(slice@),
            None => None,
        }
}

/// The clusters that `f` gives for a tag.
pub open spec fn clusters_of<'a, P: Fn(usize) -> Option<&'a [u16]>>(f: P, tag: usize) -> Option<
    Seq<u16>,
> {
    choose|list: Option<Seq<u16>>| answers_tag(f, tag, list)
}

/// `f` takes any tag below `n_tags` and always gives the same ascending
/// clusters for it.
pub open spec fn lists_clusters<'a, P: Fn(usize) -> Option<&'a [u16]>>(f: P, n_tags: int) -> bool {
    &&& forall|tag: usize| tag < n_tags ==> call_requires(f, (tag,))
    &&& forall|tag: usize, given: Option<&'a [u16]>|
        tag < n_tags && #[trigger] call_ensures(f, (tag,), given) ==> {
            &&& clusters_of(f, tag) == match given {
                Some(slice) => Some(slice@),
                None => None,
            }
            &&& given matches Some(slice) ==> ascending(slice@)
        }
}

/// Cluster `c` has points with the tag.
pub open spec fn has_tag<'a, P: Fn(usize) -> Option<&'a [u16]>>(f: P, n_tags: int, tag: usize, c: u16) -> bool {
    tag < n_tags && match clusters_of(f, tag) {
        Some(list) => list.contains(c),
        None => false,
    }
}

/// `f` said of the tag that cluster `c` has it, or that it does not.
pub open spec fn said<'a, P: Fn(usize) -> Option<&'a [u16]>>(f: P, tag: usize, c: u16, has: bool) -> bool {
    exists|given: Option<&'a [u16]>|
        #[trigger] call_ensures(f, (tag,), given) && has == match given {
            Some(slice) => slice@.contains(c),
            None => false,
        }
}

/// `f` said of the first `upto` tags that cluster `c` has them.
pub open spec fn all_said<'a, P: Fn(usize) -> Option<&'a [u16]>>(
    f: P,
    n_tags: int,
    tags: Seq<usize>,
    upto: int,
    c: u16,
) -> bool {
    forall|i: int| 0 <= i < upto ==> (#[trigger] tags[i]) < n_tags && said(f, tags[i], c, true)
}

/// There is no such tag, or `f` said of it that cluster `c` does not have it.
pub open spec fn one_denied<'a, P: Fn(usize) -> Option<&'a [u16]>>(
    f: P,
    n_tags: int,
    tags: Seq<usize>,
    c: u16,
) -> bool {
    exists|i: int|
        0 <= i < tags.len() && ((#[trigger] tags[i]) >= n_tags || said(f, tags[i], c, false))
}

/// The clusters that have all tags; all clusters where there are none.
pub fn candidate_clusters_for_tags<'a, P: Fn(usize) -> Option<&'a [u16]>>(
    tags: &[usize],
    n_tags: usize,
    n_clusters: usize,
    clusters_for_tag: &P,
) -> (clusters: Vec<u16>)
    requires
        n_clusters <= 0x1_0000,
        lists_clusters(*clusters_for_tag, n_tags as int),
    ensures
        ascending(clusters@),
        tags@.len() == 0 ==> clusters@ == Seq::new(n_clusters as nat, |c: int| c as u16),
        tags@.len() > 0 ==> forall|c: u16|
            #[trigger] clusters@.contains(c) <==> forall|i: int|
                0 <= i < tags@.len() ==> has_tag(
                    *clusters_for_tag,
                    n_tags as int,
                    #[trigger] tags@[i],
                    c,
                ),
        tags@.len() > 0 ==> forall|c: u16|
            #![trigger clusters@.contains(c)]
            if clusters@.contains(c) {
                all_said(*clusters_for_tag, n_tags as int, tags@, tags@.len() as int, c)
            } else {
                one_denied(*clusters_for_tag, n_tags as int, tags@, c)
            },
{
    let mut matching: Vec<u16> = Vec::new();
    if tags.len() == 0 {
        while matching.len() < n_clusters
            invariant
                matching@.len() <= n_clusters <= 0x1_0000,
                forall|c: int| 0 <= c < matching@.len() ==> #[trigger] matching@[c] == c,
            decreases n_clusters - matching@.len(),
        {
            matching.push(matching.len() as u16);
        }
        assert(matching@ =~= Seq::new(n_clusters as nat, |c: int| c as u16));
        return matching;
    }
    let mut i: usize = 0;
    while i < tags.len()
        invariant
            i <= tags@.len(),
            tags@.len() > 0,
            lists_clusters(*clusters_for_tag, n_tags as int),
            ascending(matching@),
            i > 0 ==> forall|c: u16|
                #[trigger] matching@.contains(c) <==> forall|j: int|
                    0 <= j < i ==> has_tag(
                        *clusters_for_tag,
                        n_tags as int,
                        #[trigger] tags@[j],
                        c,
                    ),
            i > 0 ==> forall|c: u16|
                #![trigger matching@.contains(c)]
                if matching@.contains(c) {
                    all_said(*clusters_for_tag, n_tags as int, tags@, i as int, c)
                } else {
                    one_denied(*clusters_for_tag, n_tags as int, tags@, c)
                },
        decreases tags@.len() - i,
    {
        let tag: usize = tags[i];
        let ghost before = matching@;
        if tag >= n_tags {
            assert(tags@[i as int] >= n_tags);
            proof {
                nothing_matches(*clusters_for_tag, n_tags as int, tags@, i as int);
            }
            return Vec::new();
        }
        let answer = clusters_for_tag(tag);
        let ghost given = answer;
        match answer {
            Some(list) => {
                if i == 0 {
                    let mut copy: Vec<u16> = Vec::new();
                    while copy.len() < list.len()
                        invariant
                            copy@.len() <= list@.len(),
                            forall|j: int| 0 <= j < copy@.len() ==> #[trigger] copy@[j] == list@[j],
                        decreases list@.len() - copy@.len(),
                    {
                        copy.push(list[copy.len()]);
                    }
                    assert(copy@ =~= list@);
                    matching = copy;
                } else {
                    matching = sorted_intersect_u16(matching.as_slice(), list);
                }
                proof {
                    assert forall|c: u16| #[trigger] matching@.contains(c) <==> forall|j: int|
                        0 <= j < i + 1 ==> has_tag(
                            *clusters_for_tag,
                            n_tags as int,
                            #[trigger] tags@[j],
                            c,
                        ) by {
                        assert(list@.contains(c) <==> has_tag(
                            *clusters_for_tag,
                            n_tags as int,
                            tags@[i as int],
                            c,
                        ));
                        if i > 0 {
                            assert(before.contains(c) <==> forall|j: int|
                                0 <= j < i ==> has_tag(
                                    *clusters_for_tag,
                                    n_tags as int,
                                    #[trigger] tags@[j],
                                    c,
                                ));
                        }
                    }
                    assert forall|c: u16|
                        #![trigger matching@.contains(c)]
                        if matching@.contains(c) {
                            all_said(*clusters_for_tag, n_tags as int, tags@, i + 1, c)
                        } else {
                            one_denied(*clusters_for_tag, n_tags as int, tags@, c)
                        } by {
                        assert(call_ensures(clusters_for_tag, (tag,), given));
                        assert(said(*clusters_for_tag, tags@[i as int], c, list@.contains(c)));
                        if i > 0 {
                            assert(before.contains(c) || !before.contains(c));
                        }
                    }
                }
            },
            None => {
                assert forall|c: u16| said(*clusters_for_tag, #[trigger] tags@[i as int], c, false) by {
                    assert(call_ensures(clusters_for_tag, (tag,), given));
                }
                proof {
                    nothing_matches(*clusters_for_tag, n_tags as int, tags@, i as int);
                }
                return Vec::new();
            },
        }
        i = i + 1;
    }
    matching
}

/// A tag without clusters excludes every cluster.
proof fn nothing_matches<'a, P: Fn(usize) -> Option<&'a [u16]>>(
    f: P,
    n_tags: int,
    tags: Seq<usize>,
    i: int,
)
    requires
        0 <= i < tags.len(),
        tags[i] >= n_tags || clusters_of(f, tags[i]) is None,
    ensures
        forall|c: u16|
            #[trigger] Seq::<u16>::empty().contains(c) <==> forall|j: int|
                0 <= j < tags.len() ==> has_tag(f, n_tags, #[trigger] tags[j], c),
{
    assert forall|c: u16| #[trigger] Seq::<u16>::empty().contains(c) <==> forall|j: int|
        0 <= j < tags.len() ==> has_tag(f, n_tags, #[trigger] tags[j], c) by {
        assert(!has_tag(f, n_tags, tags[i], c));
    }
}

/// Distance of a query from the centre of a cluster.
pub open spec fn cluster_gap<M: Fn(&[u32], &[u32]) -> u32>(
    queries: &VecStore,
    centroids: &VecStore,
    dim: int,
    measure: M,
    q: int,
    c: int,
) -> u64 {
    if queries is U8 {
        byte_distance(row_of(queries.bytes(), q, dim), row_of(centroids.bytes(), c, dim))
    } else {
        pair_value(
            measure,
            row_of(queries.patterns(), q, dim),
            row_of(centroids.patterns(), c, dim),
        ) as u64
    }
}

/// The clusters whose centres are nearest to a query, at most `nprobe`.
pub open spec fn clusters_near<M: Fn(&[u32], &[u32]) -> u32>(
    queries: &VecStore,
    centroids: &VecStore,
    dim: int,
    measure: M,
    q: int,
    candidates: Seq<u16>,
    nprobe: int,
) -> Seq<usize> {
    lowest(
        candidates.map_values(
            |c: u16| (cluster_gap(queries, centroids, dim, measure, q, c as int), c as u32),
        ),
        nprobe,
    ).map_values(|entry: Scored| entry.1 as usize)
}

/// The candidates whose centres are nearest to a query, nearest first.
pub fn nearest_clusters<M: Fn(&[u32], &[u32]) -> u32>(
    queries: &VecStore,
    nq: usize,
    centroids: &VecStore,
    n_clusters: usize,
    dim: usize,
    measure: &M,
    q: usize,
    candidates: &Vec<u16>,
    nprobe: usize,
) -> (clusters: Vec<usize>)
    requires
        q < nq,
        dim > 0,
        queries is U8 <==> centroids is U8,
        queries.count() == nq * dim,
        centroids.count() == n_clusters * dim,
        forall|i: int| 0 <= i < candidates@.len() ==> #[trigger] candidates@[i] < n_clusters,
        queries is F32 ==> measures(*measure, dim as int),
    ensures
        clusters@ == clusters_near(
            queries,
            centroids,
            dim as int,
            *measure,
            q as int,
            candidates@,
            nprobe as int,
        ),
{
    let mut entries: Vec<Scored> = Vec::new();
    proof {
        row_bounds(q as int, nq as int, dim as int);
    }
    while entries.len() < candidates.len()
        invariant
            entries@.len() <= candidates@.len(),
            q < nq,
            dim > 0,
            queries is U8 <==> centroids is U8,
            queries.count() == nq * dim,
            centroids.count() == n_clusters * dim,
            0 <= q * dim,
            q * dim + dim == (q + 1) * dim,
            (q + 1) * dim <= nq * dim,
            forall|i: int| 0 <= i < candidates@.len() ==> #[trigger] candidates@[i] < n_clusters,
            queries is F32 ==> measures(*measure, dim as int),
            forall|i: int|
                0 <= i < entries@.len() ==> #[trigger] entries@[i] == (
                    cluster_gap(
                        queries,
                        centroids,
                        dim as int,
                        *measure,
                        q as int,
                        candidates@[i] as int,
                    ),
                    candidates@[i] as u32,
                ),
        decreases candidates@.len() - entries@.len(),
    {
        let c: u16 = candidates[entries.len()];
        assert(candidates@[entries@.len() as int] < n_clusters);
        proof {
            row_bounds(c as int, n_clusters as int, dim as int);
        }
        let gap: u64 = match (queries, centroids) {
            (VecStore::U8(asked), VecStore::U8(centres)) => {
                let total: usize = asked.len();
                let size: usize = centres.len();
                let from: usize = q * dim;
                let at: usize = c as usize * dim;
                let a = vstd::slice::slice_subrange(asked.as_slice(), from, from + dim);
                let b = vstd::slice::slice_subrange(centres.as_slice(), at, at + dim);
                assert(a@ =~= row_of(queries.bytes(), q as int, dim as int));
                assert(b@ =~= row_of(centroids.bytes(), c as int, dim as int));
                l2_sq8(a, b)
            },
            (VecStore::F32(asked), VecStore::F32(centres)) => {
                let total: usize = asked.len();
                let size: usize = centres.len();
                let from: usize = q * dim;
                let at: usize = c as usize * dim;
                let a = vstd::slice::slice_subrange(asked.as_slice(), from, from + dim);
                let b = vstd::slice::slice_subrange(centres.as_slice(), at, at + dim);
                assert(a@ =~= row_of(queries.patterns(), q as int, dim as int));
                assert(b@ =~= row_of(centroids.patterns(), c as int, dim as int));
                measure(a, b) as u64
            },
            _ => 0,
        };
        entries.push((gap, c as u32));
    }
    assert(entries@ =~= candidates@.map_values(
        |c: u16|
            (cluster_gap(queries, centroids, dim as int, *measure, q as int, c as int), c as u32),
    ));
    let best = nearest(&entries, nprobe);
    let mut clusters: Vec<usize> = Vec::new();
    while clusters.len() < best.len()
        invariant
            clusters@.len() <= best@.len(),
            forall|i: int| 0 <= i < clusters@.len() ==> #[trigger] clusters@[i] == best@[i].1 as usize,
        decreases best@.len() - clusters@.len(),
    {
        clusters.push(best[clusters.len()].1 as usize);
    }
    assert(clusters@ =~= clusters_near(
        queries,
        centroids,
        dim as int,
        *measure,
        q as int,
        candidates@,
        nprobe as int,
    ));
    clusters
}

/// Cluster `c` of the index has points with the tag.
pub open spec fn cluster_has_tag(index: &IvfIndex, tag: usize, c: u16) -> bool {
    &&& tag < index.n_tags
    &&& tag <= u32::MAX
    &&& c < index.n_clusters
    &&& occurs(index.tag_offsets@, index.tag_index@, c as int, tag as u32)
}

/// These are the clusters, in ascending order, that have all tags.
pub open spec fn have_tags(index: &IvfIndex, tags: Seq<usize>, clusters: Seq<u16>) -> bool {
    &&& ascending(clusters)
    &&& forall|c: u16|
        #[trigger] clusters.contains(c) <==> c < index.n_clusters && forall|i: int|
            0 <= i < tags.len() ==> cluster_has_tag(index, #[trigger] tags[i], c)
}

/// The clusters to look at for a query: of those that have all of its tags the
/// ones whose centres are nearest, nearest first.
pub fn probed_clusters<M: Fn(&[u32], &[u32]) -> u32>(
    index: &IvfIndex,
    tags: &[usize],
    queries: &VecStore,
    nq: usize,
    centroids: &VecStore,
    measure: &M,
    q: usize,
    nprobe: usize,
) -> (clusters: Vec<usize>)
    requires
        index.wf(),
        q < nq,
        queries is U8 <==> centroids is U8,
        queries.count() == nq * index.dim,
        centroids.count() == index.n_clusters * index.dim,
        queries is F32 ==> measures(*measure, index.dim as int),
    ensures
        exists|candidates: Seq<u16>| #[trigger]
            have_tags(index, tags@, candidates) && clusters@ == clusters_near(
                queries,
                centroids,
                index.dim as int,
                *measure,
                q as int,
                candidates,
                nprobe as int,
            ),
{
    let listed = |tag: usize| -> (list: Option<&[u16]>)
        ensures
            list is Some <==> tag <= u32::MAX && exists|c: int|
                0 <= c < index.n_clusters && #[trigger] occurs(
                    index.tag_offsets@,
                    index.tag_index@,
                    c,
                    tag as u32,
                ),
            list matches Some(some) ==> ascending(some@) && forall|c: u16|
                #![trigger some@.contains(c)]
                some@.contains(c) <==> c < index.n_clusters && occurs(
                    index.tag_offsets@,
                    index.tag_index@,
                    c as int,
                    tag as u32,
                ),
        { index.clusters_for_tag(tag) };
    proof {
        assert forall|tag: usize, given: Option<&[u16]>|
            tag < index.n_tags && #[trigger] call_ensures(listed, (tag,), given) implies {
            &&& clusters_of(listed, tag) == match given {
                Some(slice) => Some(slice@),
                None => None,
            }
            &&& given matches Some(slice) ==> ascending(slice@)
        } by {
            let view = match given {
                Some(slice) => Some(slice@),
                None => None,
            };
            assert(answers_tag(listed, tag, view));
            let other = clusters_of(listed, tag);
            let same = choose|same: Option<&[u16]>|
                #[trigger] call_ensures(listed, (tag,), same) && other == match same {
                    Some(slice) => Some(slice@),
                    None => None,
                };
            if let (Some(a), Some(b)) = (given, same) {
                assert forall|c: u16| a@.contains(c) <==> b@.contains(c) by {}
                ascending_is_unique(a@, b@);
            }
        }
    }
    let candidates = candidate_clusters_for_tags(tags, index.n_tags, index.n_clusters, &listed);
    proof {
        assert forall|c: u16| #[trigger] candidates@.contains(c) <==> c < index.n_clusters && forall|
            i: int,
        |
            0 <= i < tags@.len() ==> cluster_has_tag(index, #[trigger] tags@[i], c) by {
            if tags@.len() == 0 {
                if c < index.n_clusters {
                    assert(candidates@[c as int] == c);
                }
            } else if candidates@.contains(c) {
                assert(all_said(listed, index.n_tags as int, tags@, tags@.len() as int, c));
                assert forall|i: int| 0 <= i < tags@.len() implies cluster_has_tag(
                    index,
                    #[trigger] tags@[i],
                    c,
                ) by {
                    let given = choose|given: Option<&[u16]>|
                        #[trigger] call_ensures(listed, (tags@[i],), given) && true == match given {
                            Some(slice) => slice@.contains(c),
                            None => false,
                        };
                    assert(call_ensures(listed, (tags@[i],), given));
                }
                assert(cluster_has_tag(index, tags@[0], c));
            } else {
                assert(one_denied(listed, index.n_tags as int, tags@, c));
                let i = choose|i: int|
                    0 <= i < tags@.len() && ((#[trigger] tags@[i]) >= index.n_tags || said(
                        listed,
                        tags@[i],
                        c,
                        false,
                    ));
                if tags@[i] < index.n_tags {
                    let given = choose|given: Option<&[u16]>|
                        #[trigger] call_ensures(listed, (tags@[i],), given) && false == match given {
                            Some(slice) => slice@.contains(c),
                            None => false,
                        };
                    assert(call_ensures(listed, (tags@[i],), given));
                }
                assert(!cluster_has_tag(index, tags@[i], c));
            }
        }
        assert forall|i: int| 0 <= i < candidates@.len() implies #[trigger] candidates@[i]
            < index.n_clusters by {
            assert(candidates@.contains(candidates@[i]));
        }
        assert(have_tags(index, tags@, candidates@));
    }
    nearest_clusters(
        queries,
        nq,
        centroids,
        index.n_clusters,
        index.dim,
        measure,
        q,
        &candidates,
        nprobe,
    )
}

/// Every result is a point of the index.
pub open spec fn results_named(index: &PrismIndex, results: Seq<SearchResult>) -> bool {
    forall|i: int| 0 <= i < results.len() ==> (#[trigger] results[i]).id < index.original_ids@.len()
}

/// The numbers that the points of results had when they were added, and their
/// distances.
pub fn told(index: &PrismIndex, results: &Vec<SearchResult>) -> (answer: PrismResult<
    (Vec<u32>, Vec<u32>),
>)
    ensures
        ends(
            answer,
            if results_named(index, results@) {
                Verdict::Accepted
            } else {
                Verdict::InvalidInput
            },
        ),
        answer matches Ok(lists) ==> {
            &&& lists.0@ == results@.map_values(
                |result: SearchResult| index.original_ids@[result.id as int],
            )
            &&& lists.1@ == results@.map_values(|result: SearchResult| result.dist)
        },
{
    let mut ids: Vec<u32> = Vec::new();
    let mut distances: Vec<u32> = Vec::new();
    while ids.len() < results.len()
        invariant
            ids@.len() == distances@.len() <= results@.len(),
            forall|i: int|
                0 <= i < ids@.len() ==> (#[trigger] results@[i]).id < index.original_ids@.len()
                    && ids@[i] == index.original_ids@[results@[i].id as int] && distances@[i]
                    == results@[i].dist,
        decreases results@.len() - ids@.len(),
    {
        let result = results[ids.len()];
        match index.original_id(result.id) {
            Some(id) => {
                ids.push(id);
                distances.push(result.dist);
            },
            None => {
                assert(!results_named(index, results@));
                return Err(invalid_input("search returned an out-of-range internal ID"));
            },
        }
    }
    assert(ids@ =~= results@.map_values(
        |result: SearchResult| index.original_ids@[result.id as int],
    ));
    assert(distances@ =~= results@.map_values(|result: SearchResult| result.dist));
    Ok((ids, distances))
}

/// Entry `j` of a row that is filled up.
pub open spec fn padded_entry(row: Seq<u32>, fill: u32, j: int) -> u32 {
    if j < row.len() {
        row[j]
    } else {
        fill
    }
}

/// The first `k` entries of every row in one table; short rows are filled up.
pub fn pad_rows(rows: &Vec<Vec<u32>>, k: usize, fill: u32) -> (table: Vec<u32>)
    requires
        rows@.len() * k <= usize::MAX,
    ensures
        table@.len() == rows@.len() * k,
        forall|i: int, j: int|
            0 <= i < rows@.len() && 0 <= j < k ==> table@[i * k + j] == #[trigger] padded_entry(
                rows@[i]@,
                fill,
                j,
            ),
{
    let mut table: Vec<u32> = Vec::new();
    let mut i: usize = 0;
    while i < rows.len()
        invariant
            i <= rows@.len(),
            table@.len() == i * k,
            forall|a: int, j: int|
                0 <= a < i && 0 <= j < k ==> table@[a * k + j] == #[trigger] padded_entry(
                    rows@[a]@,
                    fill,
                    j,
                ),
        decreases rows@.len() - i,
    {
        let row = &rows[i];
        let ghost before = table@;
        let mut j: usize = 0;
        while j < k
            invariant
                i < rows@.len(),
                *row == rows@[i as int],
                j <= k,
                before.len() == i * k,
                table@.len() == i * k + j,
                table@.take(i * k) == before,
                forall|b: int|
                    0 <= b < j ==> table@[i * k + b] == #[trigger] padded_entry(row@, fill, b),
            decreases k - j,
        {
            let value: u32 = if j < row.len() { row[j] } else { fill };
            assert(value == padded_entry(row@, fill, j as int));
            table.push(value);
            assert(table@.take(i * k) =~= before);
            j = j + 1;
        }
        proof {
            assert((i + 1) * k == i * k + k) by (nonlinear_arith);
            assert forall|a: int, b: int| 0 <= a < i + 1 && 0 <= b < k implies table@[a * k + b]
                == #[trigger] padded_entry(rows@[a]@, fill, b) by {
                if a < i {
                    assert(0 <= a * k && a * k + b < i * k) by (nonlinear_arith)
                        requires
                            0 <= a < i,
                            0 <= b < k,
                    ;
                    assert(before[a * k + b] == padded_entry(rows@[a]@, fill, b));
                    assert(table@.take(i * k)[a * k + b] == before[a * k + b]);
                }
            }
        }
        i = i + 1;
    }
    table
}

/// Points that are collected before an index is built from them.
pub struct Staging {
    /// The coordinates, point after point.
    pub vectors: Vec<u32>,
    /// One column per attribute.
    pub attrs: Vec<Vec<u32>>,
    pub dim: usize,
    /// Number of points.
    pub points: usize,
    /// Whether the index was built.
    pub built: bool,
}

/// Whether points can be added.
pub open spec fn adding_verdict(
    staged: &Staging,
    vectors: Seq<u32>,
    vector_rows: int,
    vector_cols: int,
    attribute_rows: int,
    attribute_cols: int,
) -> Verdict {
    if !staged.built && vector_cols == staged.dim && attribute_cols == staged.attrs@.len()
        && vector_rows == attribute_rows && (forall|i: int|
        0 <= i < vectors.len() ==> is_finite(#[trigger] vectors[i])) && staged.points + vector_rows
        <= u32::MAX {
        Verdict::Accepted
    } else {
        Verdict::InvalidInput
    }
}

/// Whether what was collected is handed over for an index to be built from it.
pub open spec fn handing_verdict(staged: &Staging, config: &PrismConfig) -> Verdict {
    if staged.built || staged.points == 0 {
        Verdict::InvalidInput
    } else {
        input_verdict(staged.vectors@, staged.dim as int, staged.attrs@, config)
    }
}

impl Staging {
    /// What holds of every valid value.
    pub open spec fn wf(&self) -> bool {
        &&& self.dim > 0
        &&& self.points <= u32::MAX
        &&& self.vectors@.len() == self.points * self.dim
        &&& forall|j: int|
            0 <= j < self.attrs@.len() ==> (#[trigger] self.attrs@[j])@.len() == self.points
    }

    /// An empty collection for points of this shape.
    pub fn new(dim: usize, num_attributes: usize, config: &PrismConfig) -> (result: PrismResult<Staging>)
        ensures
            ends(
                result,
                if dim == 0 {
                    Verdict::InvalidInput
                } else {
                    config.verdict()
                },
            ),
            result matches Ok(staged) ==> staged.wf() && staged.dim == dim && staged.points == 0
                && staged.attrs@.len() == num_attributes && !staged.built,
    {
        if dim == 0 {
            return Err(invalid_input("dim must be greater than zero"));
        }
        match config.validate() {
            Ok(()) => {},
            Err(error) => {
                return Err(error);
            },
        }
        let mut attrs: Vec<Vec<u32>> = Vec::new();
        while attrs.len() < num_attributes
            invariant
                attrs@.len() <= num_attributes,
                forall|j: int| 0 <= j < attrs@.len() ==> (#[trigger] attrs@[j])@.len() == 0,
            decreases num_attributes - attrs@.len(),
        {
            attrs.push(Vec::new());
        }
        assert(0 * dim == 0);
        Ok(Staging { vectors: Vec::new(), attrs, dim, points: 0, built: false })
    }

    /// Adds points: tables of coordinates and of attribute values, row after
    /// row.  Points that are refused leave everything as it was.
    pub fn add(
        &mut self,
        vectors: &[u32],
        vector_rows: usize,
        vector_cols: usize,
        attributes: &[u32],
        attribute_rows: usize,
        attribute_cols: usize,
    ) -> (result: PrismResult<()>)
        requires
            old(self).wf(),
            vectors@.len() == vector_rows * vector_cols,
            attributes@.len() == attribute_rows * attribute_cols,
        ensures
            final(self).wf(),
            final(self).dim == old(self).dim,
            final(self).built == old(self).built,
            final(self).attrs@.len() == old(self).attrs@.len(),
            ends(
                result,
                adding_verdict(
                    old(self),
                    vectors@,
                    vector_rows as int,
                    vector_cols as int,
                    attribute_rows as int,
                    attribute_cols as int,
                ),
            ),
            result is Err ==> *final(self) == *old(self),
            result is Ok ==> {
                &&& final(self).points == old(self).points + vector_rows
                &&& final(self).vectors@ == old(self).vectors@ + vectors@
                &&& forall|j: int|
                    0 <= j < attribute_cols ==> (#[trigger] final(self).attrs@[j])@
                        == old(self).attrs@[j]@ + Seq::new(
                        vector_rows as nat,
                        |i: int| attributes@[i * attribute_cols + j],
                    )
            },
    {
        if self.built {
            return Err(invalid_input("cannot add after build()"));
        }
        if vector_cols != self.dim {
            return Err(invalid_input("vectors have another dimension"));
        }
        if attribute_cols != self.attrs.len() {
            return Err(invalid_input("attributes have another count"));
        }
        if vector_rows != attribute_rows {
            return Err(invalid_input("vectors and attributes must have same number of rows"));
        }
        let count: usize = vectors.len();
        let mut i: usize = 0;
        while i < count
            invariant
                i <= count,
                count == vectors@.len(),
                self.wf(),
                *self == *old(self),
                forall|a: int| 0 <= a < i ==> is_finite(#[trigger] vectors@[a]),
            decreases count - i,
        {
            if !finite(vectors[i]) {
                assert(!is_finite(vectors@[i as int]));
                return Err(invalid_input("vectors must contain only finite values"));
            }
            i = i + 1;
        }
        let total: usize = match self.points.checked_add(vector_rows) {
            Some(total) => total,
            None => {
                return Err(
                    invalid_input("total point count exceeds the platform integer space"),
                );
            },
        };
        if total > u32::MAX as usize {
            return Err(
                invalid_input("total point count exceeds the uint32 identifier space"),
            );
        }
        let ghost before = *self;
        let ghost rows = vector_rows as int;
        let ghost cols = attribute_cols as int;
        let mut v: usize = 0;
        while v < count
            invariant
                v <= count,
                count == vectors@.len(),
                self.attrs == before.attrs,
                self.dim == before.dim,
                self.points == before.points,
                self.built == before.built,
                self.vectors@ == before.vectors@ + vectors@.take(v as int),
            decreases count - v,
        {
            self.vectors.push(vectors[v]);
            proof {
                assert(vectors@.take(v + 1) =~= vectors@.take(v as int).push(vectors@[v as int]));
                assert(self.vectors@ =~= before.vectors@ + vectors@.take(v + 1));
            }
            v = v + 1;
        }
        assert(vectors@.take(count as int) =~= vectors@);
        let mut r: usize = 0;
        while r < vector_rows
            invariant
                r <= vector_rows,
                rows == vector_rows,
                cols == attribute_cols,
                cols == before.attrs@.len(),
                attributes@.len() == rows * cols,
                before.wf(),
                self.dim == before.dim,
                self.points == before.points,
                self.built == before.built,
                self.vectors@ == before.vectors@ + vectors@,
                self.attrs@.len() == cols,
                forall|j: int|
                    0 <= j < cols ==> (#[trigger] self.attrs@[j])@ == before.attrs@[j]@ + Seq::new(
                        r as nat,
                        |a: int| attributes@[a * cols + j],
                    ),
            decreases vector_rows - r,
        {
            let mut j: usize = 0;
            let size: usize = attributes.len();
            while j < attribute_cols
                invariant
                    r < vector_rows,
                    j <= attribute_cols,
                    rows == vector_rows,
                    cols == attribute_cols,
                    size == attributes@.len(),
                    attributes@.len() == rows * cols,
                    self.dim == before.dim,
                    self.points == before.points,
                    self.built == before.built,
                    self.vectors@ == before.vectors@ + vectors@,
                    self.attrs@.len() == cols,
                    forall|b: int|
                        0 <= b < cols ==> (#[trigger] self.attrs@[b])@ == before.attrs@[b]@ + Seq::new(
                            (if b < j {
                                r + 1
                            } else {
                                r as int
                            }) as nat,
                            |a: int| attributes@[a * cols + b],
                        ),
                decreases attribute_cols - j,
            {
                proof {
                    assert(0 <= r * cols && r * cols + j < rows * cols) by (nonlinear_arith)
                        requires
                            0 <= r < rows,
                            0 <= j < cols,
                    ;
                }
                let value: u32 = attributes[r * attribute_cols + j];
                let ghost some = self.attrs@;
                self.attrs[j].push(value);
                proof {
                    assert forall|b: int| 0 <= b < cols implies (#[trigger] self.attrs@[b])@
                        == before.attrs@[b]@ + Seq::new(
                        (if b < j + 1 {
                            r + 1
                        } else {
                            r as int
                        }) as nat,
                        |a: int| attributes@[a * cols + b],
                    ) by {
                        if b == j {
                            assert(self.attrs@[b]@ =~= before.attrs@[b]@ + Seq::new(
                                (r + 1) as nat,
                                |a: int| attributes@[a * cols + b],
                            ));
                        } else {
                            assert(self.attrs@[b] == some[b]);
                        }
                    }
                }
                j = j + 1;
            }
            r = r + 1;
        }
        self.points = total;
        proof {
            assert(total * self.dim == before.points * self.dim + rows * self.dim)
                by (nonlinear_arith)
                requires
                    total == before.points + rows,
            ;
        }
        Ok(())
    }

    /// Hands over what was collected for an index to be built from it; an empty
    /// collection of the same shape remains.  Where there is an index already,
    /// or nothing was collected, or it is not fit for an index, everything stays
    /// as it was.
    pub fn hand_over(&mut self, config: &PrismConfig) -> (result: PrismResult<
        (Vec<u32>, Vec<Vec<u32>>),
    >)
        requires
            old(self).wf(),
        ensures
            ends(result, handing_verdict(old(self), config)),
            result is Err ==> *final(self) == *old(self),
            result matches Ok(parts) ==> {
                &&& parts.0@ == old(self).vectors@
                &&& parts.1@ == old(self).attrs@
                &&& final(self).wf()
                &&& final(self).dim == old(self).dim
                &&& final(self).attrs@.len() == old(self).attrs@.len()
                &&& final(self).points == 0
                &&& !final(self).built
            },
    {
        if self.built {
            return Err(invalid_input("index already built"));
        }
        if self.points == 0 {
            return Err(invalid_input("no data added; call add() first"));
        }
        match PrismIndex::validate_build_input(
            self.vectors.as_slice(),
            self.dim,
            self.attrs.as_slice(),
            config,
        ) {
            Ok(()) => Ok(self.take()),
            Err(error) => Err(error.and_also("; staged vectors and attributes were retained")),
        }
    }

    /// Takes note of how building ended: with an index nothing more can be
    /// added, without one the collection starts again.
    pub fn settle(&mut self, outcome: PrismResult<PrismIndex>) -> (result: PrismResult<PrismIndex>)
        requires
            old(self).wf(),
        ensures
            final(self).wf(),
            final(self).dim == old(self).dim,
            final(self).points == old(self).points,
            final(self).vectors == old(self).vectors,
            final(self).attrs == old(self).attrs,
            final(self).built == outcome is Ok,
            outcome is Ok ==> result == outcome,
            outcome is Err ==> {
                &&& refused_input(result) == refused_input(outcome)
                &&& refused_format(result) == refused_format(outcome)
                &&& refused_size(result) == refused_size(outcome)
                &&& result is Err
            },
    {
        match outcome {
            Ok(index) => {
                self.built = true;
                Ok(index)
            },
            Err(error) => {
                self.built = false;
                Err(
                    error.and_also(
                        "; native construction failed after ownership transfer, so staged vectors and attributes were consumed and the builder was reset",
                    ),
                )
            },
        }
    }

    /// Hands over what was collected; an empty collection of the same shape
    /// remains.
    fn take(&mut self) -> (parts: (Vec<u32>, Vec<Vec<u32>>))
        requires
            old(self).wf(),
        ensures
            parts.0@ == old(self).vectors@,
            parts.1@ == old(self).attrs@,
            final(self).wf(),
            final(self).dim == old(self).dim,
            final(self).built == old(self).built,
            final(self).points == 0,
            final(self).attrs@.len() == old(self).attrs@.len(),
    {
        let count: usize = self.attrs.len();
        let mut attrs: Vec<Vec<u32>> = Vec::new();
        while attrs.len() < count
            invariant
                attrs@.len() <= count,
                forall|j: int| 0 <= j < attrs@.len() ==> (#[trigger] attrs@[j])@.len() == 0,
            decreases count - attrs@.len(),
        {
            attrs.push(Vec::new());
        }
        let mut vectors: Vec<u32> = Vec::new();
        std::mem::swap(&mut self.vectors, &mut vectors);
        std::mem::swap(&mut self.attrs, &mut attrs);
        self.points = 0;
        assert(0 * self.dim == 0);
        (vectors, attrs)
    }
}

/// Checks that clusters are looked at where results are wanted.
pub fn check_probes(k: usize, nprobe: usize) -> (result: PrismResult<()>)
    ensures
        result is Ok <==> k == 0 || nprobe > 0,
        result is Err ==> refused_input(result),
{
    if k > 0 && nprobe == 0 {
        return Err(invalid_input("nprobe must be greater than zero when k is nonzero"));
    }
    Ok(())
}

/// Checks the settings of an index of clusters.
pub fn check_ivf_settings(n_clusters: usize, kmeans_iters: usize) -> (result: PrismResult<()>)
    ensures
        ends(
            result,
            if 1 <= n_clusters <= 0x1_0000 && kmeans_iters > 0 {
                Verdict::Accepted
            } else {
                Verdict::InvalidInput
            },
        ),
{
    if n_clusters == 0 || n_clusters > 0x1_0000 {
        return Err(invalid_input("n_clusters must be between 1 and 65536"));
    }
    if kmeans_iters == 0 {
        return Err(invalid_input("kmeans_iters must be greater than zero"));
    }
    Ok(())
}

/// Every coordinate is finite.
pub open spec fn store_finite(store: &VecStore) -> bool {
    store is F32 ==> forall|i: int|
        0 <= i < store.patterns().len() ==> is_finite(#[trigger] store.patterns()[i])
}

/// Whether every coordinate is finite.
pub fn check_finite(store: &VecStore) -> (answer: bool)
    ensures
        answer == store_finite(store),
{
    match store {
        VecStore::U8(_) => true,
        VecStore::F32(values) => {
            let mut i: usize = 0;
            while i < values.len()
                invariant
                    i <= values@.len(),
                    *store is F32,
                    values@ == store.patterns(),
                    forall|j: int| 0 <= j < i ==> is_finite(#[trigger] values@[j]),
                decreases values@.len() - i,
            {
                if !finite(values[i]) {
                    assert(!is_finite(store.patterns()[i as int]));
                    return false;
                }
                i = i + 1;
            }
            true
        },
    }
}

/// Checks the points of an index of clusters.
pub fn check_ivf_input(vectors: &VecStore, n: usize, dim: usize, n_clusters: usize) -> (result: PrismResult<
    (),
>)
    ensures
        ends(
            result,
            if n > 0 && dim > 0 && n_clusters <= n && store_finite(vectors) {
                Verdict::Accepted
            } else {
                Verdict::InvalidInput
            },
        ),
{
    if n == 0 {
        return Err(invalid_input("vectors must contain at least one row"));
    }
    if dim == 0 {
        return Err(invalid_input("vector dimension must be greater than zero"));
    }
    if n_clusters > n {
        return Err(invalid_input("n_clusters cannot exceed the point count"));
    }
    if !check_finite(vectors) {
        return Err(invalid_input("vectors must contain only finite values"));
    }
    Ok(())
}

/// Checks queries to an index of clusters of this kind and dimension.
pub fn check_ivf_queries(
    queries: &VecStore,
    dim: usize,
    index_is_f32: bool,
    index_dim: usize,
) -> (result: PrismResult<()>)
    ensures
        ends(
            result,
            if (queries is F32 <==> index_is_f32) && store_finite(queries) && dim == index_dim {
                Verdict::Accepted
            } else {
                Verdict::InvalidInput
            },
        ),
{
    let asked_f32 = match queries {
        VecStore::U8(_) => false,
        VecStore::F32(_) => true,
    };
    if asked_f32 != index_is_f32 {
        return Err(invalid_input("query dtype must match index dtype"));
    }
    if !check_finite(queries) {
        return Err(invalid_input("queries must contain only finite values"));
    }
    if dim != index_dim {
        return Err(invalid_input("query dim differs from index dim"));
    }
    Ok(())
}

} // verus!
