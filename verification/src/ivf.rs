//! Filtered inverted-file index: geometric clusters with tag postings inside
//! each.

use std::collections::HashMap;
use vstd::prelude::*;
use vstd::multiset::*;
use vstd::seq_lib::*;
use vstd::std_specs::hash::*;
use crate::binary::{byte_flags, packed, signs_fit, BinaryStore};
use crate::error::{ends, invalid_input, overflow, PrismResult, Verdict};
use crate::order::{
    arranged, arranged_is_sorted, ascending, ascending_is_sorted, ascending_set, sorted,
    sorted_copy, Ranked,
};
use crate::point::row_bounds;
use crate::pure::{flags_of, gives_flags};
use crate::single::{all_in_domain, check_domain};
use crate::sparse::{csr_verdict, tags_fit, SpMat};
use crate::vecstore::{row_of, VecStore};

verus! {

/// Where a point goes: its cluster, its affinity tag, its identifier.
pub type Place = (u16, u32, u32);

/// The affinity tag of a row: the tag that occurs most often overall, the last
/// one of several; the largest number for a row without tags.
pub open spec fn affinity(counts: Multiset<i32>, row: Seq<i32>) -> u32
    decreases row.len(),
{
    if row.len() == 0 {
        u32::MAX
    } else if row.len() == 1 {
        row[0] as u32
    } else {
        let best = affinity(counts, row.drop_last());
        if counts.count(row.last()) >= counts.count(best as i32) {
            row.last() as u32
        } else {
            best
        }
    }
}

/// Where each point goes, in insertion order.
pub open spec fn places(meta: &SpMat, assignments: Seq<u16>, n: int) -> Seq<Place> {
    Seq::new(
        n as nat,
        |i: int| (assignments[i], affinity(meta.indices@.to_multiset(), meta.row(i)), i as u32),
    )
}

/// The points by cluster, then by affinity tag, then by identifier.
pub open spec fn layout(meta: &SpMat, assignments: Seq<u16>, n: int) -> Seq<u32> {
    arranged(places(meta, assignments, n)).map_values(|place: Place| place.2)
}

/// Number of distinct tags of the first `g` points of `order` together.
pub open spec fn tag_pairs(meta: &SpMat, order: Seq<u32>, g: int) -> nat
    decreases g,
{
    if g <= 0 {
        0
    } else {
        tag_pairs(meta, order, g - 1) + meta.row(order[g - 1] as int).to_set().len()
    }
}

/// Whether points, assignments and tags can be indexed, apart from the number
/// of postings.
pub open spec fn points_verdict(
    base: &VecStore,
    meta: &SpMat,
    assignments: Seq<u16>,
    n: int,
    dim: int,
    n_clusters: int,
) -> Verdict {
    if n == 0 || dim == 0 {
        Verdict::InvalidInput
    } else if n > u32::MAX {
        Verdict::Overflow
    } else if n_clusters < 1 || n_clusters > n {
        Verdict::InvalidInput
    } else if n_clusters > 0x1_0000 || n * dim > usize::MAX {
        Verdict::Overflow
    } else if base.count() != n * dim || (base is F32 && !all_in_domain(base.patterns(), dim)) {
        Verdict::InvalidInput
    } else if assignments.len() != n || exists|i: int|
        0 <= i < n && #[trigger] assignments[i] >= n_clusters {
        Verdict::InvalidInput
    } else {
        csr_verdict(meta.rows as int, meta.cols as int, meta.indptr@, meta.indices@, n)
    }
}

/// Whether an index can be built.
pub open spec fn build_verdict(
    base: &VecStore,
    meta: &SpMat,
    assignments: Seq<u16>,
    n: int,
    dim: int,
    n_clusters: int,
) -> Verdict {
    let checked = points_verdict(base, meta, assignments, n, dim, n_clusters);
    if checked != Verdict::Accepted {
        checked
    } else if tag_pairs(meta, layout(meta, assignments, n), n) > u32::MAX || !signs_fit(dim) {
        Verdict::Overflow
    } else {
        Verdict::Accepted
    }
}

/// Geometric clusters over reordered vectors, with tag postings per cluster.
pub struct IvfIndex {
    /// The vectors, cluster after cluster.
    pub vectors: VecStore,
    /// Original identifier of each reordered point.
    pub original_ids: Vec<u32>,
    /// Cluster `c` spans `cluster_starts[c] .. cluster_starts[c + 1]`.
    pub cluster_starts: Vec<u32>,
    /// Cluster `c` has the tag entries `tag_offsets[c] .. tag_offsets[c + 1]`.
    pub tag_offsets: Vec<u32>,
    /// Tag, first posting and number of postings, by ascending tag per cluster.
    pub tag_index: Vec<(u32, u32, u32)>,
    /// Positions within their cluster of the points with a tag.
    pub posting_ids: Vec<u32>,
    /// The clusters in which a tag occurs.
    pub tag_clusters: HashMap<u32, Vec<u16>>,
    /// Number of tags that exist.
    pub n_tags: usize,
    /// Sketches of the reordered vectors.
    pub binary: BinaryStore,
    /// Coordinates per vector.
    pub dim: usize,
    /// Number of clusters.
    pub n_clusters: usize,
}

/// Boundaries of `count` consecutive blocks of `total` items.
pub open spec fn boundaries(starts: Seq<u32>, count: int, total: int) -> bool {
    &&& starts.len() == count + 1
    &&& starts[0] == 0
    &&& starts[count] == total
    &&& forall|i: int, j: int| 0 <= i <= j <= count ==> starts[i] <= starts[j]
}

/// Postings of tag entry `e`.
pub open spec fn entry_list(
    tag_index: Seq<(u32, u32, u32)>,
    posting_ids: Seq<u32>,
    e: int,
) -> Seq<u32> {
    posting_ids.subrange(tag_index[e].1 as int, tag_index[e].1 + tag_index[e].2)
}

/// Tag entry `e` is one of the entries from `from` to `to` and is for tag `t`.
pub open spec fn entry_for(tag_index: Seq<(u32, u32, u32)>, from: int, to: int, e: int, t: u32) -> bool {
    from <= e < to && tag_index[e].0 == t
}

/// Some entry between `from` and `to` lists position `l` for tag `t`.
pub open spec fn listed(
    tag_index: Seq<(u32, u32, u32)>,
    posting_ids: Seq<u32>,
    from: int,
    to: int,
    t: u32,
    l: u32,
) -> bool {
    exists|e: int|
        #[trigger] entry_for(tag_index, from, to, e, t) && entry_list(tag_index, posting_ids, e).contains(l)
}

/// Tags ascend from entry `from` to entry `to`.
pub open spec fn tags_ascend(tag_index: Seq<(u32, u32, u32)>, from: int, to: int) -> bool {
    forall|a: int, b: int|
        from <= a < b < to ==> (#[trigger] tag_index[a]).0 < (#[trigger] tag_index[b]).0
}

/// Tags ascend from entry `from` to entry `to`, and each has ascending
/// positions below `size`.
pub open spec fn entries_fit(
    tag_index: Seq<(u32, u32, u32)>,
    posting_ids: Seq<u32>,
    from: int,
    to: int,
    size: int,
) -> bool {
    &&& tags_ascend(tag_index, from, to)
    &&& forall|e: int|
        from <= e < to ==> {
            &&& (#[trigger] tag_index[e]).1 + tag_index[e].2 <= posting_ids.len()
            &&& tag_index[e].2 > 0
            &&& ascending(entry_list(tag_index, posting_ids, e))
            &&& forall|i: int|
                0 <= i < entry_list(tag_index, posting_ids, e).len() ==> #[trigger] entry_list(
                    tag_index,
                    posting_ids,
                    e,
                )[i] < size
        }
}

/// The clusters in which tag `t` occurs are those listed for it.
pub open spec fn clusters_listed(
    lists: Map<u32, Vec<u16>>,
    tag_offsets: Seq<u32>,
    tag_index: Seq<(u32, u32, u32)>,
    count: int,
    t: u32,
) -> bool {
    &&& lists.contains_key(t) ==> lists[t]@.len() > 0 && ascending(lists[t]@) && forall|c: u16|
        #![trigger lists[t]@.contains(c)]
        lists[t]@.contains(c) <==> c < count && occurs(tag_offsets, tag_index, c as int, t)
    &&& !lists.contains_key(t) ==> forall|c: int|
        0 <= c < count ==> !#[trigger] occurs(tag_offsets, tag_index, c, t)
}

/// Some entry between `from` and `to` is for tag `t`.
pub open spec fn has_entry(tag_index: Seq<(u32, u32, u32)>, from: int, to: int, t: u32) -> bool {
    exists|e: int| #[trigger] entry_for(tag_index, from, to, e, t)
}

/// Tag `t` has an entry in cluster `c`.
pub open spec fn occurs(tag_offsets: Seq<u32>, tag_index: Seq<(u32, u32, u32)>, c: int, t: u32) -> bool {
    has_entry(tag_index, tag_offsets[c] as int, tag_offsets[c + 1] as int, t)
}

impl IvfIndex {
    /// What holds of every valid value.
    pub open spec fn wf(&self) -> bool {
        &&& self.original_ids@.len() <= u32::MAX
        &&& self.dim > 0
        &&& 1 <= self.n_clusters <= 0x1_0000
        &&& self.vectors.count() == self.original_ids@.len() * self.dim
        &&& self.original_ids@.no_duplicates()
        &&& forall|g: int|
            0 <= g < self.original_ids@.len() ==> #[trigger] self.original_ids@[g]
                < self.original_ids@.len()
        &&& boundaries(
            self.cluster_starts@,
            self.n_clusters as int,
            self.original_ids@.len() as int,
        )
        &&& boundaries(self.tag_offsets@, self.n_clusters as int, self.tag_index@.len() as int)
        &&& forall|c: int| 0 <= c < self.n_clusters ==> #[trigger] self.cluster_entries_fit(c)
        &&& forall|t: u32|
            #[trigger] clusters_listed(
                self.tag_clusters@,
                self.tag_offsets@,
                self.tag_index@,
                self.n_clusters as int,
                t,
            )
        &&& self.binary.wf()
        &&& self.binary.signs@.len() == self.dim
        &&& self.binary.count() == self.original_ids@.len()
    }

    /// Number of points of cluster `c`.
    pub open spec fn cluster_size(&self, c: int) -> int {
        self.cluster_starts@[c + 1] - self.cluster_starts@[c]
    }

    /// The tag lists of cluster `c` name its points, in order.
    pub open spec fn cluster_entries_fit(&self, c: int) -> bool {
        entries_fit(
            self.tag_index@,
            self.posting_ids@,
            self.tag_offsets@[c] as int,
            self.tag_offsets@[c + 1] as int,
            self.cluster_size(c),
        )
    }

    /// The point at position `l` of cluster `c` has tag `t`.
    pub open spec fn carries(&self, c: int, l: u32, t: u32) -> bool {
        listed(
            self.tag_index@,
            self.posting_ids@,
            self.tag_offsets@[c] as int,
            self.tag_offsets@[c + 1] as int,
            t,
            l,
        )
    }

    /// Reordered point `g` belongs to cluster `c`.
    pub open spec fn in_cluster(&self, c: int, g: int) -> bool {
        self.cluster_starts@[c] <= g < self.cluster_starts@[c + 1]
    }

    /// The sketches are those of the indexed vectors.
    pub open spec fn sketched<F: Fn(&[u32], &[u32], usize) -> Vec<bool>>(&self, rotate: F) -> bool {
        &&& self.binary.is_standard()
        &&& forall|g: int|
            0 <= g < self.original_ids@.len() ==> #[trigger] self.binary.code_of(g) == packed(
                match self.vectors {
                    VecStore::U8(bytes) => byte_flags(
                        row_of(bytes@, g, self.dim as int),
                        self.binary.signs@,
                        self.binary.block_size as int,
                    ),
                    VecStore::F32(patterns) => flags_of(
                        rotate,
                        row_of(patterns@, g, self.dim as int),
                        self.binary.signs@,
                        self.binary.block_size,
                    ),
                },
            )
    }

    /// The index holds exactly the given points, vectors and tags.
    pub open spec fn holds_points(
        &self,
        base: &VecStore,
        meta: &SpMat,
        assignments: Seq<u16>,
        n: int,
    ) -> bool {
        &&& self.original_ids@ == layout(meta, assignments, n)
        &&& self.n_tags == meta.cols
        &&& self.vectors is U8 <==> base is U8
        &&& forall|g: int|
            0 <= g < n && base is U8 ==> #[trigger] row_of(self.vectors.bytes(), g, self.dim as int)
                == row_of(base.bytes(), self.original_ids@[g] as int, self.dim as int)
        &&& forall|g: int|
            0 <= g < n && base is F32 ==> #[trigger] row_of(self.vectors.patterns(), g, self.dim as int)
                == row_of(base.patterns(), self.original_ids@[g] as int, self.dim as int)
        &&& forall|c: int, g: int|
            0 <= c < self.n_clusters && 0 <= g < n ==> (#[trigger] self.in_cluster(c, g)
                <==> assignments[self.original_ids@[g] as int] == c)
        &&& forall|c: int, l: u32, t: u32|
            0 <= c < self.n_clusters ==> (#[trigger] self.carries(c, l, t) <==> l < self.cluster_size(c)
                && t <= i32::MAX && meta.row(
                self.original_ids@[self.cluster_starts@[c] + l] as int,
            ).contains(t as i32))
    }
}

/// The count of tag `t` is the number of its occurrences, if it has any.
spec fn tag_counted(counts: Map<u32, usize>, indices: Seq<i32>, t: i32) -> bool {
    indices.contains(t) ==> counts.contains_key(t as u32) && counts[t as u32]
        == indices.to_multiset().count(t)
}

/// How often each tag occurs.
fn tag_frequencies(meta: &SpMat) -> (counts: HashMap<u32, usize>)
    requires
        meta.wf(),
    ensures
        forall|t: i32| #[trigger] tag_counted(counts@, meta.indices@, t),
{
    broadcast use {group_hash_axioms, group_to_multiset_ensures};

    let mut counts: HashMap<u32, usize> = HashMap::new();
    let mut i: usize = 0;
    assert(meta.indices@.take(0) =~= Seq::<i32>::empty());
    while i < meta.indices.len()
        invariant
            i <= meta.indices@.len(),
            meta.wf(),
            forall|t: i32|
                0 <= t ==> #[trigger] meta.indices@.take(i as int).to_multiset().count(t) == (
                if counts@.contains_key(t as u32) {
                    counts@[t as u32] as nat
                } else {
                    0
                }),
        decreases meta.indices@.len() - i,
    {
        broadcast use {group_hash_axioms, group_to_multiset_ensures};

        let tag: i32 = meta.indices[i];
        assert(0 <= meta.indices@[i as int] < meta.cols);
        let key: u32 = tag as u32;
        let known: usize = match counts.get(&key) {
            Some(count) => *count,
            None => 0,
        };
        let ghost seen = meta.indices@.take(i as int);
        let ghost before = counts@;
        proof {
            assert(meta.indices@.take(i + 1) =~= seen.push(tag));
            assert(seen.to_multiset().count(tag) <= i) by {
                assert(seen.to_multiset().len() == i);
            }
        }
        let _ = counts.insert(key, known + 1);
        proof {
            assert forall|t: i32| 0 <= t implies #[trigger] meta.indices@.take(i + 1).to_multiset().count(t) == (
            if counts@.contains_key(t as u32) {
                counts@[t as u32] as nat
            } else {
                0
            }) by {
                assert(seen.to_multiset().count(t) == (if before.contains_key(t as u32) {
                    before[t as u32] as nat
                } else {
                    0
                }));
                if t != tag {
                    assert(t as u32 != key);
                }
            }
        }
        i = i + 1;
    }
    proof {
        assert(meta.indices@.take(meta.indices@.len() as int) =~= meta.indices@);
        assert forall|t: i32| #[trigger] tag_counted(counts@, meta.indices@, t) by {
            if meta.indices@.contains(t) {
                let w = choose|w: int| 0 <= w < meta.indices@.len() && meta.indices@[w] == t;
                assert(0 <= meta.indices@[w]);
                assert(meta.indices@.to_multiset().count(t) > 0);
            }
        }
    }
    counts
}

/// The affinity tag of a row.
fn affinity_tag(meta: &SpMat, counts: &HashMap<u32, usize>, i: usize) -> (tag: u32)
    requires
        meta.wf(),
        i < meta.rows,
        forall|t: i32| #[trigger] tag_counted(counts@, meta.indices@, t),
    ensures
        tag == affinity(meta.indices@.to_multiset(), meta.row(i as int)),
{
    broadcast use group_hash_axioms;

    let row = meta.row_tags(i);
    if row.len() == 0 {
        return u32::MAX;
    }
    let ghost all = meta.indices@.to_multiset();
    proof {
        assert(meta.indptr@[0] <= meta.indptr@[i as int]);
        assert(meta.indptr@[i as int] <= meta.indptr@[i + 1]);
        assert(meta.indptr@[i + 1] <= meta.indptr@[meta.rows as int]);
        assert forall|j: int| 0 <= j < row@.len() implies meta.indices@.contains(#[trigger] row@[j]) by {
            assert(meta.indices@[meta.indptr@[i as int] + j] == row@[j]);
        }
    }
    let mut best: i32 = row[0];
    assert(0 <= row@[0]);
    let mut most: usize = match counts.get(&(best as u32)) {
        Some(count) => *count,
        None => 0,
    };
    let mut j: usize = 1;
    assert(row@.take(1)[0] == row@[0]);
    assert(meta.indices@.contains(row@[0]));
    assert(tag_counted(counts@, meta.indices@, best));
    assert(most == all.count(best));
    while j < row.len()
        invariant
            1 <= j <= row@.len(),
            tags_fit(row@, meta.cols as int),
            meta.cols <= 0x8000_0000,
            all == meta.indices@.to_multiset(),
            forall|t: i32| #[trigger] tag_counted(counts@, meta.indices@, t),
            forall|c: int| 0 <= c < row@.len() ==> meta.indices@.contains(#[trigger] row@[c]),
            0 <= best,
            best as u32 == affinity(all, row@.take(j as int)),
            most == all.count(best),
        decreases row@.len() - j,
    {
        broadcast use group_hash_axioms;

        let tag: i32 = row[j];
        assert(meta.indices@.contains(row@[j as int]));
        assert(0 <= row@[j as int]);
        let count: usize = match counts.get(&(tag as u32)) {
            Some(count) => *count,
            None => 0,
        };
        assert(tag_counted(counts@, meta.indices@, tag));
        assert(count == all.count(tag));
        proof {
            assert(row@.take(j + 1).drop_last() =~= row@.take(j as int));
            assert(row@.take(j + 1).last() == tag);
            assert((best as u32) as i32 == best);
        }
        if count >= most {
            best = tag;
            most = count;
        }
        j = j + 1;
    }
    assert(row@.take(row@.len() as int) =~= row@);
    best as u32
}

/// Where each point goes, in order.
fn arrange_points(meta: &SpMat, assignments: &[u16], n: usize) -> (order: Vec<Place>)
    requires
        meta.wf(),
        meta.rows == n,
        assignments@.len() == n,
        n <= u32::MAX,
    ensures
        order@ == arranged(places(meta, assignments@, n as int)),
{
    let counts = tag_frequencies(meta);
    let mut unordered: Vec<Place> = Vec::new();
    let mut i: usize = 0;
    while i < n
        invariant
            i <= n,
            meta.wf(),
            meta.rows == n,
            assignments@.len() == n,
            n <= u32::MAX,
            forall|t: i32| #[trigger] tag_counted(counts@, meta.indices@, t),
            unordered@ =~= places(meta, assignments@, n as int).take(i as int),
        decreases n - i,
    {
        let tag: u32 = affinity_tag(meta, &counts, i);
        unordered.push((assignments[i], tag, i as u32));
        i = i + 1;
    }
    proof {
        let all = places(meta, assignments@, n as int);
        assert(all.take(n as int) =~= all);
    }
    sorted_copy(unordered.as_slice())
}

/// The places of `n` points name each point once.
proof fn places_are_a_permutation(meta: &SpMat, assignments: Seq<u16>, n: int)
    requires
        0 <= n <= u32::MAX,
    ensures
        layout(meta, assignments, n).len() == n,
        layout(meta, assignments, n).no_duplicates(),
        forall|g: int| 0 <= g < n ==> #[trigger] layout(meta, assignments, n)[g] < n,
        forall|g: int|
            0 <= g < n ==> (#[trigger] arranged(places(meta, assignments, n))[g]).0
                == assignments[arranged(places(meta, assignments, n))[g].2 as int],
        sorted(arranged(places(meta, assignments, n))),
{
    broadcast use group_to_multiset_ensures;

    let all = places(meta, assignments, n);
    let order = arranged(all);
    let ids = layout(meta, assignments, n);
    arranged_is_sorted(all);
    assert(all.no_duplicates());
    all.lemma_multiset_has_no_duplicates();
    order.lemma_multiset_has_no_duplicates_conv();
    assert forall|g: int| 0 <= g < n implies all.contains(#[trigger] order[g]) by {
        assert(order.contains(order[g]));
        assert(order.to_multiset().count(order[g]) > 0);
    }
    assert forall|g: int| 0 <= g < n implies #[trigger] ids[g] < n && order[g].0
        == assignments[order[g].2 as int] && order[g] == all[order[g].2 as int] by {
        assert(all.contains(order[g]));
        let w = choose|w: int| 0 <= w < all.len() && all[w] == order[g];
        assert(order[g].2 == w as u32);
    }
    assert forall|g: int, h: int| 0 <= g < n && 0 <= h < n && g != h implies ids[g] != ids[h] by {
        assert(ids[g] < n);
        assert(ids[h] < n);
        if ids[g] == ids[h] {
            assert(order[g] == all[order[g].2 as int]);
            assert(order[h] == all[order[h].2 as int]);
            assert(order[g] == order[h]);
        }
    }
    assert forall|g: int| 0 <= g < n implies (#[trigger] order[g]).0 == assignments[order[g].2 as int] by {
        assert(ids[g] < n);
    }
}

/// First position of each cluster, and the end.
fn cluster_bounds(order: &Vec<Place>, n_clusters: usize) -> (starts: Vec<u32>)
    requires
        sorted(order@),
        order@.len() <= u32::MAX,
        1 <= n_clusters <= 0x1_0000,
        forall|g: int| 0 <= g < order@.len() ==> (#[trigger] order@[g]).0 < n_clusters,
    ensures
        boundaries(starts@, n_clusters as int, order@.len() as int),
        forall|c: int, g: int|
            0 <= c <= n_clusters && 0 <= g < order@.len() ==> (#[trigger] starts@[c] <= g <==> c <= (
            #[trigger] order@[g]).0),
{
    let mut starts: Vec<u32> = Vec::new();
    let mut at: usize = 0;
    let mut c: usize = 0;
    while c < n_clusters
        invariant
            c <= n_clusters <= 0x1_0000,
            sorted(order@),
            order@.len() <= u32::MAX,
            at <= order@.len(),
            starts@.len() == c,
            c == 0 ==> at == 0,
            forall|g: int| 0 <= g < at ==> (#[trigger] order@[g]).0 < c,
            forall|g: int| 0 <= g < order@.len() ==> (#[trigger] order@[g]).0 < n_clusters,
            forall|d: int, g: int|
                0 <= d < c && 0 <= g < order@.len() ==> (#[trigger] starts@[d] <= g <==> d <= (
                #[trigger] order@[g]).0),
            forall|d: int, e: int| 0 <= d <= e < c ==> starts@[d] <= starts@[e],
            forall|d: int| 0 <= d < c ==> #[trigger] starts@[d] <= at,
            c > 0 ==> starts@[0] == 0,
        decreases n_clusters - c,
    {
        while at < order.len() && (order[at].0 as usize) < c
            invariant
                at <= order@.len(),
                c < n_clusters <= 0x1_0000,
                c == 0 ==> at == 0,
                sorted(order@),
                starts@.len() == c,
                forall|g: int| 0 <= g < at ==> (#[trigger] order@[g]).0 < c,
                forall|d: int| 0 <= d < c ==> #[trigger] starts@[d] <= at,
            decreases order@.len() - at,
        {
            at = at + 1;
        }
        proof {
            assert forall|g: int| 0 <= g < order@.len() implies (at <= g <==> c <= (#[trigger] order@[g]).0) by {
                if at <= g {
                    assert(order@[at as int].rank() <= order@[g].rank());
                }
            }
        }
        starts.push(at as u32);
        c = c + 1;
    }
    starts.push(order.len() as u32);
    starts
}

/// Rows in another order stay in the domain of distances.
proof fn reordering_stays_in_domain(data: Seq<u32>, rows: Seq<u32>, order: Seq<u32>, dim: int)
    requires
        dim > 0,
        data.len() == order.len() * dim,
        rows.len() == data.len(),
        all_in_domain(data, dim),
        forall|g: int| 0 <= g < order.len() ==> #[trigger] order[g] < order.len(),
        forall|g: int|
            0 <= g < order.len() ==> #[trigger] row_of(rows, g, dim) == row_of(
                data,
                order[g] as int,
                dim,
            ),
    ensures
        all_in_domain(rows, dim),
{
    assert forall|i: int| 0 <= i < rows.len() implies crate::single::in_domain(
        #[trigger] rows[i],
        dim,
    ) by {
        let g = i / dim;
        let d = i % dim;
        vstd::arithmetic::div_mod::lemma_fundamental_div_mod(i, dim);
        assert(dim * g == g * dim) by (nonlinear_arith);
        assert(0 <= g < order.len()) by (nonlinear_arith)
            requires
                0 <= i < order.len() * dim,
                i == dim * g + d,
                0 <= d < dim,
                0 < dim,
        ;
        row_bounds(g, order.len() as int, dim);
        row_bounds(order[g] as int, order.len() as int, dim);
        assert(row_of(rows, g, dim)[d] == rows[i]);
        assert(row_of(data, order[g] as int, dim)[d] == data[order[g] * dim + d]);
    }
}

/// Rows of `data` in the given order.
pub(crate) fn reorder_rows<T: Copy>(data: &Vec<T>, order: &Vec<u32>, dim: usize) -> (out: Vec<T>)
    requires
        dim > 0,
        data@.len() == order@.len() * dim,
        forall|g: int| 0 <= g < order@.len() ==> #[trigger] order@[g] < order@.len(),
    ensures
        out@.len() == data@.len(),
        forall|g: int|
            0 <= g < order@.len() ==> #[trigger] row_of(out@, g, dim as int) == row_of(
                data@,
                order@[g] as int,
                dim as int,
            ),
{
    let mut out: Vec<T> = Vec::new();
    let mut g: usize = 0;
    let total: usize = data.len();
    while g < order.len()
        invariant
            g <= order@.len(),
            dim > 0,
            total == data@.len(),
            data@.len() == order@.len() * dim,
            forall|i: int| 0 <= i < order@.len() ==> #[trigger] order@[i] < order@.len(),
            out@.len() == g * dim,
            forall|i: int|
                0 <= i < g ==> #[trigger] row_of(out@, i, dim as int) == row_of(
                    data@,
                    order@[i] as int,
                    dim as int,
                ),
        decreases order@.len() - g,
    {
        let from: u32 = order[g];
        proof {
            assert(order@[g as int] < order@.len());
            row_bounds(from as int, order@.len() as int, dim as int);
            row_bounds(g as int, order@.len() as int, dim as int);
        }
        let start: usize = from as usize * dim;
        let ghost before = out@;
        let mut d: usize = 0;
        while d < dim
            invariant
                d <= dim,
                total == data@.len(),
                start + dim <= total,
                out@ =~= before + data@.subrange(start as int, start + d),
            decreases dim - d,
        {
            out.push(data[start + d]);
            d = d + 1;
        }
        proof {
            let row = row_of(data@, from as int, dim as int);
            assert(out@ =~= before + row);
            assert forall|i: int| 0 <= i < g + 1 implies #[trigger] row_of(out@, i, dim as int) == row_of(
                data@,
                order@[i] as int,
                dim as int,
            ) by {
                row_bounds(i, g + 1, dim as int);
                if i < g {
                    row_bounds(i, g as int, dim as int);
                    assert(row_of(out@, i, dim as int) =~= row_of(before, i, dim as int));
                } else {
                    assert(row_of(out@, i, dim as int) =~= row);
                }
            }
        }
        g = g + 1;
    }
    out
}

/// Position `l` after `start` has tag `t`.
pub open spec fn tagged(meta: &SpMat, ids: Seq<u32>, start: int, size: int, t: u32, l: u32) -> bool {
    l < size && t <= i32::MAX && meta.row(ids[start + l] as int).contains(t as i32)
}

/// The tags of consecutive points, each with the position of its point, by
/// ascending tag and position.
fn tag_positions(meta: &SpMat, ids: &Vec<u32>, start: usize, size: usize) -> (pairs: Vec<(u32, u32)>)
    requires
        meta.wf(),
        start + size <= ids@.len() <= u32::MAX,
        forall|g: int| 0 <= g < ids@.len() ==> #[trigger] ids@[g] < meta.rows,
    ensures
        ascending(pairs@),
        forall|t: u32, l: u32|
            #[trigger] pairs@.contains((t, l)) <==> tagged(meta, ids@, start as int, size as int, t, l),
        pairs@.len() == tag_pairs(meta, ids@, start + size) - tag_pairs(meta, ids@, start as int),
{
    let mut pairs: Vec<(u32, u32)> = Vec::new();
    let mut l: usize = 0;
    while l < size
        invariant
            l <= size,
            meta.wf(),
            start + size <= ids@.len() <= u32::MAX,
            forall|g: int| 0 <= g < ids@.len() ==> #[trigger] ids@[g] < meta.rows,
            pairs@.no_duplicates(),
            forall|t: u32, m: u32|
                #[trigger] pairs@.contains((t, m)) <==> tagged(meta, ids@, start as int, l as int, t, m),
            pairs@.len() == tag_pairs(meta, ids@, start + l) - tag_pairs(meta, ids@, start as int),
        decreases size - l,
    {
        let id: usize = ids[start + l] as usize;
        assert(ids@[start + l] < meta.rows);
        let row = meta.row_tags(id);
        let tags = ascending_set(row);
        proof {
            ascending_is_sorted(tags@);
            tags@.unique_seq_to_set();
            assert(tags@.to_set() =~= row@.to_set());
        }
        let ghost before = pairs@;
        let ghost here = l as u32;
        let mut i: usize = 0;
        while i < tags.len()
            invariant
                i <= tags@.len(),
                l < size <= u32::MAX,
                here == l as u32,
                tags@.no_duplicates(),
                forall|x: i32| tags@.contains(x) ==> 0 <= x,
                pairs@.len() == before.len() + i,
                pairs@.no_duplicates(),
                forall|t: u32, m: u32|
                    before.contains((t, m)) ==> m < l,
                forall|t: u32, m: u32|
                    #[trigger] pairs@.contains((t, m)) <==> before.contains((t, m)) || (m == here && t
                        <= i32::MAX && tags@.take(i as int).contains(t as i32)),
            decreases tags@.len() - i,
        {
            let tag: u32 = tags[i] as u32;
            assert(tags@.contains(tags@[i as int]));
            let ghost some = pairs@;
            proof {
                let few = tags@.take(i as int);
                if some.contains((tag, here)) {
                    assert(few.contains(tag as i32));
                    let w = choose|w: int| 0 <= w < few.len() && few[w] == tag as i32;
                    assert(tags@[w] == tags@[i as int]);
                }
            }
            pairs.push((tag, l as u32));
            proof {
                let few = tags@.take(i as int);
                let more = tags@.take(i + 1);
                assert(more =~= few.push(tags@[i as int]));
                assert forall|t: u32, m: u32|
                    #[trigger] pairs@.contains((t, m)) <==> before.contains((t, m)) || (m == here && t
                        <= i32::MAX && more.contains(t as i32)) by {
                    pushed(some, (tag, here), (t, m));
                    if t <= i32::MAX {
                        pushed(few, tags@[i as int], t as i32);
                    }
                }
                assert(pairs@.no_duplicates()) by {
                    assert forall|a: int, b: int| 0 <= a < pairs@.len() && 0 <= b < pairs@.len() && a != b implies pairs@[a]
                        != pairs@[b] by {
                        if a < some.len() {
                            assert(some.contains(some[a]));
                        }
                        if b < some.len() {
                            assert(some.contains(some[b]));
                        }
                    }
                }
            }
            i = i + 1;
        }
        proof {
            assert(tags@.take(tags@.len() as int) =~= tags@);
            assert forall|t: u32, m: u32|
                #[trigger] pairs@.contains((t, m)) <==> tagged(meta, ids@, start as int, l + 1, t, m) by {
                assert(before.contains((t, m)) <==> tagged(meta, ids@, start as int, l as int, t, m));
                if m == here && t <= i32::MAX {
                    assert(tags@.contains(t as i32) <==> row@.contains(t as i32));
                }
            }
        }
        l = l + 1;
    }
    let out = sorted_copy(pairs.as_slice());
    proof {
        distinct_arrangement(pairs@);
        assert forall|t: u32, m: u32|
            #[trigger] out@.contains((t, m)) <==> tagged(meta, ids@, start as int, size as int, t, m) by {
            crate::order::arranged_holds(pairs@, (t, m));
            assert(pairs@.contains((t, m)) <==> tagged(meta, ids@, start as int, size as int, t, m));
        }
    }
    out
}

proof fn pushed<T>(a: Seq<T>, y: T, x: T)
    ensures
        a.push(y).contains(x) <==> a.contains(x) || x == y,
{
    let all = a.push(y);
    if a.contains(x) {
        let w = choose|w: int| 0 <= w < a.len() && a[w] == x;
        assert(all[w] == x);
    }
    assert(all[a.len() as int] == y);
    if all.contains(x) && x != y {
        let w = choose|w: int| 0 <= w < all.len() && all[w] == x;
        assert(a[w] == x);
    }
}

/// Distinct items in sorted order ascend.
proof fn distinct_arrangement<T: Ranked>(items: Seq<T>)
    requires
        items.no_duplicates(),
    ensures
        ascending(arranged(items)),
        arranged(items).len() == items.len(),
{
    let out = arranged(items);
    arranged_is_sorted(items);
    items.lemma_multiset_has_no_duplicates();
    out.lemma_multiset_has_no_duplicates_conv();
    assert forall|i: int, j: int| 0 <= i < j < out.len() implies out[i].rank() < out[j].rank() by {
        T::rank_identifies(out[i], out[j]);
    }
}

/// `long` starts with `short`.
spec fn starts_with<T>(long: Seq<T>, short: Seq<T>) -> bool {
    &&& short.len() <= long.len()
    &&& forall|i: int| 0 <= i < short.len() ==> long[i] == short[i]
}

/// Entries stay as they are when more are appended.
proof fn entries_stay(
    index: Seq<(u32, u32, u32)>,
    postings: Seq<u32>,
    index2: Seq<(u32, u32, u32)>,
    postings2: Seq<u32>,
    from: int,
    to: int,
    size: int,
)
    requires
        0 <= from <= to <= index.len(),
        entries_fit(index, postings, from, to, size),
        starts_with(index2, index),
        starts_with(postings2, postings),
    ensures
        entries_fit(index2, postings2, from, to, size),
        forall|t: u32, l: u32|
            #[trigger] listed(index2, postings2, from, to, t, l) <==> listed(index, postings, from, to, t, l),
        forall|e: int| from <= e < to ==> entry_list(index2, postings2, e) == #[trigger] entry_list(index, postings, e),
{
    assert forall|e: int| from <= e < to implies entry_list(index2, postings2, e) == #[trigger] entry_list(
        index,
        postings,
        e,
    ) by {
        assert(index2[e] == index[e]);
        assert(entry_list(index2, postings2, e) =~= entry_list(index, postings, e));
    }
    assert forall|e: int| from <= e < to implies {
        &&& (#[trigger] index2[e]).1 + index2[e].2 <= postings2.len()
        &&& index2[e].2 > 0
        &&& ascending(entry_list(index2, postings2, e))
        &&& forall|i: int|
            0 <= i < entry_list(index2, postings2, e).len() ==> #[trigger] entry_list(index2, postings2, e)[i]
                < size
    } by {
        assert(index2[e] == index[e]);
        assert(entry_list(index2, postings2, e) == entry_list(index, postings, e));
        assert forall|i: int|
            0 <= i < entry_list(index2, postings2, e).len() implies #[trigger] entry_list(index2, postings2, e)[i]
                < size by {
            assert(entry_list(index, postings, e)[i] < size);
        }
    }
    assert forall|t: u32, l: u32|
        #[trigger] listed(index2, postings2, from, to, t, l) <==> listed(index, postings, from, to, t, l) by {
        if listed(index2, postings2, from, to, t, l) {
            let e = choose|e: int|
                #[trigger] entry_for(index2, from, to, e, t) && entry_list(index2, postings2, e).contains(l);
            assert(index2[e] == index[e]);
            assert(entry_list(index2, postings2, e) == entry_list(index, postings, e));
            assert(entry_for(index, from, to, e, t));
        }
        if listed(index, postings, from, to, t, l) {
            let e = choose|e: int|
                #[trigger] entry_for(index, from, to, e, t) && entry_list(index, postings, e).contains(l);
            assert(index2[e] == index[e]);
            assert(entry_list(index2, postings2, e) == entry_list(index, postings, e));
            assert(entry_for(index2, from, to, e, t));
        }
    }
}

/// Appends one entry per tag of ascending `(tag, position)` pairs.
fn append_entries(
    pairs: &Vec<(u32, u32)>,
    size: usize,
    tag_index: &mut Vec<(u32, u32, u32)>,
    posting_ids: &mut Vec<u32>,
)
    requires
        ascending(pairs@),
        forall|i: int| 0 <= i < pairs@.len() ==> (#[trigger] pairs@[i]).1 < size,
        old(posting_ids)@.len() + pairs@.len() <= u32::MAX,
        old(tag_index)@.len() <= old(posting_ids)@.len(),
    ensures
        starts_with(final(tag_index)@, old(tag_index)@),
        starts_with(final(posting_ids)@, old(posting_ids)@),
        final(posting_ids)@.len() == old(posting_ids)@.len() + pairs@.len(),
        final(tag_index)@.len() <= final(posting_ids)@.len(),
        entries_fit(
            final(tag_index)@,
            final(posting_ids)@,
            old(tag_index)@.len() as int,
            final(tag_index)@.len() as int,
            size as int,
        ),
        forall|t: u32, l: u32|
            #[trigger] listed(
                final(tag_index)@,
                final(posting_ids)@,
                old(tag_index)@.len() as int,
                final(tag_index)@.len() as int,
                t,
                l,
            ) <==> pairs@.contains((t, l)),
{
    let ghost from = tag_index@.len() as int;
    let ghost index0 = tag_index@;
    let ghost postings0 = posting_ids@;
    let mut i: usize = 0;
    while i < pairs.len()
        invariant
            i <= pairs@.len(),
            ascending(pairs@),
            forall|k: int| 0 <= k < pairs@.len() ==> (#[trigger] pairs@[k]).1 < size,
            postings0.len() + pairs@.len() <= u32::MAX,
            from == index0.len(),
            from <= tag_index@.len(),
            tag_index@.len() <= posting_ids@.len(),
            posting_ids@.len() == postings0.len() + i,
            starts_with(tag_index@, index0),
            starts_with(posting_ids@, postings0),
            entries_fit(tag_index@, posting_ids@, from, tag_index@.len() as int, size as int),
            forall|e: int| from <= e < tag_index@.len() && i < pairs@.len() ==> (#[trigger] tag_index@[e]).0 < pairs@[i as int].0,
            forall|t: u32, l: u32|
                #[trigger] listed(tag_index@, posting_ids@, from, tag_index@.len() as int, t, l)
                    <==> pairs@.take(i as int).contains((t, l)),
        decreases pairs@.len() - i,
    {
        let tag: u32 = pairs[i].0;
        let begin: u32 = posting_ids.len() as u32;
        let ghost index1 = tag_index@;
        let ghost postings1 = posting_ids@;
        let mut j: usize = i;
        while j < pairs.len() && pairs[j].0 == tag
            invariant
                i <= j <= pairs@.len(),
                i < pairs@.len(),
                tag == pairs@[i as int].0,
                posting_ids@.len() == postings1.len() + (j - i),
                starts_with(posting_ids@, postings1),
                forall|k: int| i <= k < j ==> (#[trigger] pairs@[k]).0 == tag,
                forall|k: int|
                    i <= k < j ==> #[trigger] posting_ids@[postings1.len() + (k - i)] == pairs@[k].1,
            decreases pairs@.len() - j,
        {
            posting_ids.push(pairs[j].1);
            j = j + 1;
        }
        tag_index.push((tag, begin, (j - i) as u32));
        proof {
            appended_entry(pairs@, index1, postings1, tag_index@, posting_ids@, from, i as int, j as int, size as int);
        }
        i = j;
    }
    assert(pairs@.take(pairs@.len() as int) =~= pairs@);
}

proof fn appended_entry(
    pairs: Seq<(u32, u32)>,
    index1: Seq<(u32, u32, u32)>,
    postings1: Seq<u32>,
    index2: Seq<(u32, u32, u32)>,
    postings2: Seq<u32>,
    from: int,
    i: int,
    j: int,
    size: int,
)
    requires
        ascending(pairs),
        forall|k: int| 0 <= k < pairs.len() ==> (#[trigger] pairs[k]).1 < size,
        0 <= from <= index1.len(),
        0 <= i < j <= pairs.len() <= u32::MAX,
        postings1.len() + (j - i) <= u32::MAX,
        entries_fit(index1, postings1, from, index1.len() as int, size),
        forall|e: int| from <= e < index1.len() ==> (#[trigger] index1[e]).0 < pairs[i].0,
        forall|t: u32, l: u32|
            #[trigger] listed(index1, postings1, from, index1.len() as int, t, l) <==> pairs.take(i).contains((t, l)),
        index2 == index1.push((pairs[i].0, postings1.len() as u32, (j - i) as u32)),
        starts_with(postings2, postings1),
        postings2.len() == postings1.len() + (j - i),
        forall|k: int| i <= k < j ==> (#[trigger] pairs[k]).0 == pairs[i].0,
        forall|k: int| i <= k < j ==> #[trigger] postings2[postings1.len() + (k - i)] == pairs[k].1,
        j < pairs.len() ==> pairs[j].0 != pairs[i].0,
    ensures
        entries_fit(index2, postings2, from, index2.len() as int, size),
        forall|e: int| from <= e < index2.len() && j < pairs.len() ==> (#[trigger] index2[e]).0 < pairs[j].0,
        forall|t: u32, l: u32|
            #[trigger] listed(index2, postings2, from, index2.len() as int, t, l) <==> pairs.take(j).contains((t, l)),
{
    let last = index1.len() as int;
    let tag = pairs[i].0;
    let list = entry_list(index2, postings2, last);
    entries_stay(index1, postings1, index2, postings2, from, last, size);
    assert(list.len() == j - i);
    assert forall|k: int| 0 <= k < list.len() implies list[k] == pairs[i + k].1 by {
        assert(postings2[postings1.len() + ((i + k) - i)] == pairs[i + k].1);
    }
    assert(ascending(list)) by {
        assert forall|a: int, b: int| 0 <= a < b < list.len() implies list[a].rank() < list[b].rank() by {
            assert(pairs[i + a].rank() < pairs[i + b].rank());
            assert(pairs[i + a].0 == tag);
            assert(pairs[i + b].0 == tag);
        }
    }
    assert forall|e: int| from <= e < index2.len() implies {
        &&& (#[trigger] index2[e]).1 + index2[e].2 <= postings2.len()
        &&& index2[e].2 > 0
        &&& ascending(entry_list(index2, postings2, e))
        &&& forall|k: int|
            0 <= k < entry_list(index2, postings2, e).len() ==> #[trigger] entry_list(index2, postings2, e)[k]
                < size
    } by {
        if e == last {
            assert forall|k: int| 0 <= k < list.len() implies #[trigger] list[k] < size by {
                assert(pairs[i + k].1 < size);
            }
        }
    }
    assert forall|a: int, b: int| from <= a < b < index2.len() implies (#[trigger] index2[a]).0 < (#[trigger] index2[b]).0 by {
        if b == last {
            assert(index1[a].0 < pairs[i].0);
        } else {
            assert(index1[a].0 < index1[b].0);
        }
    }
    assert forall|t: u32, l: u32|
        #[trigger] listed(index2, postings2, from, index2.len() as int, t, l) <==> pairs.take(j).contains((t, l)) by {
        let few = pairs.take(i);
        let many = pairs.take(j);
        assert(listed(index2, postings2, from, last, t, l) <==> few.contains((t, l)));
        if listed(index2, postings2, from, index2.len() as int, t, l) {
            let e = choose|e: int|
                #[trigger] entry_for(index2, from, index2.len() as int, e, t) && entry_list(index2, postings2, e).contains(l);
            if e == last {
                let k = choose|k: int| 0 <= k < list.len() && list[k] == l;
                assert(pairs[i + k].0 == tag);
                assert(many[i + k] == (t, l));
            } else {
                assert(entry_for(index2, from, last, e, t));
                let w = choose|w: int| 0 <= w < few.len() && few[w] == (t, l);
                assert(many[w] == (t, l));
            }
        }
        if many.contains((t, l)) {
            let w = choose|w: int| 0 <= w < many.len() && many[w] == (t, l);
            if w < i {
                assert(few[w] == (t, l));
                let e = choose|e: int|
                    #[trigger] entry_for(index2, from, last, e, t) && entry_list(index2, postings2, e).contains(l);
                assert(entry_for(index2, from, index2.len() as int, e, t));
            } else {
                assert(pairs[w].0 == tag);
                assert(list[w - i] == l);
                assert(entry_for(index2, from, index2.len() as int, last, t));
                assert(list.contains(l));
            }
        }
    }
    if j < pairs.len() {
        assert(pairs[i].rank() < pairs[j].rank());
    }
}

/// The entries of a cluster list exactly the tags of its points.
spec fn posted(
    index: Seq<(u32, u32, u32)>,
    postings: Seq<u32>,
    from: int,
    to: int,
    meta: &SpMat,
    ids: Seq<u32>,
    start: int,
    size: int,
) -> bool {
    &&& 0 <= from <= to <= index.len()
    &&& entries_fit(index, postings, from, to, size)
    &&& forall|t: u32, l: u32|
        #[trigger] listed(index, postings, from, to, t, l) <==> tagged(meta, ids, start, size, t, l)
}

/// Cluster `c` is posted between its offsets.
spec fn posted_at(
    index: Seq<(u32, u32, u32)>,
    postings: Seq<u32>,
    offsets: Seq<u32>,
    meta: &SpMat,
    ids: Seq<u32>,
    starts: Seq<u32>,
    c: int,
) -> bool {
    posted(
        index,
        postings,
        offsets[c] as int,
        offsets[c + 1] as int,
        meta,
        ids,
        starts[c] as int,
        starts[c + 1] - starts[c],
    )
}

/// The tags of cluster `c` ascend.
spec fn tags_ascend_at(index: Seq<(u32, u32, u32)>, offsets: Seq<u32>, c: int) -> bool {
    tags_ascend(index, offsets[c] as int, offsets[c + 1] as int)
}

proof fn posted_stays(
    index: Seq<(u32, u32, u32)>,
    postings: Seq<u32>,
    index2: Seq<(u32, u32, u32)>,
    postings2: Seq<u32>,
    from: int,
    to: int,
    meta: &SpMat,
    ids: Seq<u32>,
    start: int,
    size: int,
)
    requires
        posted(index, postings, from, to, meta, ids, start, size),
        starts_with(index2, index),
        starts_with(postings2, postings),
    ensures
        posted(index2, postings2, from, to, meta, ids, start, size),
{
    entries_stay(index, postings, index2, postings2, from, to, size);
}

/// Tag entries and postings of every cluster.
fn build_postings(meta: &SpMat, ids: &Vec<u32>, starts: &Vec<u32>, n_clusters: usize) -> (result: PrismResult<
    (Vec<u32>, Vec<(u32, u32, u32)>, Vec<u32>),
>)
    requires
        meta.wf(),
        ids@.len() <= u32::MAX,
        n_clusters <= 0x1_0000,
        forall|g: int| 0 <= g < ids@.len() ==> #[trigger] ids@[g] < meta.rows,
        boundaries(starts@, n_clusters as int, ids@.len() as int),
    ensures
        ends(
            result,
            if tag_pairs(meta, ids@, ids@.len() as int) > u32::MAX {
                Verdict::Overflow
            } else {
                Verdict::Accepted
            },
        ),
        result matches Ok(parts) ==> {
            &&& boundaries(parts.0@, n_clusters as int, parts.1@.len() as int)
            &&& forall|c: int|
                0 <= c < n_clusters ==> #[trigger] posted_at(
                    parts.1@,
                    parts.2@,
                    parts.0@,
                    meta,
                    ids@,
                    starts@,
                    c,
                )
        },
{
    let mut offsets: Vec<u32> = Vec::new();
    let mut index: Vec<(u32, u32, u32)> = Vec::new();
    let mut postings: Vec<u32> = Vec::new();
    offsets.push(0);
    let mut c: usize = 0;
    while c < n_clusters
        invariant
            c <= n_clusters <= 0x1_0000,
            meta.wf(),
            ids@.len() <= u32::MAX,
            forall|g: int| 0 <= g < ids@.len() ==> #[trigger] ids@[g] < meta.rows,
            boundaries(starts@, n_clusters as int, ids@.len() as int),
            postings@.len() == tag_pairs(meta, ids@, starts@[c as int] as int),
            postings@.len() <= u32::MAX,
            index@.len() <= postings@.len(),
            boundaries(offsets@, c as int, index@.len() as int),
            forall|d: int|
                0 <= d < c ==> #[trigger] posted_at(
                    index@,
                    postings@,
                    offsets@,
                    meta,
                    ids@,
                    starts@,
                    d,
                ),
        decreases n_clusters - c,
    {
        proof {
            assert(starts@[c as int] <= starts@[c + 1]);
            assert(starts@[c + 1] <= starts@[n_clusters as int]);
        }
        let start: usize = starts[c] as usize;
        let size: usize = starts[c + 1] as usize - start;
        let pairs = tag_positions(meta, ids, start, size);
        proof {
            tag_pairs_grow(meta, ids@, start + size, ids@.len() as int);
            assert forall|i: int| 0 <= i < pairs@.len() implies (#[trigger] pairs@[i]).1 < size by {
                let (t, l) = pairs@[i];
                assert(pairs@.contains((t, l)));
            }
        }
        if pairs.len() > u32::MAX as usize - postings.len() {
            return Err(overflow("posting storage exceeds the u32 offset space"));
        }
        let ghost index1 = index@;
        let ghost postings1 = postings@;
        let ghost offsets1 = offsets@;
        append_entries(&pairs, size, &mut index, &mut postings);
        offsets.push(index.len() as u32);
        proof {
            assert forall|a: int, b: int| 0 <= a <= b <= c + 1 implies offsets@[a] <= offsets@[b] by {
                if b == c + 1 && a <= c {
                    assert(offsets1[a] <= offsets1[c as int]);
                }
            }
            assert forall|d: int| 0 <= d < c + 1 implies #[trigger] posted_at(
                index@,
                postings@,
                offsets@,
                meta,
                ids@,
                starts@,
                d,
            ) by {
                if d < c {
                    assert(posted_at(index1, postings1, offsets1, meta, ids@, starts@, d));
                    assert(offsets@[d] == offsets1[d]);
                    assert(offsets@[d + 1] == offsets1[d + 1]);
                    posted_stays(
                        index1,
                        postings1,
                        index@,
                        postings@,
                        offsets1[d] as int,
                        offsets1[d + 1] as int,
                        meta,
                        ids@,
                        starts@[d] as int,
                        starts@[d + 1] - starts@[d],
                    );
                } else {
                    assert forall|t: u32, l: u32|
                        #[trigger] listed(index@, postings@, offsets@[d] as int, offsets@[d + 1] as int, t, l)
                            <==> tagged(meta, ids@, start as int, size as int, t, l) by {
                        assert(pairs@.contains((t, l)) <==> tagged(
                            meta,
                            ids@,
                            start as int,
                            size as int,
                            t,
                            l,
                        ));
                    }
                }
            }
        }
        c = c + 1;
    }
    Ok((offsets, index, postings))
}

proof fn tag_pairs_grow(meta: &SpMat, ids: Seq<u32>, g: int, h: int)
    requires
        0 <= g <= h,
    ensures
        tag_pairs(meta, ids, g) <= tag_pairs(meta, ids, h),
    decreases h,
{
    if g < h {
        tag_pairs_grow(meta, ids, g, h - 1);
    }
}

/// Appends cluster `c` to the lists of the tags of its entries.
fn list_cluster(
    index: &Vec<(u32, u32, u32)>,
    from: usize,
    to: usize,
    c: u16,
    lists: &mut HashMap<u32, Vec<u16>>,
)
    requires
        from <= to <= index@.len(),
        tags_ascend(index@, from as int, to as int),
    ensures
        forall|t: u32|
            #[trigger] extended_with(
                old(lists)@,
                final(lists)@,
                c,
                t,
                index@,
                from as int,
                to as int,
            ),
{
    broadcast use group_hash_axioms;

    let ghost lists0 = lists@;
    let mut e: usize = from;
    while e < to
        invariant
            from <= e <= to <= index@.len(),
            tags_ascend(index@, from as int, to as int),
            forall|t: u32|
                #[trigger] extended_with(lists0, lists@, c, t, index@, from as int, e as int),
        decreases to - e,
    {
        broadcast use group_hash_axioms;

        let tag: u32 = index[e].0;
        let ghost before = lists@;
        assert(!has_entry(index@, from as int, e as int, tag)) by {
            if has_entry(index@, from as int, e as int, tag) {
                let x = choose|x: int| #[trigger] entry_for(index@, from as int, e as int, x, tag);
                assert(index@[x].0 < index@[e as int].0);
            }
        }
        assert(extended_with(lists0, before, c, tag, index@, from as int, e as int));
        let mut list: Vec<u16> = match lists.remove(&tag) {
            Some(list) => list,
            None => Vec::new(),
        };
        list.push(c);
        let _ = lists.insert(tag, list);
        proof {
            assert(lists@ =~= before.insert(tag, lists@[tag]));
            assert forall|t: u32|
                #[trigger] extended_with(lists0, lists@, c, t, index@, from as int, e + 1) by {
                assert(extended_with(lists0, before, c, t, index@, from as int, e as int));
                one_more_entry(index@, from as int, e as int, t);
            }
        }
        e = e + 1;
    }
}

proof fn one_more_entry(index: Seq<(u32, u32, u32)>, from: int, to: int, t: u32)
    requires
        from <= to < index.len(),
    ensures
        has_entry(index, from, to + 1, t) <==> has_entry(index, from, to, t) || index[to].0 == t,
{
    if has_entry(index, from, to + 1, t) && index[to].0 != t {
        let x = choose|x: int| #[trigger] entry_for(index, from, to + 1, x, t);
        assert(entry_for(index, from, to, x, t));
    }
    if has_entry(index, from, to, t) {
        let x = choose|x: int| #[trigger] entry_for(index, from, to, x, t);
        assert(entry_for(index, from, to + 1, x, t));
    }
    if index[to].0 == t {
        assert(entry_for(index, from, to + 1, to, t));
    }
}

/// The clusters in which each tag occurs.
fn clusters_by_tag(offsets: &Vec<u32>, index: &Vec<(u32, u32, u32)>, n_clusters: usize) -> (lists: HashMap<
    u32,
    Vec<u16>,
>)
    requires
        n_clusters <= 0x1_0000,
        boundaries(offsets@, n_clusters as int, index@.len() as int),
        forall|c: int|
            0 <= c < n_clusters ==> #[trigger] tags_ascend_at(index@, offsets@, c),
    ensures
        forall|t: u32|
            #[trigger] clusters_listed(lists@, offsets@, index@, n_clusters as int, t),
{
    broadcast use group_hash_axioms;

    let mut lists: HashMap<u32, Vec<u16>> = HashMap::new();
    let mut c: usize = 0;
    while c < n_clusters
        invariant
            c <= n_clusters <= 0x1_0000,
            boundaries(offsets@, n_clusters as int, index@.len() as int),
            forall|d: int|
                0 <= d < n_clusters ==> #[trigger] tags_ascend_at(index@, offsets@, d),
            forall|t: u32| #[trigger] clusters_listed(lists@, offsets@, index@, c as int, t),
        decreases n_clusters - c,
    {
        proof {
            assert(offsets@[c as int] <= offsets@[c + 1]);
            assert(offsets@[c + 1] <= offsets@[n_clusters as int]);
        }
        let from: usize = offsets[c] as usize;
        let to: usize = offsets[c + 1] as usize;
        let ghost before = lists@;
        assert(tags_ascend_at(index@, offsets@, c as int));
        list_cluster(index, from, to, c as u16, &mut lists);
        proof {
            assert forall|t: u32| #[trigger] clusters_listed(lists@, offsets@, index@, c + 1, t) by {
                assert(clusters_listed(before, offsets@, index@, c as int, t));
                assert(extended_with(before, lists@, c as u16, t, index@, from as int, to as int));
                longer_cluster_list(before, lists@, offsets@, index@, c as int, t);
            }
        }
        c = c + 1;
    }
    lists
}

/// The list of tag `t` has cluster `c` appended if one of its entries is for
/// that tag, and is unchanged otherwise.
spec fn extended_with(
    before: Map<u32, Vec<u16>>,
    after: Map<u32, Vec<u16>>,
    c: u16,
    t: u32,
    index: Seq<(u32, u32, u32)>,
    from: int,
    to: int,
) -> bool {
    if has_entry(index, from, to, t) {
        after.contains_key(t) && after[t]@ == (if before.contains_key(t) {
            before[t]@
        } else {
            Seq::empty()
        }).push(c)
    } else {
        after.contains_key(t) == before.contains_key(t) && (before.contains_key(t) ==> after[t]
            == before[t])
    }
}

proof fn longer_cluster_list(
    before: Map<u32, Vec<u16>>,
    after: Map<u32, Vec<u16>>,
    offsets: Seq<u32>,
    index: Seq<(u32, u32, u32)>,
    c: int,
    t: u32,
)
    requires
        0 <= c < 0x1_0000,
        clusters_listed(before, offsets, index, c, t),
        extended_with(before, after, c as u16, t, index, offsets[c] as int, offsets[c + 1] as int),
    ensures
        clusters_listed(after, offsets, index, c + 1, t),
{
    if occurs(offsets, index, c, t) {
        let had = if before.contains_key(t) {
            before[t]@
        } else {
            Seq::empty()
        };
        let now = after[t]@;
        assert forall|d: u16| #![trigger after[t]@.contains(d)] after[t]@.contains(d) <==> d < c + 1 && occurs(
            offsets,
            index,
            d as int,
            t,
        ) by {
            pushed(had, c as u16, d);
            if before.contains_key(t) {
                assert(before[t]@.contains(d) <==> d < c && occurs(offsets, index, d as int, t));
            } else if d < c {
                assert(!occurs(offsets, index, d as int, t));
            }
        }
        assert forall|a: int, b: int| 0 <= a < b < now.len() implies now[a].rank() < now[b].rank() by {
            if b == had.len() {
                assert(before.contains_key(t));
                assert(before[t]@.contains(had[a]));
            }
        }
    } else if before.contains_key(t) {
        assert forall|d: u16| #![trigger after[t]@.contains(d)] after[t]@.contains(d) <==> d < c + 1 && occurs(
            offsets,
            index,
            d as int,
            t,
        ) by {
            assert(before[t]@.contains(d) <==> d < c && occurs(offsets, index, d as int, t));
        }
    } else {
        assert forall|d: int| 0 <= d < c + 1 implies !#[trigger] occurs(offsets, index, d, t) by {
        }
    }
}

/// Checks points, assignments and tags.
fn check_points(
    base: &VecStore,
    meta: &SpMat,
    assignments: &[u16],
    n: usize,
    dim: usize,
    n_clusters: usize,
) -> (result: PrismResult<()>)
    ensures
        ends(
            result,
            points_verdict(
                base,
                meta,
                assignments@,
                n as int,
                dim as int,
                n_clusters as int,
            ),
        ),
{
    if n == 0 {
        return Err(invalid_input("IVF index requires at least one vector"));
    }
    if dim == 0 {
        return Err(invalid_input("IVF vector dimension must be greater than zero"));
    }
    if n as u64 > u32::MAX as u64 {
        return Err(overflow("IVF point count exceeds the u32 identifier space"));
    }
    if n_clusters < 1 || n_clusters > n {
        return Err(invalid_input("IVF cluster count must be between 1 and the point count"));
    }
    if n_clusters > 0x1_0000 {
        return Err(overflow("IVF cluster count exceeds the u16 assignment space"));
    }
    let expected: usize = match n.checked_mul(dim) {
        Some(expected) => expected,
        None => {
            return Err(overflow("IVF vector shape exceeds addressable memory"));
        },
    };
    if base.len() != expected {
        return Err(invalid_input("IVF vector data length must equal n * dimension"));
    }
    if let VecStore::F32(values) = base {
        if !check_domain(values.as_slice(), dim) {
            return Err(invalid_input("IVF vector must be finite and within the distance domain"));
        }
    }
    if assignments.len() != n {
        return Err(invalid_input("IVF assignment count must equal point count"));
    }
    let mut i: usize = 0;
    while i < n
        invariant
            i <= n,
            assignments@.len() == n,
            n_clusters <= 0x1_0000,
            n_clusters <= n <= u32::MAX,
            n_clusters >= 1,
            dim > 0,
            n * dim <= usize::MAX,
            base.count() == n * dim,
            base is F32 ==> all_in_domain(base.patterns(), dim as int),
            forall|j: int| 0 <= j < i ==> #[trigger] assignments@[j] < n_clusters,
        decreases n - i,
    {
        if assignments[i] as usize >= n_clusters {
            return Err(invalid_input("IVF point has an out-of-range cluster"));
        }
        i = i + 1;
    }
    meta.validate(n)
}

/// Identifiers of the points, in order.
fn identifiers(order: &Vec<Place>) -> (ids: Vec<u32>)
    ensures
        ids@ == order@.map_values(|place: Place| place.2),
{
    let mut ids: Vec<u32> = Vec::new();
    let mut g: usize = 0;
    while g < order.len()
        invariant
            g <= order@.len(),
            ids@.len() == g,
            forall|i: int| 0 <= i < g ==> #[trigger] ids@[i] == order@[i].2,
        decreases order@.len() - g,
    {
        ids.push(order[g].2);
        g = g + 1;
    }
    assert(ids@ =~= order@.map_values(|place: Place| place.2));
    ids
}

impl IvfIndex {
    /// The vectors, cluster after cluster.
    pub fn vectors(&self) -> (vectors: &VecStore)
        ensures
            *vectors == self.vectors,
    {
        &self.vectors
    }

    /// Original identifier of each reordered point.
    pub fn original_ids(&self) -> (ids: &[u32])
        ensures
            ids@ == self.original_ids@,
    {
        self.original_ids.as_slice()
    }

    /// First reordered point of each cluster, and the number of points.
    pub fn cluster_starts(&self) -> (starts: &[u32])
        ensures
            starts@ == self.cluster_starts@,
    {
        self.cluster_starts.as_slice()
    }

    /// The clusters in which a tag occurs, ascending; none for a tag that
    /// occurs nowhere.
    pub fn clusters_for_tag(&self, tag: usize) -> (clusters: Option<&[u16]>)
        requires
            self.wf(),
        ensures
            clusters is Some <==> tag <= u32::MAX && exists|c: int|
                0 <= c < self.n_clusters && #[trigger] occurs(
                    self.tag_offsets@,
                    self.tag_index@,
                    c,
                    tag as u32,
                ),
            clusters matches Some(list) ==> ascending(list@) && forall|c: u16|
                #![trigger list@.contains(c)]
                list@.contains(c) <==> c < self.n_clusters && occurs(
                    self.tag_offsets@,
                    self.tag_index@,
                    c as int,
                    tag as u32,
                ),
    {
        broadcast use group_hash_axioms;

        if tag as u64 > u32::MAX as u64 {
            return None;
        }
        let tag: u32 = tag as u32;
        assert(clusters_listed(
            self.tag_clusters@,
            self.tag_offsets@,
            self.tag_index@,
            self.n_clusters as int,
            tag,
        ));
        match self.tag_clusters.get(&tag) {
            Some(list) => {
                proof {
                    assert(list@.contains(list@[0]));
                    let c = list@[0];
                    assert(occurs(self.tag_offsets@, self.tag_index@, c as int, tag));
                }
                Some(list.as_slice())
            },
            None => None,
        }
    }

    /// Number of tags that exist.
    pub fn n_tags(&self) -> (count: usize)
        ensures
            count == self.n_tags,
    {
        self.n_tags
    }

    /// Coordinates per vector.
    pub fn dim(&self) -> (dim: usize)
        ensures
            dim == self.dim,
    {
        self.dim
    }

    /// Number of clusters.
    pub fn n_clusters(&self) -> (count: usize)
        ensures
            count == self.n_clusters,
    {
        self.n_clusters
    }

    /// Number of points.
    pub fn len(&self) -> (count: usize)
        ensures
            count == self.original_ids@.len(),
    {
        self.original_ids.len()
    }

    /// Whether there are no points.
    pub fn is_empty(&self) -> (empty: bool)
        ensures
            empty == (self.original_ids@.len() == 0),
    {
        self.original_ids.len() == 0
    }

    /// Positions within a cluster of the points with a tag.
    pub fn lookup_tag(&self, cluster: usize, tag: usize) -> (list: &[u32])
        requires
            self.wf(),
            cluster < self.n_clusters,
        ensures
            ascending(list@),
            forall|l: u32|
                #![trigger list@.contains(l)]
                list@.contains(l) <==> tag <= u32::MAX && self.carries(cluster as int, l, tag as u32),
    {
        let postings = self.posting_ids.as_slice();
        if tag as u64 > u32::MAX as u64 {
            return vstd::slice::slice_subrange(postings, 0, 0);
        }
        let tag: u32 = tag as u32;
        let ghost c = cluster as int;
        proof {
            assert(self.cluster_entries_fit(c));
            assert(self.tag_offsets@[c] <= self.tag_offsets@[c + 1]);
            assert(self.tag_offsets@[c + 1] <= self.tag_offsets@[self.n_clusters as int]);
        }
        let from: usize = self.tag_offsets[cluster] as usize;
        let to: usize = self.tag_offsets[cluster + 1] as usize;
        let mut low: usize = from;
        let mut high: usize = to;
        while low < high
            invariant
                from <= low <= high <= to <= self.tag_index@.len(),
                tags_ascend(self.tag_index@, from as int, to as int),
                forall|e: int| from <= e < low ==> (#[trigger] self.tag_index@[e]).0 < tag,
                forall|e: int| high <= e < to ==> (#[trigger] self.tag_index@[e]).0 >= tag,
            decreases high - low,
        {
            let mid: usize = low + (high - low) / 2;
            if self.tag_index[mid].0 < tag {
                low = mid + 1;
            } else {
                high = mid;
            }
        }
        if low < to && self.tag_index[low].0 == tag {
            let start: usize = self.tag_index[low].1 as usize;
            let len: usize = self.tag_index[low].2 as usize;
            assert(self.tag_index@[low as int].1 + self.tag_index@[low as int].2
                <= self.posting_ids@.len());
            assert(postings@.len() == postings.len());
            let list = vstd::slice::slice_subrange(postings, start, start + len);
            proof {
                assert(list@ == entry_list(self.tag_index@, self.posting_ids@, low as int));
                assert(entry_for(self.tag_index@, from as int, to as int, low as int, tag));
                assert forall|l: u32|
                    #![trigger list@.contains(l)]
                    list@.contains(l) <==> self.carries(c, l, tag) by {
                    if self.carries(c, l, tag) {
                        let e = choose|e: int|
                            #[trigger] entry_for(self.tag_index@, from as int, to as int, e, tag)
                                && entry_list(self.tag_index@, self.posting_ids@, e).contains(l);
                        if e < low {
                            assert(self.tag_index@[e].0 < tag);
                        } else if e > low {
                            assert(self.tag_index@[low as int].0 < self.tag_index@[e].0);
                        }
                    }
                }
            }
            list
        } else {
            proof {
                assert forall|l: u32| !self.carries(c, l, tag) by {
                    if self.carries(c, l, tag) {
                        let e = choose|e: int|
                            #[trigger] entry_for(self.tag_index@, from as int, to as int, e, tag)
                                && entry_list(self.tag_index@, self.posting_ids@, e).contains(l);
                        if e < low {
                            assert(self.tag_index@[e].0 < tag);
                        } else if e > low {
                            assert(self.tag_index@[low as int].0 < self.tag_index@[e].0);
                        }
                    }
                }
            }
            vstd::slice::slice_subrange(postings, 0, 0)
        }
    }

    /// Builds an index over clustered vectors: reorders them by cluster and,
    /// within a cluster, by their most frequent tag, and lists for every
    /// cluster the points of each tag.  `rotate` tells, for a single-precision
    /// vector, signs and a block length, which coordinates of the transform are
    /// not negative.
    pub fn build<F: Fn(&[u32], &[u32], usize) -> Vec<bool>>(
        base: &VecStore,
        base_meta: &SpMat,
        assignments: &[u16],
        n: usize,
        dim: usize,
        n_clusters: usize,
        rotate: &F,
    ) -> (result: PrismResult<IvfIndex>)
        requires
            base is F32 ==> gives_flags(*rotate, dim as int),
        ensures
            ends(
                result,
                build_verdict(
                    base,
                    base_meta,
                    assignments@,
                    n as int,
                    dim as int,
                    n_clusters as int,
                ),
            ),
            result matches Ok(index) ==> {
                &&& index.wf()
                &&& index.dim == dim
                &&& index.n_clusters == n_clusters
                &&& index.holds_points(base, base_meta, assignments@, n as int)
                &&& index.sketched(*rotate)
            },
    {
        match check_points(base, base_meta, assignments, n, dim, n_clusters) {
            Ok(_) => {},
            Err(error) => {
                return Err(error);
            },
        }
        let order = arrange_points(base_meta, assignments, n);
        proof {
            places_are_a_permutation(base_meta, assignments@, n as int);
            assert forall|g: int| 0 <= g < order@.len() implies (#[trigger] order@[g]).0 < n_clusters by {
                assert(layout(base_meta, assignments@, n as int)[g] < n);
                assert(assignments@[order@[g].2 as int] < n_clusters);
            }
        }
        let cluster_starts = cluster_bounds(&order, n_clusters);
        let original_ids = identifiers(&order);
        assert(original_ids@ == layout(base_meta, assignments@, n as int));
        let (tag_offsets, tag_index, posting_ids) = match build_postings(
            base_meta,
            &original_ids,
            &cluster_starts,
            n_clusters,
        ) {
            Ok(parts) => parts,
            Err(error) => {
                return Err(error);
            },
        };
        proof {
            assert forall|c: int| 0 <= c < n_clusters implies #[trigger] tags_ascend_at(
                tag_index@,
                tag_offsets@,
                c,
            ) by {
                assert(posted_at(
                    tag_index@,
                    posting_ids@,
                    tag_offsets@,
                    base_meta,
                    original_ids@,
                    cluster_starts@,
                    c,
                ));
            }
        }
        let tag_clusters = clusters_by_tag(&tag_offsets, &tag_index, n_clusters);
        let (vectors, binary) = match base {
            VecStore::U8(values) => {
                let rows = reorder_rows(values, &original_ids, dim);
                proof {
                    crate::binary::whole_count(n as int, dim as int);
                }
                match BinaryStore::build_from_u8(&rows, dim) {
                    Ok(binary) => (VecStore::U8(rows), binary),
                    Err(error) => { return Err(error); },
                }
            },
            VecStore::F32(values) => {
                let rows = reorder_rows(values, &original_ids, dim);
                proof {
                    crate::binary::whole_count(n as int, dim as int);
                    reordering_stays_in_domain(values@, rows@, original_ids@, dim as int);
                }
                match BinaryStore::build_from_f32(&rows, dim, rotate) {
                    Ok(binary) => (VecStore::F32(rows), binary),
                    Err(error) => { return Err(error); },
                }
            },
        };
        let index = IvfIndex {
            vectors,
            original_ids,
            cluster_starts,
            tag_offsets,
            tag_index,
            posting_ids,
            tag_clusters,
            n_tags: base_meta.cols,
            binary,
            dim,
            n_clusters,
        };
        proof {
            assert forall|c: int| 0 <= c < n_clusters implies #[trigger] index.cluster_entries_fit(c) by {
                assert(posted_at(
                    index.tag_index@,
                    index.posting_ids@,
                    index.tag_offsets@,
                    base_meta,
                    index.original_ids@,
                    index.cluster_starts@,
                    c,
                ));
            }
            assert forall|c: int, l: u32, t: u32| 0 <= c < n_clusters implies (#[trigger] index.carries(
                c,
                l,
                t,
            ) <==> l < index.cluster_size(c) && t <= i32::MAX && base_meta.row(
                index.original_ids@[index.cluster_starts@[c] + l] as int,
            ).contains(t as i32)) by {
                assert(posted_at(
                    index.tag_index@,
                    index.posting_ids@,
                    index.tag_offsets@,
                    base_meta,
                    index.original_ids@,
                    index.cluster_starts@,
                    c,
                ));
            }
            assert forall|c: int, g: int| 0 <= c < n_clusters && 0 <= g < n implies (
            #[trigger] index.in_cluster(c, g) <==> assignments@[index.original_ids@[g] as int] == c) by {
                assert(index.cluster_starts@[c] <= g <==> c <= order@[g].0);
                assert(index.cluster_starts@[c + 1] <= g <==> c + 1 <= order@[g].0);
            }
        }
        Ok(index)
    }
}

} // verus!
