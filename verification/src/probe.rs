//! Batched filtered search over the clusters of an inverted-file index.

use vstd::prelude::*;
use vstd::slice::slice_subrange;
use crate::binary::{byte_flags, pack, packed};
use crate::distance::{byte_distance, code_distance, hamming, l2_sq8};
use crate::error::{ends, invalid_input, overflow, PrismResult, Verdict};
use crate::ivf::IvfIndex;
use crate::order::{
    ascending, ascending_is_sorted, ascending_is_unique, common, lowest, sorted, Ranked,
};
use crate::point::row_bounds;
use crate::pure::{flags_of, gives_flags, measures, pair_value};
use crate::select::{nearest, offer, offered, offered_all, offered_all_is_nearest, Scored};
use crate::single::{all_in_domain, check_domain};
use crate::vecstore::{row_of, QueryStore, VecStore};

verus! {

/// The first `limit` different entries.
pub open spec fn first_distinct(entries: Seq<usize>, limit: int) -> Seq<usize>
    decreases entries.len(),
{
    if entries.len() == 0 {
        Seq::empty()
    } else {
        let before = first_distinct(entries.drop_last(), limit);
        if before.len() >= limit || before.contains(entries.last()) {
            before
        } else {
            before.push(entries.last())
        }
    }
}

/// How many candidates of a cluster are scored exactly at most; none means all.
pub open spec fn rerank_budget(binary_rerank: int, ef: int) -> int {
    if binary_rerank * ef > usize::MAX {
        usize::MAX as int
    } else {
        binary_rerank * ef
    }
}

/// Identifiers of the `k` best entries.
pub open spec fn best_ids(list: Seq<Scored>, k: int) -> Seq<u32> {
    list.take(if k < list.len() { k } else { list.len() as int }).map_values(|entry: Scored| entry.1)
}

impl<'a> QueryStore<'a> {
    /// The bytes; meaningful for byte queries.
    pub open spec fn bytes(&self) -> Seq<u8> {
        match self {
            QueryStore::U8(values) => values@,
            QueryStore::F32(_) => Seq::empty(),
        }
    }

    /// The bit patterns; meaningful for single-precision queries.
    pub open spec fn patterns(&self) -> Seq<u32> {
        match self {
            QueryStore::U8(_) => Seq::empty(),
            QueryStore::F32(values) => values@,
        }
    }
}

impl IvfIndex {
    /// The point at position `l` of cluster `c` has all of `tags`.
    pub open spec fn has_tags(&self, c: int, tags: Seq<usize>, l: int) -> bool {
        forall|i: int|
            0 <= i < tags.len() ==> #[trigger] tags[i] <= u32::MAX && self.carries(
                c,
                l as u32,
                tags[i] as u32,
            )
    }

    /// The positions below `upto` of cluster `c` whose points have all of `tags`.
    pub open spec fn matching(&self, c: int, tags: Seq<usize>, upto: int) -> Seq<u32>
        decreases upto,
    {
        if upto <= 0 {
            Seq::empty()
        } else if self.has_tags(c, tags, upto - 1) {
            self.matching(c, tags, upto - 1).push((upto - 1) as u32)
        } else {
            self.matching(c, tags, upto - 1)
        }
    }

    /// Positions of cluster `c` with the distances of their sketches from `code`.
    pub open spec fn sketch_scores(&self, c: int, positions: Seq<u32>, code: Seq<u64>) -> Seq<Scored> {
        positions.map_values(
            |l: u32|
                (code_distance(code, self.binary.code_of(self.cluster_starts@[c] + l)), l),
        )
    }

    /// The positions of cluster `c` that are scored exactly: all that match,
    /// or, if there are more than `budget`, those with the nearest sketches.
    pub open spec fn rescored(&self, c: int, tags: Seq<usize>, code: Seq<u64>, budget: int) -> Seq<u32> {
        let all = self.matching(c, tags, self.cluster_size(c));
        if 0 < budget < all.len() {
            lowest(self.sketch_scores(c, all, code), budget).map_values(|entry: Scored| entry.1)
        } else {
            all
        }
    }

    /// Distances and original identifiers of points of cluster `c`.
    pub open spec fn measured(&self, c: int, positions: Seq<u32>, distance: spec_fn(u32) -> u64) -> Seq<
        Scored,
    > {
        positions.map_values(
            |l: u32|
                (
                    distance((self.cluster_starts@[c] + l) as u32),
                    self.original_ids@[self.cluster_starts@[c] + l],
                ),
        )
    }

    /// The candidates in the first `upto` clusters, of those that are probed.
    pub open spec fn candidates(
        &self,
        probed: Seq<usize>,
        tags: Seq<usize>,
        code: Seq<u64>,
        budget: int,
        distance: spec_fn(u32) -> u64,
        upto: int,
    ) -> Seq<Scored>
        decreases upto,
    {
        if upto <= 0 {
            Seq::empty()
        } else {
            let before = self.candidates(probed, tags, code, budget, distance, upto - 1);
            if probed.contains((upto - 1) as usize) {
                before + self.measured(
                    upto - 1,
                    self.rescored(upto - 1, tags, code, budget),
                    distance,
                )
            } else {
                before
            }
        }
    }

    /// Distance of query `q` from reordered point `g`.
    pub open spec fn distance_to<M: Fn(&[u32], &[u32]) -> u32>(
        &self,
        queries: &QueryStore,
        measure: M,
        q: usize,
        g: u32,
    ) -> u64 {
        match self.vectors {
            VecStore::U8(bytes) => byte_distance(
                row_of(queries.bytes(), q as int, self.dim as int),
                row_of(bytes@, g as int, self.dim as int),
            ),
            VecStore::F32(patterns) => pair_value(
                measure,
                row_of(queries.patterns(), q as int, self.dim as int),
                row_of(patterns@, g as int, self.dim as int),
            ) as u64,
        }
    }

    /// Sketch of query `q`; none if sketches are not used.
    pub open spec fn sketch_of<R: Fn(&[u32], &[u32], usize) -> Vec<bool>>(
        &self,
        queries: &QueryStore,
        rotate: R,
        q: usize,
        binary_rerank: usize,
    ) -> Seq<u64> {
        if binary_rerank == 0 {
            Seq::empty()
        } else {
            packed(
                match self.vectors {
                    VecStore::U8(_) => byte_flags(
                        row_of(queries.bytes(), q as int, self.dim as int),
                        self.binary.signs@,
                        self.binary.block_size as int,
                    ),
                    VecStore::F32(_) => flags_of(
                        rotate,
                        row_of(queries.patterns(), q as int, self.dim as int),
                        self.binary.signs@,
                        self.binary.block_size,
                    ),
                },
            )
        }
    }

    /// The best `ef` candidates of query `q` in the first `upto` clusters.
    pub open spec fn pool<M: Fn(&[u32], &[u32]) -> u32, R: Fn(&[u32], &[u32], usize) -> Vec<bool>>(
        &self,
        queries: &QueryStore,
        q: usize,
        tags: Seq<usize>,
        top_clusters: Seq<usize>,
        ef: usize,
        n_probe: usize,
        binary_rerank: usize,
        measure: M,
        rotate: R,
        upto: int,
    ) -> Seq<Scored> {
        offered_all(
            Seq::empty(),
            self.candidates(
                first_distinct(top_clusters, n_probe as int),
                tags,
                self.sketch_of(queries, rotate, q, binary_rerank),
                rerank_budget(binary_rerank as int, ef as int),
                |g: u32| self.distance_to(queries, measure, q, g),
                upto,
            ),
            ef as int,
        )
    }

    /// Whether a batch of queries can be answered.
    pub open spec fn batch_verdict(
        &self,
        queries: &QueryStore,
        nq: int,
        query_tags: Seq<Vec<usize>>,
        query_top_clusters: Seq<Vec<usize>>,
        n_probe: int,
    ) -> Verdict {
        if query_tags.len() != nq || query_top_clusters.len() != nq || n_probe == 0 {
            Verdict::InvalidInput
        } else if nq * self.dim > usize::MAX {
            Verdict::Overflow
        } else if (queries is U8 <==> self.vectors is F32) || queries.count() != nq * self.dim || (
        queries is F32 && !all_in_domain(queries.patterns(), self.dim as int)) {
            Verdict::InvalidInput
        } else if !all_below(query_tags, self.n_tags as int) || !all_below(
            query_top_clusters,
            self.n_clusters as int,
        ) {
            Verdict::InvalidInput
        } else {
            Verdict::Accepted
        }
    }
}

/// Every entry of the row is below `bound`.
pub open spec fn row_below(row: Seq<usize>, bound: int) -> bool {
    forall|i: int| 0 <= i < row.len() ==> #[trigger] row[i] < bound
}

/// Every entry of every row is below `bound`.
pub open spec fn all_below(rows: Seq<Vec<usize>>, bound: int) -> bool {
    forall|r: int| 0 <= r < rows.len() ==> row_below(#[trigger] rows[r]@, bound)
}

/// Whether every entry of every row is below `bound`.
fn check_below(rows: &[Vec<usize>], bound: usize) -> (answer: bool)
    ensures
        answer == all_below(rows@, bound as int),
{
    let mut r: usize = 0;
    while r < rows.len()
        invariant
            r <= rows@.len(),
            forall|j: int| 0 <= j < r ==> row_below(#[trigger] rows@[j]@, bound as int),
        decreases rows@.len() - r,
    {
        let row = &rows[r];
        let mut i: usize = 0;
        while i < row.len()
            invariant
                r < rows@.len(),
                *row == rows@[r as int],
                i <= row@.len(),
                forall|j: int| 0 <= j < i ==> #[trigger] row@[j] < bound,
            decreases row@.len() - i,
        {
            if row[i] >= bound {
                assert(!row_below(rows@[r as int]@, bound as int));
                return false;
            }
            i = i + 1;
        }
        r = r + 1;
    }
    true
}

/// The first `limit` different entries.
fn distinct_prefix(entries: &Vec<usize>, limit: usize) -> (out: Vec<usize>)
    requires
        limit > 0,
    ensures
        out@ == first_distinct(entries@, limit as int),
{
    let mut out: Vec<usize> = Vec::new();
    let mut i: usize = 0;
    assert(entries@.take(0) =~= Seq::<usize>::empty());
    while i < entries.len()
        invariant
            i <= entries@.len(),
            limit > 0,
            out@ == first_distinct(entries@.take(i as int), limit as int),
        decreases entries@.len() - i,
    {
        let entry: usize = entries[i];
        proof {
            assert(entries@.take(i + 1).drop_last() =~= entries@.take(i as int));
        }
        if out.len() < limit && !listed_in(&out, entry) {
            out.push(entry);
        }
        i = i + 1;
    }
    assert(entries@.take(entries@.len() as int) =~= entries@);
    out
}

fn listed_in(entries: &Vec<usize>, entry: usize) -> (found: bool)
    ensures
        found == entries@.contains(entry),
{
    let mut i: usize = 0;
    while i < entries.len()
        invariant
            i <= entries@.len(),
            forall|j: int| 0 <= j < i ==> entries@[j] != entry,
        decreases entries@.len() - i,
    {
        if entries[i] == entry {
            return true;
        }
        i = i + 1;
    }
    false
}

/// Entries that every one of several ascending lists holds, found from the
/// shortest list on.
pub fn intersect_postings(lists: &Vec<&[u32]>) -> (out: Vec<u32>)
    requires
        lists@.len() > 0,
        forall|i: int| 0 <= i < lists@.len() ==> ascending(#[trigger] lists@[i]@),
    ensures
        ascending(out@),
        forall|x: u32|
            #![trigger out@.contains(x)]
            out@.contains(x) <==> forall|i: int|
                0 <= i < lists@.len() ==> #[trigger] lists@[i]@.contains(x),
{
    let mut shortest: usize = 0;
    let mut i: usize = 1;
    while i < lists.len()
        invariant
            1 <= i <= lists@.len(),
            shortest < lists@.len(),
        decreases lists@.len() - i,
    {
        if lists[i].len() < lists[shortest].len() {
            shortest = i;
        }
        i = i + 1;
    }
    let mut out: Vec<u32> = Vec::new();
    out.extend_from_slice(lists[shortest]);
    assert(out@ =~= lists@[shortest as int]@);
    let mut i: usize = 0;
    while i < lists.len()
        invariant
            i <= lists@.len(),
            shortest < lists@.len(),
            forall|j: int| 0 <= j < lists@.len() ==> ascending(#[trigger] lists@[j]@),
            ascending(out@),
            forall|x: u32|
                #![trigger out@.contains(x)]
                out@.contains(x) <==> lists@[shortest as int]@.contains(x) && forall|j: int|
                    0 <= j < i ==> #[trigger] lists@[j]@.contains(x),
        decreases lists@.len() - i,
    {
        if i != shortest {
            assert(ascending(lists@[i as int]@));
            let ghost before = out@;
            out = common(out.as_slice(), lists[i]);
            assert forall|x: u32|
                #![trigger out@.contains(x)]
                out@.contains(x) <==> lists@[shortest as int]@.contains(x) && forall|j: int|
                    0 <= j < i + 1 ==> #[trigger] lists@[j]@.contains(x) by {
                assert(out@.contains(x) <==> before.contains(x) && lists@[i as int]@.contains(x));
            }
        }
        i = i + 1;
    }
    out
}

/// Entries that both ascending lists hold.
pub fn sorted_intersect_u16(a: &[u16], b: &[u16]) -> (out: Vec<u16>)
    ensures
        sorted(a@) && sorted(b@) ==> sorted(out@) && forall|x: u16|
            #![trigger out@.to_multiset().count(x)]
            out@.to_multiset().count(x) == vstd::math::min(
                a@.to_multiset().count(x) as int,
                b@.to_multiset().count(x) as int,
            ),
        ascending(a@) && ascending(b@) ==> ascending(out@) && forall|x: u16|
            #![trigger out@.contains(x)]
            out@.contains(x) <==> a@.contains(x) && b@.contains(x),
{
    common(a, b)
}

proof fn offered_in_turn(list: Seq<Scored>, a: Seq<Scored>, b: Seq<Scored>, cap: int)
    ensures
        offered_all(list, a + b, cap) == offered_all(offered_all(list, a, cap), b, cap),
    decreases b.len(),
{
    if b.len() == 0 {
        assert(a + b =~= a);
    } else {
        assert((a + b).drop_last() =~= a + b.drop_last());
        offered_in_turn(list, a, b.drop_last(), cap);
    }
}

impl IvfIndex {
    /// The matching positions ascend and are exactly those with the tags.
    pub proof fn matching_is_exact(&self, c: int, tags: Seq<usize>, upto: int)
        requires
            0 <= upto <= u32::MAX,
        ensures
            ascending(self.matching(c, tags, upto)),
            self.matching(c, tags, upto).len() <= upto,
            forall|l: u32|
                #[trigger] self.matching(c, tags, upto).contains(l) <==> l < upto && self.has_tags(
                    c,
                    tags,
                    l as int,
                ),
        decreases upto,
    {
        if upto > 0 {
            self.matching_is_exact(c, tags, upto - 1);
            let before = self.matching(c, tags, upto - 1);
            let all = self.matching(c, tags, upto);
            let last = (upto - 1) as u32;
            if self.has_tags(c, tags, upto - 1) {
                assert forall|l: u32| #[trigger] all.contains(l) <==> l < upto && self.has_tags(c, tags, l as int) by {
                    assert(before.contains(l) <==> l < upto - 1 && self.has_tags(c, tags, l as int));
                    assert(all[before.len() as int] == last);
                    if before.contains(l) {
                        let w = choose|w: int| 0 <= w < before.len() && before[w] == l;
                        assert(all[w] == l);
                    }
                    if all.contains(l) && l != last {
                        let w = choose|w: int| 0 <= w < all.len() && all[w] == l;
                        assert(before[w] == l);
                    }
                }
                assert forall|i: int, j: int| 0 <= i < j < all.len() implies all[i].rank() < all[j].rank() by {
                    if j == before.len() {
                        assert(before.contains(before[i]));
                    }
                }
            } else {
                assert forall|l: u32| #[trigger] all.contains(l) <==> l < upto && self.has_tags(c, tags, l as int) by {
                    assert(before.contains(l) <==> l < upto - 1 && self.has_tags(c, tags, l as int));
                }
            }
        }
    }

    pub proof fn cluster_fits(&self, c: int)
        requires
            self.wf(),
            0 <= c < self.n_clusters,
        ensures
            self.cluster_starts@[c] <= self.cluster_starts@[c + 1] <= self.original_ids@.len(),
            0 <= self.cluster_size(c) <= u32::MAX,
    {
        assert(self.cluster_starts@[c] <= self.cluster_starts@[c + 1]);
        assert(self.cluster_starts@[c + 1] <= self.cluster_starts@[self.n_clusters as int]);
    }

    /// Positions of a cluster whose points have all of `tags`.
    fn matching_positions(&self, c: usize, tags: &Vec<usize>) -> (out: Vec<u32>)
        requires
            self.wf(),
            c < self.n_clusters,
        ensures
            out@ == self.matching(c as int, tags@, self.cluster_size(c as int)),
    {
        let ghost size = self.cluster_size(c as int);
        let ghost expected = self.matching(c as int, tags@, size);
        proof {
            self.cluster_fits(c as int);
            self.matching_is_exact(c as int, tags@, size);
            assert(self.cluster_entries_fit(c as int));
        }
        let size: u32 = self.cluster_starts[c + 1] - self.cluster_starts[c];
        let mut out: Vec<u32> = Vec::new();
        if tags.len() == 0 {
            let mut l: u32 = 0;
            while l < size
                invariant
                    l <= size,
                    tags@.len() == 0,
                    out@ == self.matching(c as int, tags@, l as int),
                decreases size - l,
            {
                out.push(l);
                l = l + 1;
            }
            return out;
        }
        let mut lists: Vec<&[u32]> = Vec::new();
        let mut i: usize = 0;
        while i < tags.len()
            invariant
                i <= tags@.len(),
                self.wf(),
                c < self.n_clusters,
                lists@.len() == i,
                forall|j: int| 0 <= j < i ==> ascending(#[trigger] lists@[j]@),
                forall|j: int, l: u32|
                    0 <= j < i ==> (#[trigger] lists@[j]@.contains(l) <==> tags@[j] <= u32::MAX
                        && self.carries(c as int, l, tags@[j] as u32)),
            decreases tags@.len() - i,
        {
            let list = self.lookup_tag(c, tags[i]);
            lists.push(list);
            i = i + 1;
        }
        out = intersect_postings(&lists);
        proof {
            assert forall|l: u32| out@.contains(l) <==> expected.contains(l) by {
                assert(expected.contains(l) <==> l < size && self.has_tags(c as int, tags@, l as int));
                if out@.contains(l) {
                    assert(lists@[0]@.contains(l));
                    self.carried_is_within(c as int, l, tags@[0] as u32);
                    assert forall|j: int| 0 <= j < tags@.len() implies #[trigger] tags@[j] <= u32::MAX
                        && self.carries(c as int, l, tags@[j] as u32) by {
                        assert(lists@[j]@.contains(l));
                    }
                }
                if self.has_tags(c as int, tags@, l as int) {
                    assert forall|j: int| 0 <= j < lists@.len() implies #[trigger] lists@[j]@.contains(l) by {
                        assert(tags@[j] <= u32::MAX && self.carries(c as int, l, tags@[j] as u32));
                    }
                }
            }
            ascending_is_unique(out@, expected);
        }
        out
    }

    /// Postings stay within their cluster.
    proof fn carried_is_within(&self, c: int, l: u32, t: u32)
        requires
            self.wf(),
            0 <= c < self.n_clusters,
            self.carries(c, l, t),
        ensures
            l < self.cluster_size(c),
    {
        assert(self.cluster_entries_fit(c));
        let e = choose|e: int|
            #[trigger] crate::ivf::entry_for(
                self.tag_index@,
                self.tag_offsets@[c] as int,
                self.tag_offsets@[c + 1] as int,
                e,
                t,
            ) && crate::ivf::entry_list(self.tag_index@, self.posting_ids@, e).contains(l);
        let list = crate::ivf::entry_list(self.tag_index@, self.posting_ids@, e);
        let w = choose|w: int| 0 <= w < list.len() && list[w] == l;
        assert(self.tag_index@[e].2 > 0);
        assert(list[w] < self.cluster_size(c));
    }
}

impl IvfIndex {
    /// The positions of `all` with the `budget` nearest sketches.
    fn nearest_sketches(&self, c: usize, all: &Vec<u32>, code: &[u64], budget: usize) -> (out: Vec<u32>)
        requires
            self.wf(),
            c < self.n_clusters,
            code@.len() == self.binary.code_words,
            forall|i: int| 0 <= i < all@.len() ==> #[trigger] all@[i] < self.cluster_size(c as int),
        ensures
            out@ == lowest(self.sketch_scores(c as int, all@, code@), budget as int).map_values(
                |entry: Scored| entry.1,
            ),
    {
        proof {
            self.cluster_fits(c as int);
        }
        let base: u32 = self.cluster_starts[c];
        let mut scored: Vec<Scored> = Vec::new();
        let ghost expected = self.sketch_scores(c as int, all@, code@);
        let mut i: usize = 0;
        while i < all.len()
            invariant
                i <= all@.len(),
                self.wf(),
                c < self.n_clusters,
                base == self.cluster_starts@[c as int],
                base + self.cluster_size(c as int) <= self.original_ids@.len(),
                code@.len() == self.binary.code_words,
                forall|j: int| 0 <= j < all@.len() ==> #[trigger] all@[j] < self.cluster_size(c as int),
                expected == self.sketch_scores(c as int, all@, code@),
                scored@.len() == i,
                forall|j: int| 0 <= j < i ==> #[trigger] scored@[j] == expected[j],
            decreases all@.len() - i,
        {
            let l: u32 = all[i];
            assert(all@[i as int] < self.cluster_size(c as int));
            scored.push((hamming(code, self.binary.code_unchecked(base + l)), l));
            i = i + 1;
        }
        assert(scored@ =~= expected);
        let best = nearest(&scored, budget);
        identifiers(&best)
    }

    /// The positions of a cluster that are scored exactly.
    fn rescored_positions(&self, c: usize, tags: &Vec<usize>, code: &[u64], budget: usize) -> (out: Vec<
        u32,
    >)
        requires
            self.wf(),
            c < self.n_clusters,
            budget > 0 ==> code@.len() == self.binary.code_words,
        ensures
            out@ == self.rescored(c as int, tags@, code@, budget as int),
            forall|i: int| 0 <= i < out@.len() ==> #[trigger] out@[i] < self.cluster_size(c as int),
    {
        proof {
            self.cluster_fits(c as int);
            self.rescored_matches(c as int, tags@, code@, budget as int);
        }
        let all = self.matching_positions(c, tags);
        if 0 < budget && budget < all.len() {
            proof {
                self.matching_is_exact(c as int, tags@, self.cluster_size(c as int));
                assert forall|i: int| 0 <= i < all@.len() implies #[trigger] all@[i] < self.cluster_size(
                    c as int,
                ) by {
                    assert(all@.contains(all@[i]));
                }
            }
            self.nearest_sketches(c, &all, code, budget)
        } else {
            all
        }
    }

    /// The positions that are scored exactly are different and match.
    pub proof fn rescored_matches(&self, c: int, tags: Seq<usize>, code: Seq<u64>, budget: int)
        requires
            self.wf(),
            0 <= c < self.n_clusters,
        ensures
            self.rescored(c, tags, code, budget).no_duplicates(),
            forall|i: int|
                0 <= i < self.rescored(c, tags, code, budget).len() ==> (#[trigger] self.rescored(
                    c,
                    tags,
                    code,
                    budget,
                )[i]) < self.cluster_size(c) && self.has_tags(
                    c,
                    tags,
                    self.rescored(c, tags, code, budget)[i] as int,
                ),
            budget <= 0 ==> forall|l: u32|
                l < self.cluster_size(c) && self.has_tags(c, tags, l as int)
                    ==> #[trigger] self.rescored(c, tags, code, budget).contains(l),
    {
        self.cluster_fits(c);
        let size = self.cluster_size(c);
        let all = self.matching(c, tags, size);
        let out = self.rescored(c, tags, code, budget);
        self.matching_is_exact(c, tags, size);
        ascending_is_sorted(all);
        if 0 < budget < all.len() {
            let scores = self.sketch_scores(c, all, code);
            lowest_of_distinct(scores, budget);
            let low = lowest(scores, budget);
            assert forall|i: int| 0 <= i < out.len() implies all.contains(#[trigger] out[i]) by {
                assert(low.contains(low[i]));
                let w = choose|w: int| 0 <= w < scores.len() && scores[w] == low[i];
                assert(all[w] == out[i]);
            }
            assert forall|i: int, j: int| 0 <= i < out.len() && 0 <= j < out.len() && i != j implies out[i]
                != out[j] by {
                assert(low[i].1 != low[j].1);
            }
        } else {
            assert forall|i: int| 0 <= i < out.len() implies all.contains(#[trigger] out[i]) by {
            }
        }
    }

    /// Distance of query `q` from reordered point `g`.
    fn measure_point<M: Fn(&[u32], &[u32]) -> u32>(
        &self,
        queries: &QueryStore,
        measure: &M,
        nq: usize,
        q: usize,
        g: u32,
    ) -> (distance: u64)
        requires
            self.wf(),
            q < nq,
            g < self.original_ids@.len(),
            queries is U8 <==> self.vectors is U8,
            queries.count() == nq * self.dim,
            queries is F32 ==> measures(*measure, self.dim as int),
        ensures
            distance == self.distance_to(queries, *measure, q, g),
    {
        let dim: usize = self.dim;
        proof {
            row_bounds(q as int, nq as int, dim as int);
            row_bounds(g as int, self.original_ids@.len() as int, dim as int);
        }
        match (queries, &self.vectors) {
            (QueryStore::U8(data), VecStore::U8(bytes)) => {
                assert(data@.len() == data.len());
                let total: usize = bytes.len();
                let a: usize = q * dim;
                let b: usize = g as usize * dim;
                l2_sq8(
                    slice_subrange(*data, a, a + dim),
                    slice_subrange(bytes.as_slice(), b, b + dim),
                )
            },
            (QueryStore::F32(data), VecStore::F32(patterns)) => {
                assert(data@.len() == data.len());
                let total: usize = patterns.len();
                let a: usize = q * dim;
                let b: usize = g as usize * dim;
                measure(
                    slice_subrange(*data, a, a + dim),
                    slice_subrange(patterns.as_slice(), b, b + dim),
                ) as u64
            },
            _ => 0,
        }
    }

    /// Offers the candidates of one cluster to the list of query `q`.
    fn scan_cluster<M: Fn(&[u32], &[u32]) -> u32>(
        &self,
        c: usize,
        positions: &Vec<u32>,
        queries: &QueryStore,
        measure: &M,
        nq: usize,
        q: usize,
        ef: usize,
        list: &mut Vec<Scored>,
    )
        requires
            self.wf(),
            c < self.n_clusters,
            q < nq,
            forall|i: int|
                0 <= i < positions@.len() ==> #[trigger] positions@[i] < self.cluster_size(c as int),
            queries is U8 <==> self.vectors is U8,
            queries.count() == nq * self.dim,
            queries is F32 ==> measures(*measure, self.dim as int),
            sorted(old(list)@),
            old(list)@.len() <= ef,
        ensures
            final(list)@ == offered_all(
                old(list)@,
                self.measured(
                    c as int,
                    positions@,
                    |g: u32| self.distance_to(queries, *measure, q, g),
                ),
                ef as int,
            ),
            sorted(final(list)@),
            final(list)@.len() <= ef,
    {
        proof {
            self.cluster_fits(c as int);
        }
        let base: u32 = self.cluster_starts[c];
        let ghost before = list@;
        let ghost entries = self.measured(
            c as int,
            positions@,
            |g: u32| self.distance_to(queries, *measure, q, g),
        );
        let mut i: usize = 0;
        assert(entries.take(0) =~= Seq::<Scored>::empty());
        while i < positions.len()
            invariant
                i <= positions@.len(),
                self.wf(),
                c < self.n_clusters,
                q < nq,
                base == self.cluster_starts@[c as int],
                base + self.cluster_size(c as int) <= self.original_ids@.len(),
                forall|j: int|
                    0 <= j < positions@.len() ==> #[trigger] positions@[j] < self.cluster_size(c as int),
                queries is U8 <==> self.vectors is U8,
                queries.count() == nq * self.dim,
                queries is F32 ==> measures(*measure, self.dim as int),
                sorted(list@),
                list@.len() <= ef,
                entries == self.measured(
                    c as int,
                    positions@,
                    |g: u32| self.distance_to(queries, *measure, q, g),
                ),
                list@ == offered_all(before, entries.take(i as int), ef as int),
            decreases positions@.len() - i,
        {
            assert(positions@[i as int] < self.cluster_size(c as int));
            let g: u32 = base + positions[i];
            let distance: u64 = self.measure_point(queries, measure, nq, q, g);
            let id: u32 = self.original_ids[g as usize];
            proof {
                assert(entries.take(i + 1).drop_last() =~= entries.take(i as int));
                assert(entries.take(i + 1).last() == (distance, id));
            }
            offer(list, (distance, id), ef);
            i = i + 1;
        }
        assert(entries.take(entries.len() as int) =~= entries);
    }

    /// Sketch of query `q`, if sketches are used.
    fn sketch_query<R: Fn(&[u32], &[u32], usize) -> Vec<bool>>(
        &self,
        queries: &QueryStore,
        rotate: &R,
        nq: usize,
        q: usize,
        binary_rerank: usize,
    ) -> (code: Vec<u64>)
        requires
            self.wf(),
            q < nq,
            queries is U8 <==> self.vectors is U8,
            queries.count() == nq * self.dim,
            queries is F32 && binary_rerank > 0 ==> gives_flags(*rotate, self.dim as int),
        ensures
            code@ == self.sketch_of(queries, *rotate, q, binary_rerank),
            binary_rerank > 0 ==> code@.len() == self.binary.code_words,
    {
        if binary_rerank == 0 {
            let code: Vec<u64> = Vec::new();
            assert(code@ =~= Seq::<u64>::empty());
            return code;
        }
        let dim: usize = self.dim;
        match queries {
            QueryStore::U8(data) => {
                assert(data@.len() == data.len());
                proof {
                    row_bounds(q as int, nq as int, dim as int);
                }
                let a: usize = q * dim;
                match self.binary.encode_query_u8(slice_subrange(*data, a, a + dim)) {
                    Ok(code) => code,
                    Err(_) => Vec::new(),
                }
            },
            QueryStore::F32(data) => {
                assert(data@.len() == data.len());
                proof {
                    row_bounds(q as int, nq as int, dim as int);
                }
                let a: usize = q * dim;
                let flags = rotate(
                    slice_subrange(*data, a, a + dim),
                    self.binary.signs.as_slice(),
                    self.binary.block_size,
                );
                pack(flags.as_slice())
            },
        }
    }
}

/// Identifiers of scored entries, in order.
fn identifiers(entries: &Vec<Scored>) -> (ids: Vec<u32>)
    ensures
        ids@ == entries@.map_values(|entry: Scored| entry.1),
{
    let mut ids: Vec<u32> = Vec::new();
    let mut i: usize = 0;
    while i < entries.len()
        invariant
            i <= entries@.len(),
            ids@.len() == i,
            forall|j: int| 0 <= j < i ==> #[trigger] ids@[j] == entries@[j].1,
        decreases entries@.len() - i,
    {
        ids.push(entries[i].1);
        i = i + 1;
    }
    assert(ids@ =~= entries@.map_values(|entry: Scored| entry.1));
    ids
}

/// The lowest of entries with different identifiers are some of them, and
/// different.
pub proof fn lowest_of_distinct(entries: Seq<Scored>, k: int)
    requires
        0 <= k <= entries.len(),
        forall|i: int, j: int|
            0 <= i < entries.len() && 0 <= j < entries.len() && i != j ==> (#[trigger] entries[i]).1 != (
            #[trigger] entries[j]).1,
    ensures
        lowest(entries, k).len() == k,
        forall|i: int| 0 <= i < k ==> entries.contains(#[trigger] lowest(entries, k)[i]),
        forall|i: int, j: int|
            0 <= i < k && 0 <= j < k && i != j ==> (#[trigger] lowest(entries, k)[i]).1 != (
            #[trigger] lowest(entries, k)[j]).1,
{
    let all = crate::order::arranged(entries);
    let low = lowest(entries, k);
    crate::order::arranged_is_sorted(entries);
    assert(entries.no_duplicates());
    entries.lemma_multiset_has_no_duplicates();
    all.lemma_multiset_has_no_duplicates_conv();
    assert(low =~= all.take(k));
    assert forall|i: int| 0 <= i < k implies entries.contains(#[trigger] low[i]) by {
        assert(all.contains(all[i]));
        crate::order::arranged_holds(entries, all[i]);
    }
    assert forall|i: int, j: int| 0 <= i < k && 0 <= j < k && i != j implies (#[trigger] low[i]).1 != (
    #[trigger] low[j]).1 by {
        assert(all[i] != all[j]);
        let a = choose|a: int| 0 <= a < entries.len() && entries[a] == low[i];
        let b = choose|b: int| 0 <= b < entries.len() && entries[b] == low[j];
        assert(entries.contains(low[i]) && entries.contains(low[j]));
        assert(entries[a].1 != entries[b].1);
    }
}

/// The ascending list of the first `nq` queries that probe cluster `c`.
pub open spec fn probers(list: Seq<usize>, tops: Seq<Vec<usize>>, n_probe: int, nq: int, c: int) -> bool {
    &&& ascending(list)
    &&& forall|q: usize| #[trigger]
        list.contains(q) <==> q < nq && first_distinct(tops[q as int]@, n_probe).contains(c as usize)
}

proof fn first_distinct_is_distinct(entries: Seq<usize>, limit: int, bound: int)
    requires
        row_below(entries, bound),
    ensures
        first_distinct(entries, limit).no_duplicates(),
        row_below(first_distinct(entries, limit), bound),
        forall|x: usize| #[trigger]
            first_distinct(entries, limit).contains(x) ==> entries.contains(x),
    decreases entries.len(),
{
    if entries.len() > 0 {
        first_distinct_is_distinct(entries.drop_last(), limit, bound);
        let before = first_distinct(entries.drop_last(), limit);
        let after = first_distinct(entries, limit);
        assert forall|x: usize| #[trigger] after.contains(x) implies entries.contains(x) by {
            let at = choose|at: int| 0 <= at < after.len() && after[at] == x;
            if at < before.len() {
                assert(before[at] == x);
                assert(before.contains(x));
                let w = choose|w: int| 0 <= w < entries.drop_last().len() && entries.drop_last()[w] == x;
                assert(entries[w] == x);
            } else {
                assert(entries[entries.len() - 1] == x);
            }
        }
        assert forall|i: int| 0 <= i < after.len() implies #[trigger] after[i] < bound by {
            if i == before.len() {
                assert(entries[entries.len() - 1] < bound);
            } else {
                assert(before[i] < bound);
            }
        }
    }
}

/// The queries that probe each cluster.
fn queries_by_cluster(tops: &[Vec<usize>], n_clusters: usize, n_probe: usize) -> (out: Vec<Vec<usize>>)
    requires
        n_clusters <= 0x1_0000,
        n_probe > 0,
        all_below(tops@, n_clusters as int),
    ensures
        out@.len() == n_clusters,
        forall|c: int|
            0 <= c < n_clusters ==> probers(
                #[trigger] out@[c]@,
                tops@,
                n_probe as int,
                tops@.len() as int,
                c,
            ),
{
    let mut out: Vec<Vec<usize>> = Vec::new();
    while out.len() < n_clusters
        invariant
            out@.len() <= n_clusters,
            forall|c: int| 0 <= c < out@.len() ==> (#[trigger] out@[c])@.len() == 0,
        decreases n_clusters - out@.len(),
    {
        out.push(Vec::new());
    }
    let mut q: usize = 0;
    while q < tops.len()
        invariant
            q <= tops@.len(),
            n_clusters <= 0x1_0000,
            n_probe > 0,
            all_below(tops@, n_clusters as int),
            out@.len() == n_clusters,
            forall|c: int|
                0 <= c < n_clusters ==> probers(#[trigger] out@[c]@, tops@, n_probe as int, q as int, c),
        decreases tops@.len() - q,
    {
        let probed = distinct_prefix(&tops[q], n_probe);
        let ghost before = out@;
        proof {
            first_distinct_is_distinct(tops@[q as int]@, n_probe as int, n_clusters as int);
        }
        let mut i: usize = 0;
        while i < probed.len()
            invariant
                q < tops@.len(),
                i <= probed@.len(),
                out@.len() == n_clusters,
                before.len() == n_clusters,
                probed@.no_duplicates(),
                row_below(probed@, n_clusters as int),
                forall|c: int|
                    0 <= c < n_clusters ==> (#[trigger] out@[c])@ == (if probed@.take(i as int).contains(
                        c as usize,
                    ) {
                        before[c]@.push(q)
                    } else {
                        before[c]@
                    }),
            decreases probed@.len() - i,
        {
            let c: usize = probed[i];
            proof {
                assert(probed@[i as int] < n_clusters);
                let few = probed@.take(i as int);
                if few.contains(c) {
                    let w = choose|w: int| 0 <= w < few.len() && few[w] == c;
                    assert(probed@[w] == probed@[i as int]);
                }
            }
            let ghost some = out@;
            out[c].push(q);
            proof {
                let few = probed@.take(i as int);
                let more = probed@.take(i + 1);
                assert(more =~= few.push(c));
                assert forall|d: int| 0 <= d < n_clusters implies (#[trigger] out@[d])@ == (if more.contains(
                    d as usize,
                ) {
                    before[d]@.push(q)
                } else {
                    before[d]@
                }) by {
                    assert(some[d]@ == (if few.contains(d as usize) {
                        before[d]@.push(q)
                    } else {
                        before[d]@
                    }));
                    if d == c {
                        assert(more[i as int] == c);
                    } else {
                        assert(out@[d] == some[d]);
                        if few.contains(d as usize) {
                            let w = choose|w: int| 0 <= w < few.len() && few[w] == d as usize;
                            assert(more[w] == d as usize);
                        }
                        if more.contains(d as usize) {
                            let w = choose|w: int| 0 <= w < more.len() && more[w] == d as usize;
                            assert(few[w] == d as usize);
                        }
                    }
                }
            }
            i = i + 1;
        }
        proof {
            assert(probed@.take(probed@.len() as int) =~= probed@);
            assert forall|c: int| 0 <= c < n_clusters implies probers(
                #[trigger] out@[c]@,
                tops@,
                n_probe as int,
                q + 1,
                c,
            ) by {
                assert(probers(before[c]@, tops@, n_probe as int, q as int, c));
                one_more_prober(before[c]@, out@[c]@, tops@, n_probe as int, q, c);
            }
        }
        q = q + 1;
    }
    out
}

proof fn one_more_prober(
    before: Seq<usize>,
    after: Seq<usize>,
    tops: Seq<Vec<usize>>,
    n_probe: int,
    q: usize,
    c: int,
)
    requires
        probers(before, tops, n_probe, q as int, c),
        after == (if first_distinct(tops[q as int]@, n_probe).contains(c as usize) {
            before.push(q)
        } else {
            before
        }),
    ensures
        probers(after, tops, n_probe, q + 1, c),
{
    assert forall|p: usize| #[trigger]
        after.contains(p) <==> p < q + 1 && first_distinct(tops[p as int]@, n_probe).contains(c as usize) by {
        assert(before.contains(p) <==> p < q && first_distinct(tops[p as int]@, n_probe).contains(
            c as usize,
        ));
        if after.len() > before.len() {
            assert(after[before.len() as int] == q);
            if before.contains(p) {
                let w = choose|w: int| 0 <= w < before.len() && before[w] == p;
                assert(after[w] == p);
            }
            if after.contains(p) && p != q {
                let w = choose|w: int| 0 <= w < after.len() && after[w] == p;
                assert(before[w] == p);
            }
        }
    }
    assert forall|i: int, j: int| 0 <= i < j < after.len() implies after[i].rank() < after[j].rank() by {
        if j == before.len() {
            assert(before.contains(before[i]));
        }
    }
}

impl IvfIndex {
    /// Checks a batch of queries.
    fn check_batch(
        &self,
        queries: &QueryStore,
        nq: usize,
        query_tags: &[Vec<usize>],
        query_top_clusters: &[Vec<usize>],
        n_probe: usize,
    ) -> (result: PrismResult<()>)
        requires
            self.wf(),
        ensures
            ends(
                result,
                self.batch_verdict(
                    queries,
                    nq as int,
                    query_tags@,
                    query_top_clusters@,
                    n_probe as int,
                ),
            ),
    {
        if query_tags.len() != nq {
            return Err(invalid_input("query tag row count must equal nq"));
        }
        if query_top_clusters.len() != nq {
            return Err(invalid_input("query cluster row count must equal nq"));
        }
        if n_probe == 0 {
            return Err(invalid_input("n_probe must be greater than zero"));
        }
        let expected: usize = match nq.checked_mul(self.dim) {
            Some(expected) => expected,
            None => {
                return Err(overflow("query batch shape exceeds addressable memory"));
            },
        };
        match (queries, &self.vectors) {
            (QueryStore::U8(data), VecStore::U8(_)) => {
                if data.len() != expected {
                    return Err(invalid_input("query data length must equal nq * dim"));
                }
            },
            (QueryStore::F32(data), VecStore::F32(_)) => {
                if data.len() != expected {
                    return Err(invalid_input("query data length must equal nq * dim"));
                }
                if !check_domain(*data, self.dim) {
                    return Err(
                        invalid_input("IVF query must be finite and within the distance domain"),
                    );
                }
            },
            _ => {
                return Err(invalid_input("query dtype must match the indexed vector dtype"));
            },
        }
        if !check_below(query_tags, self.n_tags) {
            return Err(invalid_input("query contains an out-of-range tag"));
        }
        if !check_below(query_top_clusters, self.n_clusters) {
            return Err(invalid_input("query contains an out-of-range cluster"));
        }
        Ok(())
    }

    /// Answers a batch of filtered queries, cluster after cluster.
    ///
    /// Each query looks at the points that have all of its tags in the first
    /// `n_probe` different clusters of its row.  `measure` gives the distance
    /// pattern of two single-precision vectors, `rotate` tells which coordinates
    /// of the transform of one, by the signs and blocks of the index, are not
    /// negative.  With a positive `binary_rerank` at most `binary_rerank` times
    /// the candidate width of a cluster's points are measured, those with the
    /// nearest sketches.
    pub fn batch_search_mqcb<M: Fn(&[u32], &[u32]) -> u32, R: Fn(&[u32], &[u32], usize) -> Vec<bool>>(
        &self,
        queries: &QueryStore,
        nq: usize,
        query_tags: &[Vec<usize>],
        query_top_clusters: &[Vec<usize>],
        k: usize,
        ef: usize,
        n_probe: usize,
        binary_rerank: usize,
        measure: &M,
        rotate: &R,
    ) -> (result: PrismResult<Vec<Vec<u32>>>)
        requires
            self.wf(),
            queries is F32 ==> measures(*measure, self.dim as int),
            queries is F32 && binary_rerank > 0 ==> gives_flags(*rotate, self.dim as int),
        ensures
            ends(
                result,
                self.batch_verdict(
                    queries,
                    nq as int,
                    query_tags@,
                    query_top_clusters@,
                    n_probe as int,
                ),
            ),
            result matches Ok(answers) ==> {
                &&& answers@.len() == nq
                &&& forall|q: usize|
                    q < nq ==> (#[trigger] answers@[q as int])@ == best_ids(
                        self.pool(
                            queries,
                            q,
                            query_tags@[q as int]@,
                            query_top_clusters@[q as int]@,
                            if ef > k {
                                ef
                            } else {
                                k
                            },
                            n_probe,
                            binary_rerank,
                            *measure,
                            *rotate,
                            self.n_clusters as int,
                        ),
                        k as int,
                    )
            },
    {
        match self.check_batch(queries, nq, query_tags, query_top_clusters, n_probe) {
            Ok(_) => {},
            Err(error) => {
                return Err(error);
            },
        }
        let ef: usize = if ef > k { ef } else { k };
        let mut answers: Vec<Vec<u32>> = Vec::new();
        if k == 0 {
            while answers.len() < nq
                invariant
                    answers@.len() <= nq,
                    k == 0,
                    forall|q: int| 0 <= q < answers@.len() ==> (#[trigger] answers@[q])@.len() == 0,
                decreases nq - answers@.len(),
            {
                answers.push(Vec::new());
            }
            proof {
                assert forall|q: usize| q < nq implies (#[trigger] answers@[q as int])@ == best_ids(
                    self.pool(
                        queries,
                        q,
                        query_tags@[q as int]@,
                        query_top_clusters@[q as int]@,
                        ef,
                        n_probe,
                        binary_rerank,
                        *measure,
                        *rotate,
                        self.n_clusters as int,
                    ),
                    k as int,
                ) by {
                    assert(answers@[q as int]@.len() == 0);
                }
            }
            return Ok(answers);
        }
        let budget: usize = match binary_rerank.checked_mul(ef) {
            Some(budget) => budget,
            None => usize::MAX,
        };
        let grouped = queries_by_cluster(query_top_clusters, self.n_clusters, n_probe);
        let mut codes: Vec<Vec<u64>> = Vec::new();
        let mut pools: Vec<Vec<Scored>> = Vec::new();
        while pools.len() < nq
            invariant
                pools@.len() <= nq,
                codes@.len() == pools@.len(),
                self.wf(),
                queries is U8 <==> self.vectors is U8,
                queries.count() == nq * self.dim,
                queries is F32 && binary_rerank > 0 ==> gives_flags(*rotate, self.dim as int),
                forall|q: usize|
                    q < codes@.len() ==> (#[trigger] codes@[q as int])@ == self.sketch_of(
                        queries,
                        *rotate,
                        q,
                        binary_rerank,
                    ) && (binary_rerank > 0 ==> codes@[q as int]@.len() == self.binary.code_words),
                forall|q: int| 0 <= q < pools@.len() ==> (#[trigger] pools@[q])@.len() == 0,
            decreases nq - pools@.len(),
        {
            let q: usize = pools.len();
            let code = self.sketch_query(queries, rotate, nq, q, binary_rerank);
            codes.push(code);
            pools.push(Vec::new());
        }
        let mut c: usize = 0;
        proof {
            assert forall|q: usize| q < nq implies #[trigger] self.pooled(
                pools@,
                queries,
                q,
                query_tags@,
                query_top_clusters@,
                ef,
                n_probe,
                binary_rerank,
                *measure,
                *rotate,
                0,
                Seq::empty(),
            ) by {
                assert(pools@[q as int]@ =~= Seq::<Scored>::empty());
            }
        }
        while c < self.n_clusters
            invariant
                c <= self.n_clusters,
                self.wf(),
                pools@.len() == nq,
                codes@.len() == nq,
                query_tags@.len() == nq,
                query_top_clusters@.len() == nq,
                n_probe > 0,
                queries is U8 <==> self.vectors is U8,
                queries.count() == nq * self.dim,
                queries is F32 ==> measures(*measure, self.dim as int),
                forall|q: usize|
                    q < codes@.len() ==> (#[trigger] codes@[q as int])@ == self.sketch_of(
                        queries,
                        *rotate,
                        q,
                        binary_rerank,
                    ) && (binary_rerank > 0 ==> codes@[q as int]@.len() == self.binary.code_words),
                budget == rerank_budget(binary_rerank as int, ef as int),
                budget > 0 ==> binary_rerank > 0,
                grouped@.len() == self.n_clusters,
                forall|d: int|
                    0 <= d < self.n_clusters ==> probers(
                        #[trigger] grouped@[d]@,
                        query_top_clusters@,
                        n_probe as int,
                        nq as int,
                        d,
                    ),
                forall|q: usize|
                    q < nq ==> #[trigger] self.pooled(
                        pools@,
                        queries,
                        q,
                        query_tags@,
                        query_top_clusters@,
                        ef,
                        n_probe,
                        binary_rerank,
                        *measure,
                        *rotate,
                        c as int,
                        Seq::empty(),
                    ),
            decreases self.n_clusters - c,
        {
            let list = &grouped[c];
            assert(probers(
                grouped@[c as int]@,
                query_top_clusters@,
                n_probe as int,
                nq as int,
                c as int,
            ));
            proof {
                ascending_is_sorted(list@);
                assert(list@.take(0) =~= Seq::<usize>::empty());
            }
            let mut i: usize = 0;
            while i < list.len()
                invariant
                    i <= list@.len(),
                    c < self.n_clusters,
                    self.wf(),
                    pools@.len() == nq,
                    codes@.len() == nq,
                    query_tags@.len() == nq,
                    query_top_clusters@.len() == nq,
                    queries is U8 <==> self.vectors is U8,
                    queries.count() == nq * self.dim,
                    queries is F32 ==> measures(*measure, self.dim as int),
                    forall|q: usize|
                        q < codes@.len() ==> (#[trigger] codes@[q as int])@ == self.sketch_of(
                            queries,
                            *rotate,
                            q,
                            binary_rerank,
                        ) && (binary_rerank > 0 ==> codes@[q as int]@.len() == self.binary.code_words),
                    budget == rerank_budget(binary_rerank as int, ef as int),
                    budget > 0 ==> binary_rerank > 0,
                    probers(list@, query_top_clusters@, n_probe as int, nq as int, c as int),
                    list@.no_duplicates(),
                    forall|q: usize|
                        q < nq ==> #[trigger] self.pooled(
                            pools@,
                            queries,
                            q,
                            query_tags@,
                            query_top_clusters@,
                            ef,
                            n_probe,
                            binary_rerank,
                            *measure,
                            *rotate,
                            c as int,
                            list@.take(i as int),
                        ),
                decreases list@.len() - i,
            {
                let q: usize = list[i];
                assert(list@.contains(q));
                let ghost before = pools@;
                proof {
                    let few = list@.take(i as int);
                    if few.contains(q) {
                        let w = choose|w: int| 0 <= w < few.len() && few[w] == q;
                        assert(list@[w] == list@[i as int]);
                    }
                    assert(self.pooled(
                        before,
                        queries,
                        q,
                        query_tags@,
                        query_top_clusters@,
                        ef,
                        n_probe,
                        binary_rerank,
                        *measure,
                        *rotate,
                        c as int,
                        few,
                    ));
                    self.pool_is_sorted(
                        queries,
                        q,
                        query_tags@[q as int]@,
                        query_top_clusters@[q as int]@,
                        ef,
                        n_probe,
                        binary_rerank,
                        *measure,
                        *rotate,
                        c as int,
                    );
                }
                let positions = self.rescored_positions(c, &query_tags[q], codes[q].as_slice(), budget);
                self.scan_cluster(c, &positions, queries, measure, nq, q, ef, &mut pools[q]);
                proof {
                    self.pool_grows(
                        queries,
                        q,
                        query_tags@[q as int]@,
                        query_top_clusters@[q as int]@,
                        ef,
                        n_probe,
                        binary_rerank,
                        *measure,
                        *rotate,
                        c as int,
                    );
                    let few = list@.take(i as int);
                    let more = list@.take(i + 1);
                    assert(more =~= few.push(q));
                    assert forall|p: usize| p < nq implies #[trigger] self.pooled(
                        pools@,
                        queries,
                        p,
                        query_tags@,
                        query_top_clusters@,
                        ef,
                        n_probe,
                        binary_rerank,
                        *measure,
                        *rotate,
                        c as int,
                        more,
                    ) by {
                        assert(more[i as int] == q);
                        if p != q {
                            assert(pools@[p as int] == before[p as int]);
                            assert(few.contains(p) <==> more.contains(p)) by {
                                if few.contains(p) {
                                    let w = choose|w: int| 0 <= w < few.len() && few[w] == p;
                                    assert(more[w] == p);
                                }
                                if more.contains(p) {
                                    let w = choose|w: int| 0 <= w < more.len() && more[w] == p;
                                    assert(few[w] == p);
                                }
                            }
                            assert(self.pooled(
                                before,
                                queries,
                                p,
                                query_tags@,
                                query_top_clusters@,
                                ef,
                                n_probe,
                                binary_rerank,
                                *measure,
                                *rotate,
                                c as int,
                                few,
                            ));
                        }
                    }
                }
                i = i + 1;
            }
            proof {
                assert(list@.take(list@.len() as int) =~= list@);
                assert forall|q: usize| q < nq implies #[trigger] self.pooled(
                    pools@,
                    queries,
                    q,
                    query_tags@,
                    query_top_clusters@,
                    ef,
                    n_probe,
                    binary_rerank,
                    *measure,
                    *rotate,
                    c + 1,
                    Seq::empty(),
                ) by {
                    assert(list@.contains(q) <==> first_distinct(
                        query_top_clusters@[q as int]@,
                        n_probe as int,
                    ).contains(c));
                    assert(self.pooled(
                        pools@,
                        queries,
                        q,
                        query_tags@,
                        query_top_clusters@,
                        ef,
                        n_probe,
                        binary_rerank,
                        *measure,
                        *rotate,
                        c as int,
                        list@,
                    ));
                }
            }
            c = c + 1;
        }
        while answers.len() < nq
            invariant
                answers@.len() <= nq,
                pools@.len() == nq,
                forall|q: int|
                    0 <= q < answers@.len() ==> (#[trigger] answers@[q])@ == best_ids(
                        pools@[q]@,
                        k as int,
                    ),
            decreases nq - answers@.len(),
        {
            let q: usize = answers.len();
            let ids = identifiers(&pools[q]);
            let take: usize = if k < ids.len() { k } else { ids.len() };
            let mut answer: Vec<u32> = Vec::new();
            answer.extend_from_slice(slice_subrange(ids.as_slice(), 0, take));
            assert(answer@ =~= best_ids(pools@[q as int]@, k as int));
            answers.push(answer);
        }
        proof {
            assert forall|q: usize| q < nq implies (#[trigger] answers@[q as int])@ == best_ids(
                self.pool(
                    queries,
                    q,
                    query_tags@[q as int]@,
                    query_top_clusters@[q as int]@,
                    ef,
                    n_probe,
                    binary_rerank,
                    *measure,
                    *rotate,
                    self.n_clusters as int,
                ),
                k as int,
            ) by {
                assert(self.pooled(
                    pools@,
                    queries,
                    q,
                    query_tags@,
                    query_top_clusters@,
                    ef,
                    n_probe,
                    binary_rerank,
                    *measure,
                    *rotate,
                    self.n_clusters as int,
                    Seq::empty(),
                ));
            }
        }
        Ok(answers)
    }

    /// The list of query `q` is its pool after `upto` clusters, and one more for
    /// the queries in `ahead`.
    spec fn pooled<M: Fn(&[u32], &[u32]) -> u32, R: Fn(&[u32], &[u32], usize) -> Vec<bool>>(
        &self,
        pools: Seq<Vec<Scored>>,
        queries: &QueryStore,
        q: usize,
        query_tags: Seq<Vec<usize>>,
        query_top_clusters: Seq<Vec<usize>>,
        ef: usize,
        n_probe: usize,
        binary_rerank: usize,
        measure: M,
        rotate: R,
        upto: int,
        ahead: Seq<usize>,
    ) -> bool {
        pools[q as int]@ == self.pool(
            queries,
            q,
            query_tags[q as int]@,
            query_top_clusters[q as int]@,
            ef,
            n_probe,
            binary_rerank,
            measure,
            rotate,
            if ahead.contains(q) {
                upto + 1
            } else {
                upto
            },
        )
    }

    proof fn pool_is_sorted<M: Fn(&[u32], &[u32]) -> u32, R: Fn(&[u32], &[u32], usize) -> Vec<bool>>(
        &self,
        queries: &QueryStore,
        q: usize,
        tags: Seq<usize>,
        top_clusters: Seq<usize>,
        ef: usize,
        n_probe: usize,
        binary_rerank: usize,
        measure: M,
        rotate: R,
        upto: int,
    )
        ensures
            sorted(
                self.pool(
                    queries,
                    q,
                    tags,
                    top_clusters,
                    ef,
                    n_probe,
                    binary_rerank,
                    measure,
                    rotate,
                    upto,
                ),
            ),
            self.pool(
                queries,
                q,
                tags,
                top_clusters,
                ef,
                n_probe,
                binary_rerank,
                measure,
                rotate,
                upto,
            ).len() <= ef,
    {
        offered_all_is_nearest(
            self.candidates(
                first_distinct(top_clusters, n_probe as int),
                tags,
                self.sketch_of(queries, rotate, q, binary_rerank),
                rerank_budget(binary_rerank as int, ef as int),
                |g: u32| self.distance_to(queries, measure, q, g),
                upto,
            ),
            ef as int,
        );
    }

    proof fn pool_grows<M: Fn(&[u32], &[u32]) -> u32, R: Fn(&[u32], &[u32], usize) -> Vec<bool>>(
        &self,
        queries: &QueryStore,
        q: usize,
        tags: Seq<usize>,
        top_clusters: Seq<usize>,
        ef: usize,
        n_probe: usize,
        binary_rerank: usize,
        measure: M,
        rotate: R,
        c: int,
    )
        requires
            0 <= c < usize::MAX,
            first_distinct(top_clusters, n_probe as int).contains(c as usize),
        ensures
            self.pool(
                queries,
                q,
                tags,
                top_clusters,
                ef,
                n_probe,
                binary_rerank,
                measure,
                rotate,
                c + 1,
            ) == offered_all(
                self.pool(
                    queries,
                    q,
                    tags,
                    top_clusters,
                    ef,
                    n_probe,
                    binary_rerank,
                    measure,
                    rotate,
                    c,
                ),
                self.measured(
                    c,
                    self.rescored(
                        c,
                        tags,
                        self.sketch_of(queries, rotate, q, binary_rerank),
                        rerank_budget(binary_rerank as int, ef as int),
                    ),
                    |g: u32| self.distance_to(queries, measure, q, g),
                ),
                ef as int,
            ),
    {
        let probed = first_distinct(top_clusters, n_probe as int);
        let code = self.sketch_of(queries, rotate, q, binary_rerank);
        let budget = rerank_budget(binary_rerank as int, ef as int);
        let distance = |g: u32| self.distance_to(queries, measure, q, g);
        let before = self.candidates(probed, tags, code, budget, distance, c);
        let here = self.measured(c, self.rescored(c, tags, code, budget), distance);
        assert(self.candidates(probed, tags, code, budget, distance, c + 1) == before + here);
        offered_in_turn(Seq::empty(), before, here, ef as int);
    }
}

/// No identifier occurs twice.
pub open spec fn distinct_ids(entries: Seq<Scored>) -> bool {
    forall|i: int, j: int|
        0 <= i < j < entries.len() ==> (#[trigger] entries[i]).1 != (#[trigger] entries[j]).1
}

/// Offering entries with different identifiers leaves different identifiers.
pub proof fn offered_all_is_distinct(entries: Seq<Scored>, cap: int)
    requires
        0 <= cap,
        distinct_ids(entries),
    ensures
        distinct_ids(offered_all(Seq::empty(), entries, cap)),
    decreases entries.len(),
{
    if entries.len() > 0 {
        let few = entries.drop_last();
        let last = entries.last();
        let list = offered_all(Seq::empty(), few, cap);
        let out = offered(list, last, cap);
        assert forall|i: int, j: int| 0 <= i < j < few.len() implies (#[trigger] few[i]).1 != (
        #[trigger] few[j]).1 by {
            assert(entries[i].1 != entries[j].1);
        }
        offered_all_is_distinct(few, cap);
        offered_all_is_nearest(few, cap);
        assert forall|i: int| 0 <= i < list.len() implies (#[trigger] list[i]).1 != last.1 by {
            assert(list.contains(list[i]));
            let w = choose|w: int| 0 <= w < few.len() && few[w] == list[i];
            assert(entries[w].1 != entries[entries.len() - 1].1);
        }
        let rest = if list.len() < cap {
            list
        } else {
            list.drop_last()
        };
        if out != list {
            assert(out == crate::order::place(rest, last));
            assert(sorted(rest)) by {
                crate::select::take_is_sorted(list, rest.len() as int);
                assert(list.take(rest.len() as int) =~= rest);
            }
            crate::order::slot_splits(rest, last);
            let s = crate::order::slot(rest, last);
            assert forall|i: int, j: int| 0 <= i < j < out.len() implies (#[trigger] out[i]).1 != (
            #[trigger] out[j]).1 by {
                let a = if i < s {
                    i
                } else {
                    i - 1
                };
                let b = if j < s {
                    j
                } else {
                    j - 1
                };
                if i != s {
                    assert(out[i] == rest[a]);
                    assert(rest[a] == list[a]);
                }
                if j != s {
                    assert(out[j] == rest[b]);
                    assert(rest[b] == list[b]);
                }
                if i != s && j != s {
                    assert(list[a].1 != list[b].1);
                }
            }
        }
    }
}

impl IvfIndex {
    /// `entry` is the point at position `l` of cluster `c`, a probed one before
    /// `upto`, and has the tags.
    pub open spec fn comes_from(
        &self,
        probed: Seq<usize>,
        tags: Seq<usize>,
        distance: spec_fn(u32) -> u64,
        upto: int,
        entry: Scored,
        c: int,
        l: u32,
    ) -> bool {
        &&& 0 <= c < upto
        &&& probed.contains(c as usize)
        &&& l < self.cluster_size(c)
        &&& self.has_tags(c, tags, l as int)
        &&& entry == (
            distance((self.cluster_starts@[c] + l) as u32),
            self.original_ids@[self.cluster_starts@[c] + l],
        )
    }

    /// `entry` is a point with the tags in a probed cluster before `upto`.
    pub open spec fn eligible(
        &self,
        probed: Seq<usize>,
        tags: Seq<usize>,
        distance: spec_fn(u32) -> u64,
        upto: int,
        entry: Scored,
    ) -> bool {
        exists|c: int, l: u32|
            #[trigger] self.comes_from(probed, tags, distance, upto, entry, c, l)
    }

    /// Candidates are different points, each with all of the tags and in a
    /// probed cluster; without a budget they are all of these.
    pub proof fn candidates_are_eligible(
        &self,
        probed: Seq<usize>,
        tags: Seq<usize>,
        code: Seq<u64>,
        budget: int,
        distance: spec_fn(u32) -> u64,
        upto: int,
    )
        requires
            self.wf(),
            0 <= upto <= self.n_clusters,
        ensures
            distinct_ids(self.candidates(probed, tags, code, budget, distance, upto)),
            forall|i: int|
                0 <= i < self.candidates(probed, tags, code, budget, distance, upto).len()
                    ==> self.eligible(
                    probed,
                    tags,
                    distance,
                    upto,
                    #[trigger] self.candidates(probed, tags, code, budget, distance, upto)[i],
                ),
            budget <= 0 ==> forall|entry: Scored|
                self.eligible(probed, tags, distance, upto, entry)
                    ==> #[trigger] self.candidates(probed, tags, code, budget, distance, upto).contains(
                    entry,
                ),
        decreases upto,
    {
        if upto > 0 {
            let c = upto - 1;
            self.candidates_are_eligible(probed, tags, code, budget, distance, c);
            self.cluster_fits(c);
            let before = self.candidates(probed, tags, code, budget, distance, c);
            let all = self.candidates(probed, tags, code, budget, distance, upto);
            let positions = self.rescored(c, tags, code, budget);
            let here = self.measured(c, positions, distance);
            let start = self.cluster_starts@[c] as int;
            self.rescored_matches(c, tags, code, budget);
            let met = probed.contains(c as usize);
            assert forall|i: int| 0 <= i < all.len() implies self.eligible(
                probed,
                tags,
                distance,
                upto,
                #[trigger] all[i],
            ) by {
                if i < before.len() {
                    assert(all[i] == before[i]);
                    let (d, l) = choose|d: int, l: u32|
                        #[trigger] self.comes_from(probed, tags, distance, c, before[i], d, l);
                    assert(self.comes_from(probed, tags, distance, upto, all[i], d, l));
                } else {
                    let l = positions[i - before.len()];
                    assert(self.comes_from(probed, tags, distance, upto, all[i], c, l));
                }
            }
            assert(distinct_ids(all)) by {
                assert forall|i: int, j: int| 0 <= i < j < all.len() implies (#[trigger] all[i]).1 != (
                #[trigger] all[j]).1 by {
                    if j < before.len() {
                        assert(before[i].1 != before[j].1);
                    } else {
                        let m = positions[j - before.len()];
                        assert(m < self.cluster_size(c));
                        assert(all[j].1 == self.original_ids@[start + m]);
                        if i < before.len() {
                            let (d, l) = choose|d: int, l: u32|
                                #[trigger] self.comes_from(probed, tags, distance, c, before[i], d, l);
                            assert(self.eligible(probed, tags, distance, c, before[i]));
                            self.cluster_fits(d);
                            assert(self.cluster_starts@[d + 1] <= self.cluster_starts@[c]);
                            assert(all[i].1 == self.original_ids@[self.cluster_starts@[d] + l]);
                        } else {
                            let l = positions[i - before.len()];
                            assert(l < self.cluster_size(c));
                            assert(all[i].1 == self.original_ids@[start + l]);
                            assert(l != m);
                        }
                    }
                }
            }
            if budget <= 0 {
                assert forall|entry: Scored| self.eligible(probed, tags, distance, upto, entry) implies #[trigger] all.contains(
                    entry,
                ) by {
                    let (d, l) = choose|d: int, l: u32|
                        #[trigger] self.comes_from(probed, tags, distance, upto, entry, d, l);
                    if d < c {
                        assert(self.comes_from(probed, tags, distance, c, entry, d, l));
                        assert(before.contains(entry));
                        let w = choose|w: int| 0 <= w < before.len() && before[w] == entry;
                        assert(all[w] == entry);
                    } else {
                        assert(positions.contains(l));
                        let w = choose|w: int| 0 <= w < positions.len() && positions[w] == l;
                        assert(here[w] == entry);
                        assert(all[before.len() + w] == entry);
                    }
                }
            }
        }
    }

    /// The answer to a query holds at most `k` different identifiers, each of a
    /// point that has all of the tags and lies in a probed cluster.
    pub proof fn answers_are_eligible<M: Fn(&[u32], &[u32]) -> u32, R: Fn(&[u32], &[u32], usize) -> Vec<bool>>(
        &self,
        queries: &QueryStore,
        q: usize,
        tags: Seq<usize>,
        top_clusters: Seq<usize>,
        k: usize,
        ef: usize,
        n_probe: usize,
        binary_rerank: usize,
        measure: M,
        rotate: R,
    )
        requires
            self.wf(),
        ensures
            ({
                let pool = self.pool(
                    queries,
                    q,
                    tags,
                    top_clusters,
                    ef,
                    n_probe,
                    binary_rerank,
                    measure,
                    rotate,
                    self.n_clusters as int,
                );
                let answer = best_ids(pool, k as int);
                let probed = first_distinct(top_clusters, n_probe as int);
                let distance = |g: u32| self.distance_to(queries, measure, q, g);
                &&& answer.len() <= k
                &&& answer.no_duplicates()
                &&& forall|i: int|
                    0 <= i < answer.len() ==> (#[trigger] answer[i]) == pool[i].1 && self.eligible(
                        probed,
                        tags,
                        distance,
                        self.n_clusters as int,
                        pool[i],
                    )
            }),
    {
        let probed = first_distinct(top_clusters, n_probe as int);
        let code = self.sketch_of(queries, rotate, q, binary_rerank);
        let budget = rerank_budget(binary_rerank as int, ef as int);
        let distance = |g: u32| self.distance_to(queries, measure, q, g);
        let count = self.n_clusters as int;
        let all = self.candidates(probed, tags, code, budget, distance, count);
        let pool = offered_all(Seq::empty(), all, ef as int);
        let answer = best_ids(pool, k as int);
        self.candidates_are_eligible(probed, tags, code, budget, distance, count);
        offered_all_is_distinct(all, ef as int);
        offered_all_is_nearest(all, ef as int);
        assert forall|i: int| 0 <= i < answer.len() implies (#[trigger] answer[i]) == pool[i].1 && self.eligible(
            probed,
            tags,
            distance,
            count,
            pool[i],
        ) by {
            assert(pool.contains(pool[i]));
            let w = choose|w: int| 0 <= w < all.len() && all[w] == pool[i];
            assert(self.eligible(probed, tags, distance, count, all[w]));
        }
        assert forall|i: int, j: int| 0 <= i < answer.len() && 0 <= j < answer.len() && i != j implies answer[i]
            != answer[j] by {
            if i < j {
                assert(pool[i].1 != pool[j].1);
            } else {
                assert(pool[j].1 != pool[i].1);
            }
        }
    }

    /// Without a rerank budget the answer is exact: it lists points by
    /// distance, and every point with the tags in a probed cluster is listed
    /// unless `k` others are, none of them farther away.
    pub proof fn answers_are_nearest<M: Fn(&[u32], &[u32]) -> u32, R: Fn(&[u32], &[u32], usize) -> Vec<bool>>(
        &self,
        queries: &QueryStore,
        q: usize,
        tags: Seq<usize>,
        top_clusters: Seq<usize>,
        k: usize,
        ef: usize,
        n_probe: usize,
        measure: M,
        rotate: R,
    )
        requires
            self.wf(),
            k <= ef,
        ensures
            ({
                let pool = self.pool(
                    queries,
                    q,
                    tags,
                    top_clusters,
                    ef,
                    n_probe,
                    0,
                    measure,
                    rotate,
                    self.n_clusters as int,
                );
                let answer = best_ids(pool, k as int);
                let probed = first_distinct(top_clusters, n_probe as int);
                let distance = |g: u32| self.distance_to(queries, measure, q, g);
                &&& forall|i: int, j: int|
                    0 <= i <= j < answer.len() ==> (#[trigger] pool[i]).0 <= (#[trigger] pool[j]).0
                &&& forall|entry: Scored|
                    #[trigger] self.eligible(probed, tags, distance, self.n_clusters as int, entry)
                        ==> answer.contains(entry.1) || (answer.len() == k && forall|i: int|
                        0 <= i < answer.len() ==> (#[trigger] pool[i]).0 <= entry.0)
            }),
    {
        let probed = first_distinct(top_clusters, n_probe as int);
        let code = self.sketch_of(queries, rotate, q, 0);
        let distance = |g: u32| self.distance_to(queries, measure, q, g);
        let count = self.n_clusters as int;
        assert(rerank_budget(0, ef as int) == 0) by (nonlinear_arith);
        let all = self.candidates(probed, tags, code, 0, distance, count);
        let pool = offered_all(Seq::empty(), all, ef as int);
        let answer = best_ids(pool, k as int);
        self.candidates_are_eligible(probed, tags, code, 0, distance, count);
        offered_all_is_nearest(all, ef as int);
        assert forall|i: int, j: int| 0 <= i <= j < answer.len() implies (#[trigger] pool[i]).0 <= (
        #[trigger] pool[j]).0 by {
            assert(pool[i].rank() <= pool[j].rank());
            crate::select::rank_orders_distances(pool[i], pool[j]);
        }
        assert forall|entry: Scored| #[trigger]
            self.eligible(probed, tags, distance, count, entry) implies answer.contains(entry.1) || (
        answer.len() == k && forall|i: int| 0 <= i < answer.len() ==> (#[trigger] pool[i]).0 <= entry.0) by {
            assert(all.contains(entry));
            if pool.contains(entry) {
                let w = choose|w: int| 0 <= w < pool.len() && pool[w] == entry;
                if w < answer.len() {
                    assert(answer[w] == entry.1);
                } else {
                    assert forall|i: int| 0 <= i < answer.len() implies (#[trigger] pool[i]).0 <= entry.0 by {
                        assert(pool[i].rank() <= pool[w].rank());
                        crate::select::rank_orders_distances(pool[i], pool[w]);
                    }
                }
            } else {
                assert forall|i: int| 0 <= i < answer.len() implies (#[trigger] pool[i]).0 <= entry.0 by {
                    assert(crate::select::identity(entry) == entry);
                }
                if pool.len() < ef {
                    all_are_offered(all, ef as int);
                }
            }
        }
    }
}

/// A list that never fills up keeps everything that is offered.
pub proof fn all_are_offered(entries: Seq<Scored>, cap: int)
    requires
        entries.len() < cap,
    ensures
        forall|entry: Scored|
            entries.contains(entry) ==> #[trigger] offered_all(Seq::empty(), entries, cap).contains(entry),
    decreases entries.len(),
{
    if entries.len() > 0 {
        let few = entries.drop_last();
        all_are_offered(few, cap);
        offered_all_is_nearest(few, cap);
        let list = offered_all(Seq::empty(), few, cap);
        let out = offered_all(Seq::empty(), entries, cap);
        crate::order::slot_splits(list, entries.last());
        let s = crate::order::slot(list, entries.last());
        assert forall|entry: Scored| entries.contains(entry) implies #[trigger] out.contains(entry) by {
            let w = choose|w: int| 0 <= w < entries.len() && entries[w] == entry;
            if w < few.len() {
                assert(few[w] == entry);
                assert(list.contains(entry));
                let v = choose|v: int| 0 <= v < list.len() && list[v] == entry;
                if v < s {
                    assert(out[v] == entry);
                } else {
                    assert(out[v + 1] == entry);
                }
            } else {
                assert(out[s] == entry);
            }
        }
    }
}

} // verus!
