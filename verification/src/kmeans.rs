//! Clustering of vectors around centroids.

use vstd::prelude::*;
use vstd::slice::slice_subrange;
use crate::centres::{clusterings_follow_rounds, comes_of_rounds, starts_apart};
use crate::chance::{arrange, draw, draw_below, held, seeded, shuffled, shuffled_prefix, started};
use crate::distance::{byte_distance, l2_sq8};
use crate::error::{ends, invalid_input, overflow, PrismResult, Verdict};
use crate::order::{ascending, Ranked};
use crate::point::row_bounds;
use crate::pure::{gives_means, mean_of, measures, pair_value};
use crate::single::{
    all_in_domain, byte_to_pattern, check_domain, is_nan, less_than, pattern_of_byte, round_to_byte,
    rounded, value, INFINITY,
};
use crate::vecstore::{row_of, rows_of, VecStore};

verus! {

/// Seed of the choices.
pub const CLUSTER_SEED: u64 = 42;

/// Whether vectors can be clustered.
pub open spec fn kmeans_verdict(base: &VecStore, n: int, dim: int, c: int, iters: int) -> Verdict {
    if n == 0 || dim == 0 {
        Verdict::InvalidInput
    } else if n > u32::MAX {
        Verdict::Overflow
    } else if c < 1 || c > n {
        Verdict::InvalidInput
    } else if c > 0x1_0000 {
        Verdict::Overflow
    } else if iters == 0 {
        Verdict::InvalidInput
    } else if n * dim > usize::MAX {
        Verdict::Overflow
    } else if base.count() != n * dim || (base is F32 && !all_in_domain(base.patterns(), dim)) {
        Verdict::InvalidInput
    } else {
        Verdict::Accepted
    }
}

/// The first of `count` candidates with the least distance, and that distance;
/// the first candidate if none is below `top`.
pub open spec fn closest(distance: spec_fn(int) -> int, top: int, count: int) -> (int, int)
    decreases count,
{
    if count <= 0 {
        (0, top)
    } else {
        let (best, least) = closest(distance, top, count - 1);
        if distance(count - 1) < least {
            (count - 1, distance(count - 1))
        } else {
            (best, least)
        }
    }
}

/// The chosen candidate is as near as any, and the first such.
pub proof fn closest_is_first(distance: spec_fn(int) -> int, top: int, count: int)
    requires
        count > 0,
    ensures
        ({
            let (best, least) = closest(distance, top, count);
            &&& 0 <= best < count
            &&& least <= top
            &&& forall|j: int| 0 <= j < count ==> least <= #[trigger] distance(j)
            &&& least < top ==> least == distance(best) && forall|j: int|
                0 <= j < best ==> least < #[trigger] distance(j)
            &&& least == top ==> best == 0
        }),
    decreases count,
{
    reveal_with_fuel(closest, 2);
    if count > 1 {
        closest_is_first(distance, top, count - 1);
    }
}

/// The points below `upto` that are assigned to cluster `d`, ascending.
pub open spec fn members(assignments: Seq<u16>, d: int, upto: int) -> Seq<u32>
    decreases upto,
{
    if upto <= 0 {
        Seq::empty()
    } else if assignments[upto - 1] == d {
        members(assignments, d, upto - 1).push((upto - 1) as u32)
    } else {
        members(assignments, d, upto - 1)
    }
}

/// All points of cluster `d`.
pub open spec fn cluster(assignments: Seq<u16>, d: int) -> Seq<u32> {
    members(assignments, d, assignments.len() as int)
}

/// The largest of the first `count` clusters, the last one of several.
pub open spec fn donor(assignments: Seq<u16>, count: int) -> int
    decreases count,
{
    if count <= 1 {
        0
    } else {
        let best = donor(assignments, count - 1);
        if cluster(assignments, count - 1).len() >= cluster(assignments, best).len() {
            count - 1
        } else {
            best
        }
    }
}

/// Assignments of points to clusters, and the clusters' centroids.
pub struct Clustering {
    pub assignments: Vec<u16>,
    /// One row of bit patterns per cluster.
    pub centroids: Vec<Vec<u32>>,
}

/// What the algorithm works on: assignments and centroids.
pub type State = (Seq<u16>, Seq<Seq<u32>>);

impl Clustering {
    /// The clustering as values.
    pub open spec fn state(&self) -> State {
        (self.assignments@, rows_of(self.centroids@))
    }

    /// `n` points in `c` clusters, with centroids of `dim` coordinates.
    pub open spec fn wf(&self, n: int, dim: int, c: int) -> bool {
        &&& self.assignments@.len() == n
        &&& self.centroids@.len() == c
        &&& forall|i: int| 0 <= i < n ==> #[trigger] self.assignments@[i] < c
        &&& forall|j: int| 0 <= j < c ==> (#[trigger] self.centroids@[j])@.len() == dim
    }
}

/// The row of point `p`, as bit patterns.
pub open spec fn point_row(base: &VecStore, dim: int, p: int) -> Seq<u32> {
    match base {
        VecStore::U8(bytes) => row_of(bytes@, p, dim).map_values(|byte: u8| pattern_of_byte(byte)),
        VecStore::F32(patterns) => row_of(patterns@, p, dim),
    }
}

/// Distance of point `i` from a centroid.
pub open spec fn centroid_distance<M: Fn(&[u32], &[u32]) -> u32>(
    base: &VecStore,
    dim: int,
    measure: M,
    i: int,
    centroid: Seq<u32>,
) -> int {
    match base {
        VecStore::U8(bytes) => byte_distance(
            row_of(bytes@, i, dim),
            centroid.map_values(|bits: u32| rounded(bits)),
        ) as int,
        VecStore::F32(patterns) => {
            let bits = pair_value(measure, row_of(patterns@, i, dim), centroid);
            if is_nan(bits) {
                value(INFINITY)
            } else {
                value(bits)
            }
        },
    }
}

/// What no distance exceeds.
pub open spec fn farthest(base: &VecStore) -> int {
    match base {
        VecStore::U8(_) => u64::MAX as int,
        VecStore::F32(_) => value(INFINITY),
    }
}

/// The cluster with the centroid that is closest to point `i`.
pub open spec fn home<M: Fn(&[u32], &[u32]) -> u32>(
    base: &VecStore,
    dim: int,
    measure: M,
    centroids: Seq<Seq<u32>>,
    i: int,
) -> u16 {
    closest(
        |j: int| centroid_distance(base, dim, measure, i, centroids[j]),
        farthest(base),
        centroids.len() as int,
    ).0 as u16
}

/// Every point assigned to the closest centroid.
pub open spec fn assigned<M: Fn(&[u32], &[u32]) -> u32>(
    base: &VecStore,
    n: int,
    dim: int,
    measure: M,
    centroids: Seq<Seq<u32>>,
) -> Seq<u16> {
    Seq::new(n as nat, |i: int| home(base, dim, measure, centroids, i))
}

/// The rows of some points, one after another.
pub open spec fn joined_rows(base: &VecStore, dim: int, ids: Seq<u32>) -> Seq<u32>
    decreases ids.len(),
{
    if ids.len() == 0 {
        Seq::empty()
    } else {
        joined_rows(base, dim, ids.drop_last()) + point_row(base, dim, ids.last() as int)
    }
}

/// Centroids moved to the means of their clusters; those of empty clusters stay.
pub open spec fn recentred<G: Fn(&[u32], usize) -> Vec<u32>>(
    base: &VecStore,
    dim: int,
    mean: G,
    assignments: Seq<u16>,
    centroids: Seq<Seq<u32>>,
) -> Seq<Seq<u32>> {
    Seq::new(
        centroids.len(),
        |j: int|
            if cluster(assignments, j).len() > 0 {
                mean_of(mean, joined_rows(base, dim, cluster(assignments, j)), dim as usize)
            } else {
                centroids[j]
            },
    )
}

/// Cluster `d`, if it is empty, gets the point at position `pick` of the
/// largest cluster as its only member and its centroid.
pub open spec fn reseeded(base: &VecStore, dim: int, state: State, d: int, pick: int) -> State {
    let (assignments, centroids) = state;
    if cluster(assignments, d).len() > 0 {
        state
    } else {
        let p = cluster(assignments, donor(assignments, centroids.len() as int))[pick] as int;
        (assignments.update(p, d as u16), centroids.update(d, point_row(base, dim, p)))
    }
}

/// The first `upto` clusters reseeded where they are empty.
pub open spec fn repaired(base: &VecStore, dim: int, state: State, picks: Seq<int>, upto: int) -> State
    decreases upto,
{
    if upto <= 0 {
        state
    } else {
        reseeded(
            base,
            dim,
            repaired(base, dim, state, picks, upto - 1),
            upto - 1,
            picks[upto - 1],
        )
    }
}

/// Pick `d` lies within the largest cluster when cluster `d` comes up.
pub open spec fn pick_fits(base: &VecStore, dim: int, state: State, picks: Seq<int>, d: int) -> bool {
    let (assignments, centroids) = repaired(base, dim, state, picks, d);
    0 <= picks[d] < cluster(assignments, donor(assignments, centroids.len() as int)).len()
}

/// What the generator holds after the picks for the first `upto` clusters, of
/// which it draws one for each that comes up empty.
pub open spec fn after_picks(base: &VecStore, dim: int, state: State, picks: Seq<int>, held: Seq<u32>, upto: int) -> Seq<
    u32,
>
    decreases upto,
{
    if upto <= 0 {
        held
    } else {
        let before = after_picks(base, dim, state, picks, held, upto - 1);
        let (assignments, centroids) = repaired(base, dim, state, picks, upto - 1);
        if cluster(assignments, upto - 1).len() > 0 {
            before
        } else {
            draw(
                before,
                cluster(assignments, donor(assignments, centroids.len() as int)).len(),
                usize::BITS as nat,
            ).1
        }
    }
}

/// Pick `d`, where it is needed, is the one that the generator draws.
pub open spec fn pick_is_drawn(base: &VecStore, dim: int, state: State, picks: Seq<int>, held: Seq<u32>, d: int) -> bool {
    let (assignments, centroids) = repaired(base, dim, state, picks, d);
    cluster(assignments, d).len() == 0 ==> picks[d] == draw(
        after_picks(base, dim, state, picks, held, d),
        cluster(assignments, donor(assignments, centroids.len() as int)).len(),
        usize::BITS as nat,
    ).0
}

/// Assignment to the closest centroids, their recentring, and the repair of
/// empty clusters.
pub open spec fn one_round<M: Fn(&[u32], &[u32]) -> u32, G: Fn(&[u32], usize) -> Vec<u32>>(
    base: &VecStore,
    n: int,
    dim: int,
    measure: M,
    mean: G,
    centroids: Seq<Seq<u32>>,
) -> State {
    let assignments = assigned(base, n, dim, measure, centroids);
    (assignments, recentred(base, dim, mean, assignments, centroids))
}

/// The state after `t` rounds from the given centroids.
pub open spec fn after_rounds<M: Fn(&[u32], &[u32]) -> u32, G: Fn(&[u32], usize) -> Vec<u32>>(
    base: &VecStore,
    n: int,
    dim: int,
    measure: M,
    mean: G,
    start: Seq<Seq<u32>>,
    picks: Seq<Seq<int>>,
    t: int,
) -> State
    decreases t,
{
    if t <= 0 {
        (Seq::empty(), start)
    } else {
        let before = after_rounds(base, n, dim, measure, mean, start, picks, t - 1);
        repaired(
            base,
            dim,
            one_round(base, n, dim, measure, mean, before.1),
            picks[t - 1],
            start.len() as int,
        )
    }
}

/// What the generator holds after `t` rounds.
pub open spec fn after_draws<M: Fn(&[u32], &[u32]) -> u32, G: Fn(&[u32], usize) -> Vec<u32>>(
    base: &VecStore,
    n: int,
    dim: int,
    measure: M,
    mean: G,
    start: Seq<Seq<u32>>,
    picks: Seq<Seq<int>>,
    held: Seq<u32>,
    t: int,
) -> Seq<u32>
    decreases t,
{
    if t <= 0 {
        held
    } else {
        let before = after_rounds(base, n, dim, measure, mean, start, picks, t - 1);
        after_picks(
            base,
            dim,
            one_round(base, n, dim, measure, mean, before.1),
            picks[t - 1],
            after_draws(base, n, dim, measure, mean, start, picks, held, t - 1),
            start.len() as int,
        )
    }
}

/// The picks of round `t` lie within the clusters they are made from, and are
/// those that the generator draws.
pub open spec fn round_fits<M: Fn(&[u32], &[u32]) -> u32, G: Fn(&[u32], usize) -> Vec<u32>>(
    base: &VecStore,
    n: int,
    dim: int,
    measure: M,
    mean: G,
    start: Seq<Seq<u32>>,
    picks: Seq<Seq<int>>,
    held: Seq<u32>,
    t: int,
) -> bool {
    let before = after_rounds(base, n, dim, measure, mean, start, picks, t);
    let state = one_round(base, n, dim, measure, mean, before.1);
    let drawn = after_draws(base, n, dim, measure, mean, start, picks, held, t);
    &&& forall|d: int|
        0 <= d < start.len() ==> #[trigger] pick_fits(base, dim, state, picks[t], d)
    &&& forall|d: int|
        0 <= d < start.len() ==> #[trigger] pick_is_drawn(base, dim, state, picks[t], drawn, d)
}

/// The centroids of the chosen points.
pub open spec fn chosen_rows(base: &VecStore, dim: int, ids: Seq<usize>) -> Seq<Seq<u32>> {
    ids.map_values(|id: usize| point_row(base, dim, id as int))
}

/// The clustering that the generator's choice of starting points and of
/// reseeding points leads to.
pub open spec fn clustered<M: Fn(&[u32], &[u32]) -> u32, G: Fn(&[u32], usize) -> Vec<u32>>(
    base: &VecStore,
    n: int,
    dim: int,
    c: int,
    iters: int,
    measure: M,
    mean: G,
    state: State,
) -> bool {
    exists|picks: Seq<Seq<int>>|
        #[trigger] leads_to(base, n, dim, c, iters, measure, mean, picks, state)
}

/// Starting at the first `c` of the shuffled points, with the picks that the
/// generator draws, the rounds lead to `state`.
pub open spec fn leads_to<M: Fn(&[u32], &[u32]) -> u32, G: Fn(&[u32], usize) -> Vec<u32>>(
    base: &VecStore,
    n: int,
    dim: int,
    c: int,
    iters: int,
    measure: M,
    mean: G,
    picks: Seq<Seq<int>>,
    state: State,
) -> bool {
    let ids = shuffled(started(CLUSTER_SEED), n as nat).take(c);
    let start = chosen_rows(base, dim, ids);
    let held = arrange(started(CLUSTER_SEED), n as nat).1;
    &&& picks.len() == iters
    &&& forall|t: int|
        0 <= t < iters ==> #[trigger] round_fits(base, n, dim, measure, mean, start, picks, held, t)
    &&& state == after_rounds(base, n, dim, measure, mean, start, picks, iters)
}

/// Members ascend and are exactly the points of the cluster.
pub proof fn members_are_exact(assignments: Seq<u16>, d: int, upto: int)
    requires
        0 <= upto <= assignments.len(),
        upto <= u32::MAX,
    ensures
        members(assignments, d, upto).len() <= upto,
        ascending(members(assignments, d, upto)),
        forall|i: int|
            0 <= i < members(assignments, d, upto).len() ==> (#[trigger] members(
                assignments,
                d,
                upto,
            )[i]) < upto && assignments[members(assignments, d, upto)[i] as int] == d,
        forall|p: int|
            0 <= p < upto && #[trigger] assignments[p] == d ==> members(assignments, d, upto).contains(
                p as u32,
            ),
    decreases upto,
{
    if upto > 0 {
        members_are_exact(assignments, d, upto - 1);
        let before = members(assignments, d, upto - 1);
        let all = members(assignments, d, upto);
        assert forall|p: int| 0 <= p < upto && #[trigger] assignments[p] == d implies all.contains(p as u32) by {
            if p < upto - 1 {
                assert(before.contains(p as u32));
                let w = choose|w: int| 0 <= w < before.len() && before[w] == p as u32;
                assert(all[w] == p as u32);
            } else {
                assert(all[before.len() as int] == p as u32);
            }
        }
        assert forall|i: int, j: int| 0 <= i < j < all.len() implies all[i].rank() < all[j].rank() by {
            if j == before.len() {
                assert(before[i] < upto - 1);
            } else {
                assert(before[i].rank() < before[j].rank());
            }
        }
    }
}

/// Number of points below `upto` in the first `count` clusters.
spec fn total(assignments: Seq<u16>, count: int, upto: int) -> int
    decreases count,
{
    if count <= 0 {
        0
    } else {
        total(assignments, count - 1, upto) + members(assignments, count - 1, upto).len()
    }
}

proof fn total_grows(assignments: Seq<u16>, count: int, upto: int)
    requires
        0 <= count,
        0 < upto <= assignments.len(),
    ensures
        total(assignments, count, upto) == total(assignments, count, upto - 1) + (if assignments[upto - 1]
            < count {
            1int
        } else {
            0int
        }),
    decreases count,
{
    if count > 0 {
        total_grows(assignments, count - 1, upto);
    }
}

proof fn total_is_all(assignments: Seq<u16>, count: int, upto: int)
    requires
        0 <= count,
        0 <= upto <= assignments.len(),
        forall|i: int| 0 <= i < assignments.len() ==> #[trigger] assignments[i] < count,
    ensures
        total(assignments, count, upto) == upto,
    decreases upto,
{
    if upto > 0 {
        total_grows(assignments, count, upto);
        total_is_all(assignments, count, upto - 1);
    } else {
        empty_total(assignments, count);
    }
}

proof fn empty_total(assignments: Seq<u16>, count: int)
    ensures
        total(assignments, count, 0) == 0,
    decreases count,
{
    if count > 0 {
        empty_total(assignments, count - 1);
    }
}

/// No cluster is larger than the donor.
pub proof fn donor_is_largest(assignments: Seq<u16>, count: int)
    requires
        count > 0,
    ensures
        0 <= donor(assignments, count) < count,
        forall|d: int|
            0 <= d < count ==> (#[trigger] cluster(assignments, d)).len() <= cluster(
                assignments,
                donor(assignments, count),
            ).len(),
    decreases count,
{
    if count > 1 {
        donor_is_largest(assignments, count - 1);
    }
}

proof fn total_is_bounded(assignments: Seq<u16>, count: int, empty: int)
    requires
        0 <= count,
        cluster(assignments, empty).len() == 0,
        forall|d: int| 0 <= d < count ==> (#[trigger] cluster(assignments, d)).len() <= 1,
    ensures
        total(assignments, count, assignments.len() as int) <= count - (if 0 <= empty < count {
            1int
        } else {
            0int
        }),
    decreases count,
{
    if count > 0 {
        total_is_bounded(assignments, count - 1, empty);
        assert(cluster(assignments, count - 1).len() <= 1);
    }
}

/// Where there are at least as many points as clusters and one cluster is
/// empty, the largest one has two members or more.
pub proof fn donor_can_give(assignments: Seq<u16>, count: int, empty: int)
    requires
        0 <= empty < count <= assignments.len(),
        cluster(assignments, empty).len() == 0,
        forall|i: int| 0 <= i < assignments.len() ==> #[trigger] assignments[i] < count,
    ensures
        cluster(assignments, donor(assignments, count)).len() >= 2,
{
    donor_is_largest(assignments, count);
    if cluster(assignments, donor(assignments, count)).len() <= 1 {
        assert forall|d: int| 0 <= d < count implies (#[trigger] cluster(assignments, d)).len() <= 1 by {
        }
        total_is_bounded(assignments, count, empty);
        total_is_all(assignments, count, assignments.len() as int);
    }
}

/// The points of a cluster.
fn member_list(assignments: &Vec<u16>, d: usize) -> (list: Vec<u32>)
    requires
        assignments@.len() <= u32::MAX,
    ensures
        list@ == cluster(assignments@, d as int),
{
    let mut list: Vec<u32> = Vec::new();
    let mut i: usize = 0;
    while i < assignments.len()
        invariant
            i <= assignments@.len() <= u32::MAX,
            list@ == members(assignments@, d as int, i as int),
        decreases assignments@.len() - i,
    {
        if assignments[i] as usize == d {
            list.push(i as u32);
        }
        i = i + 1;
    }
    list
}

/// Sizes of the clusters.
fn cluster_sizes(assignments: &Vec<u16>, c: usize) -> (sizes: Vec<usize>)
    requires
        assignments@.len() <= u32::MAX,
        forall|i: int| 0 <= i < assignments@.len() ==> #[trigger] assignments@[i] < c,
    ensures
        sizes@.len() == c,
        forall|d: int| 0 <= d < c ==> #[trigger] sizes@[d] == cluster(assignments@, d).len(),
{
    let mut sizes: Vec<usize> = Vec::new();
    while sizes.len() < c
        invariant
            sizes@.len() <= c,
            forall|d: int| 0 <= d < sizes@.len() ==> #[trigger] sizes@[d] == 0,
        decreases c - sizes@.len(),
    {
        sizes.push(0);
    }
    let mut i: usize = 0;
    while i < assignments.len()
        invariant
            i <= assignments@.len() <= u32::MAX,
            sizes@.len() == c,
            forall|j: int| 0 <= j < assignments@.len() ==> #[trigger] assignments@[j] < c,
            forall|d: int|
                0 <= d < c ==> #[trigger] sizes@[d] == members(assignments@, d, i as int).len()
                    && sizes@[d] <= i,
        decreases assignments@.len() - i,
    {
        let d: usize = assignments[i] as usize;
        assert(assignments@[i as int] < c);
        assert(sizes@[d as int] <= i);
        let grown: usize = sizes[d] + 1;
        sizes.set(d, grown);
        i = i + 1;
    }
    sizes
}

/// The largest cluster, the last one of several.
fn find_donor(sizes: &Vec<usize>, Ghost(assignments): Ghost<Seq<u16>>) -> (d: usize)
    requires
        sizes@.len() > 0,
        forall|d: int| 0 <= d < sizes@.len() ==> #[trigger] sizes@[d] == cluster(assignments, d).len(),
    ensures
        d == donor(assignments, sizes@.len() as int),
        d < sizes@.len(),
{
    let mut best: usize = 0;
    let mut i: usize = 1;
    while i < sizes.len()
        invariant
            1 <= i <= sizes@.len(),
            best < i,
            best == donor(assignments, i as int),
            forall|d: int|
                0 <= d < sizes@.len() ==> #[trigger] sizes@[d] == cluster(assignments, d).len(),
        decreases sizes@.len() - i,
    {
        assert(sizes@[i as int] == cluster(assignments, i as int).len());
        assert(sizes@[best as int] == cluster(assignments, best as int).len());
        if sizes[i] >= sizes[best] {
            best = i;
        }
        i = i + 1;
    }
    best
}

/// The row of a point, as bit patterns.
fn row_patterns(base: &VecStore, n: usize, dim: usize, p: usize) -> (row: Vec<u32>)
    requires
        base.count() == n * dim,
        p < n,
        dim > 0,
    ensures
        row@ == point_row(base, dim as int, p as int),
        row@.len() == dim,
{
    proof {
        row_bounds(p as int, n as int, dim as int);
    }
    let total: usize = base.len();
    let start: usize = p * dim;
    let mut row: Vec<u32> = Vec::new();
    while row.len() < dim
        invariant
            row@.len() <= dim,
            base.count() == total,
            start + dim <= total,
            start == p * dim,
            start + dim == (p + 1) * dim,
            forall|d: int|
                0 <= d < row@.len() ==> #[trigger] row@[d] == point_row(base, dim as int, p as int)[d],
        decreases dim - row@.len(),
    {
        let d: usize = row.len();
        let bits: u32 = match base {
            VecStore::U8(bytes) => byte_to_pattern(bytes[start + d]),
            VecStore::F32(patterns) => patterns[start + d],
        };
        row.push(bits);
    }
    assert(row@ =~= point_row(base, dim as int, p as int));
    row
}

/// Bytes of a row of patterns.
fn rounded_row(row: &Vec<u32>) -> (bytes: Vec<u8>)
    ensures
        bytes@ == row@.map_values(|bits: u32| rounded(bits)),
{
    let mut bytes: Vec<u8> = Vec::new();
    let mut i: usize = 0;
    while i < row.len()
        invariant
            i <= row@.len(),
            bytes@.len() == i,
            forall|j: int| 0 <= j < i ==> #[trigger] bytes@[j] == rounded(row@[j]),
        decreases row@.len() - i,
    {
        bytes.push(round_to_byte(row[i]));
        i = i + 1;
    }
    assert(bytes@ =~= row@.map_values(|bits: u32| rounded(bits)));
    bytes
}

/// The cluster whose centroid is closest to a byte vector.
fn closest_bytes(
    vector: &[u8],
    rows: &Vec<Vec<u8>>,
    Ghost(distance): Ghost<spec_fn(int) -> int>,
) -> (best: usize)
    requires
        0 < rows@.len(),
        forall|j: int| 0 <= j < rows@.len() ==> (#[trigger] rows@[j])@.len() == vector@.len(),
        forall|j: int|
            0 <= j < rows@.len() ==> distance(j) == byte_distance(vector@, (#[trigger] rows@[j])@),
    ensures
        best == closest(distance, u64::MAX as int, rows@.len() as int).0,
        best < rows@.len(),
{
    let mut best: usize = 0;
    let mut least: u64 = u64::MAX;
    let mut j: usize = 0;
    while j < rows.len()
        invariant
            j <= rows@.len(),
            0 < rows@.len(),
            best < rows@.len(),
            forall|k: int| 0 <= k < rows@.len() ==> (#[trigger] rows@[k])@.len() == vector@.len(),
            forall|k: int|
                0 <= k < rows@.len() ==> distance(k) == byte_distance(vector@, (#[trigger] rows@[k])@),
            (best as int, least as int) == closest(distance, u64::MAX as int, j as int),
        decreases rows@.len() - j,
    {
        assert(rows@[j as int]@.len() == vector@.len());
        let d: u64 = l2_sq8(vector, rows[j].as_slice());
        if d < least {
            best = j;
            least = d;
        }
        j = j + 1;
    }
    best
}

/// The cluster whose centroid is closest to a single-precision vector.
fn closest_patterns<M: Fn(&[u32], &[u32]) -> u32>(
    vector: &[u32],
    centroids: &Vec<Vec<u32>>,
    measure: &M,
    base: &VecStore,
    dim: usize,
    Ghost(i): Ghost<int>,
) -> (best: usize)
    requires
        base is F32,
        vector@ == row_of(base.patterns(), i, dim as int),
        vector@.len() == dim,
        0 < centroids@.len(),
        forall|j: int| 0 <= j < centroids@.len() ==> (#[trigger] centroids@[j])@.len() == dim,
        measures(*measure, dim as int),
    ensures
        best == closest(
            |j: int|
                centroid_distance(base, dim as int, *measure, i, rows_of(centroids@)[j]),
            value(INFINITY),
            centroids@.len() as int,
        ).0,
        best < centroids@.len(),
{
    let ghost rows = rows_of(centroids@);
    let ghost distance = |j: int|
        centroid_distance(base, dim as int, *measure, i, rows[j]);
    let mut best: usize = 0;
    let mut least: u32 = INFINITY;
    let mut j: usize = 0;
    while j < centroids.len()
        invariant
            j <= centroids@.len(),
            best < centroids@.len(),
            base is F32,
            vector@ == row_of(base.patterns(), i, dim as int),
            vector@.len() == dim,
            rows == rows_of(centroids@),
            forall|k: int| 0 <= k < centroids@.len() ==> (#[trigger] centroids@[k])@.len() == dim,
            measures(*measure, dim as int),
            !is_nan(least),
            value(least) <= value(INFINITY),
            distance == (|j: int|
                centroid_distance(base, dim as int, *measure, i, rows[j])),
            (best as int, value(least)) == closest(distance, value(INFINITY), j as int),
        decreases centroids@.len() - j,
    {
        assert(centroids@[j as int]@.len() == dim);
        let d: u32 = measure(vector, centroids[j].as_slice());
        proof {
            assert(rows[j as int] == centroids@[j as int]@);
            assert(distance(j as int) == if is_nan(d) {
                value(INFINITY)
            } else {
                value(d)
            });
        }
        if less_than(d, least) {
            best = j;
            least = d;
        }
        j = j + 1;
    }
    best
}

/// Assigns every point to the closest centroid.
fn assign_points<M: Fn(&[u32], &[u32]) -> u32>(
    base: &VecStore,
    n: usize,
    dim: usize,
    centroids: &Vec<Vec<u32>>,
    measure: &M,
) -> (assignments: Vec<u16>)
    requires
        n <= u32::MAX,
        dim > 0,
        base.count() == n * dim,
        0 < centroids@.len() <= 0x1_0000,
        forall|j: int| 0 <= j < centroids@.len() ==> (#[trigger] centroids@[j])@.len() == dim,
        base is F32 ==> measures(*measure, dim as int),
    ensures
        assignments@ == assigned(base, n as int, dim as int, *measure, rows_of(centroids@)),
        forall|i: int| 0 <= i < n ==> #[trigger] assignments@[i] < centroids@.len(),
{
    let ghost rows = rows_of(centroids@);
    let mut bytes: Vec<Vec<u8>> = Vec::new();
    if let VecStore::U8(_) = base {
        while bytes.len() < centroids.len()
            invariant
                bytes@.len() <= centroids@.len(),
                forall|j: int|
                    0 <= j < bytes@.len() ==> (#[trigger] bytes@[j])@ == centroids@[j]@.map_values(
                        |bits: u32| rounded(bits),
                    ),
            decreases centroids@.len() - bytes@.len(),
        {
            bytes.push(rounded_row(&centroids[bytes.len()]));
        }
    }
    let mut assignments: Vec<u16> = Vec::new();
    let mut i: usize = 0;
    while i < n
        invariant
            i <= n <= u32::MAX,
            dim > 0,
            base.count() == n * dim,
            0 < centroids@.len() <= 0x1_0000,
            rows == rows_of(centroids@),
            forall|j: int| 0 <= j < centroids@.len() ==> (#[trigger] centroids@[j])@.len() == dim,
            base is F32 ==> measures(*measure, dim as int),
            base is U8 ==> bytes@.len() == centroids@.len(),
            forall|j: int|
                0 <= j < bytes@.len() ==> (#[trigger] bytes@[j])@ == centroids@[j]@.map_values(
                    |bits: u32| rounded(bits),
                ),
            assignments@.len() == i,
            forall|p: int|
                0 <= p < i ==> #[trigger] assignments@[p] == home(base, dim as int, *measure, rows, p)
                    && assignments@[p] < centroids@.len(),
        decreases n - i,
    {
        proof {
            row_bounds(i as int, n as int, dim as int);
        }
        let best: usize = match base {
            VecStore::U8(data) => {
                let total: usize = data.len();
                let start: usize = i * dim;
                let vector = slice_subrange(data.as_slice(), start, start + dim);
                let ghost distance = |j: int|
                    centroid_distance(base, dim as int, *measure, i as int, rows[j]);
                proof {
                    assert forall|j: int| 0 <= j < bytes@.len() implies (#[trigger] bytes@[j])@.len()
                        == vector@.len() by {
                        assert(centroids@[j]@.len() == dim);
                    }
                    assert forall|j: int| 0 <= j < bytes@.len() implies distance(j) == byte_distance(
                        vector@,
                        (#[trigger] bytes@[j])@,
                    ) by {
                        assert(rows[j] == centroids@[j]@);
                    }
                }
                closest_bytes(vector, &bytes, Ghost(distance))
            },
            VecStore::F32(data) => {
                let total: usize = data.len();
                let start: usize = i * dim;
                let vector = slice_subrange(data.as_slice(), start, start + dim);
                closest_patterns(vector, centroids, measure, base, dim, Ghost(i as int))
            },
        };
        assignments.push(best as u16);
        i = i + 1;
    }
    assert(assignments@ =~= assigned(base, n as int, dim as int, *measure, rows));
    assignments
}

/// The rows of some points, one after another.
fn join_rows(base: &VecStore, n: usize, dim: usize, ids: &Vec<u32>) -> (rows: Vec<u32>)
    requires
        base.count() == n * dim,
        dim > 0,
        forall|i: int| 0 <= i < ids@.len() ==> #[trigger] ids@[i] < n,
    ensures
        rows@ == joined_rows(base, dim as int, ids@),
{
    let mut rows: Vec<u32> = Vec::new();
    let mut i: usize = 0;
    assert(ids@.take(0) =~= Seq::<u32>::empty());
    while i < ids.len()
        invariant
            i <= ids@.len(),
            base.count() == n * dim,
            dim > 0,
            forall|k: int| 0 <= k < ids@.len() ==> #[trigger] ids@[k] < n,
            rows@ == joined_rows(base, dim as int, ids@.take(i as int)),
        decreases ids@.len() - i,
    {
        let mut row = row_patterns(base, n, dim, ids[i] as usize);
        rows.append(&mut row);
        proof {
            assert(ids@.take(i + 1).drop_last() =~= ids@.take(i as int));
        }
        i = i + 1;
    }
    assert(ids@.take(ids@.len() as int) =~= ids@);
    rows
}

/// Moves the centroids to the means of their clusters.
fn recentre<G: Fn(&[u32], usize) -> Vec<u32>>(
    base: &VecStore,
    n: usize,
    assignments: &Vec<u16>,
    centroids: Vec<Vec<u32>>,
    dim: usize,
    mean: &G,
) -> (moved: Vec<Vec<u32>>)
    requires
        assignments@.len() == n,
        n <= u32::MAX,
        base.count() == n * dim,
        dim > 0,
        forall|j: int| 0 <= j < centroids@.len() ==> (#[trigger] centroids@[j])@.len() == dim,
        gives_means(*mean, dim),
    ensures
        rows_of(moved@) == recentred(base, dim as int, *mean, assignments@, rows_of(centroids@)),
        moved@.len() == centroids@.len(),
        forall|j: int| 0 <= j < moved@.len() ==> (#[trigger] moved@[j])@.len() == dim,
{
    let ghost before = centroids@;
    let ghost expected = recentred(base, dim as int, *mean, assignments@, rows_of(before));
    let mut moved = centroids;
    let mut j: usize = 0;
    while j < moved.len()
        invariant
            j <= moved@.len(),
            moved@.len() == before.len(),
            assignments@.len() == n,
            n <= u32::MAX,
            base.count() == n * dim,
            dim > 0,
            forall|k: int| 0 <= k < moved@.len() ==> (#[trigger] moved@[k])@.len() == dim,
            gives_means(*mean, dim),
            expected == recentred(base, dim as int, *mean, assignments@, rows_of(before)),
            forall|k: int| 0 <= k < j ==> (#[trigger] moved@[k])@ == expected[k],
            forall|k: int| j <= k < moved@.len() ==> #[trigger] moved@[k] == before[k],
        decreases moved@.len() - j,
    {
        let list = member_list(assignments, j);
        assert(rows_of(before)[j as int] == before[j as int]@);
        if list.len() > 0 {
            proof {
                members_are_exact(assignments@, j as int, n as int);
            }
            let rows = join_rows(base, n, dim, &list);
            let row = mean(rows.as_slice(), dim);
            moved.set(j, row);
        }
        j = j + 1;
    }
    assert(rows_of(moved@) =~= expected);
    moved
}

/// A cluster has a member exactly if some point is assigned to it.
pub proof fn populated(assignments: Seq<u16>, d: int)
    requires
        assignments.len() <= u32::MAX,
    ensures
        cluster(assignments, d).len() > 0 <==> exists|i: int|
            0 <= i < assignments.len() && #[trigger] assignments[i] == d,
{
    let n = assignments.len() as int;
    members_are_exact(assignments, d, n);
    let all = cluster(assignments, d);
    if all.len() > 0 {
        assert(all[0] < n);
        assert(assignments[all[0] as int] == d);
    }
    if exists|i: int| 0 <= i < n && #[trigger] assignments[i] == d {
        let i = choose|i: int| 0 <= i < n && #[trigger] assignments[i] == d;
        assert(all.contains(i as u32));
    }
}

/// Reseeding fills the cluster and empties no other.
pub proof fn reseeding_fills(base: &VecStore, dim: int, state: State, d: int, pick: int)
    requires
        state.0.len() <= u32::MAX,
        0 <= d < state.1.len() <= state.0.len(),
        state.1.len() <= 0x1_0000,
        forall|i: int| 0 <= i < state.0.len() ==> #[trigger] state.0[i] < state.1.len(),
        0 <= pick < cluster(state.0, donor(state.0, state.1.len() as int)).len(),
    ensures
        ({
            let after = reseeded(base, dim, state, d, pick);
            &&& after.0.len() == state.0.len()
            &&& after.1.len() == state.1.len()
            &&& forall|i: int| 0 <= i < state.0.len() ==> #[trigger] after.0[i] < state.1.len()
            &&& cluster(after.0, d).len() > 0
            &&& forall|e: int|
                0 <= e < state.1.len() && cluster(state.0, e).len() > 0 ==> #[trigger] cluster(
                    after.0,
                    e,
                ).len() > 0
        }),
{
    let a = state.0;
    let n = a.len() as int;
    let c = state.1.len() as int;
    let after = reseeded(base, dim, state, d, pick).0;
    if cluster(a, d).len() == 0 {
        let from = donor(a, c);
        donor_can_give(a, c, d);
        donor_is_largest(a, c);
        let giving = cluster(a, from);
        members_are_exact(a, from, n);
        let p = giving[pick] as int;
        assert(giving[pick] < n && a[p] == from);
        assert(after[p] == d);
        populated(after, d);
        assert forall|e: int| 0 <= e < c && cluster(a, e).len() > 0 implies #[trigger] cluster(after, e).len()
            > 0 by {
            populated(a, e);
            populated(after, e);
            if e == from {
                let other = if pick == 0 {
                    1int
                } else {
                    0int
                };
                let q = giving[other] as int;
                assert(giving[other] < n && a[q] == from);
                if other < pick {
                    assert(giving[other].rank() < giving[pick].rank());
                } else {
                    assert(giving[pick].rank() < giving[other].rank());
                }
                assert(after[q] == e);
            } else {
                let i = choose|i: int| 0 <= i < n && #[trigger] a[i] == e;
                assert(after[i] == e);
            }
        }
    }
}

/// After the repair every cluster has a member.
pub proof fn repair_fills_every_cluster(
    base: &VecStore,
    dim: int,
    state: State,
    picks: Seq<int>,
    upto: int,
)
    requires
        state.0.len() <= u32::MAX,
        0 < state.1.len() <= state.0.len(),
        state.1.len() <= 0x1_0000,
        0 <= upto <= state.1.len(),
        forall|i: int| 0 <= i < state.0.len() ==> #[trigger] state.0[i] < state.1.len(),
        forall|d: int| 0 <= d < upto ==> #[trigger] pick_fits(base, dim, state, picks, d),
    ensures
        ({
            let after = repaired(base, dim, state, picks, upto);
            &&& after.0.len() == state.0.len()
            &&& after.1.len() == state.1.len()
            &&& forall|i: int| 0 <= i < state.0.len() ==> #[trigger] after.0[i] < state.1.len()
            &&& forall|e: int| 0 <= e < upto ==> (#[trigger] cluster(after.0, e)).len() > 0
        }),
    decreases upto,
{
    if upto > 0 {
        let d = upto - 1;
        repair_fills_every_cluster(base, dim, state, picks, d);
        let before = repaired(base, dim, state, picks, d);
        assert(pick_fits(base, dim, state, picks, d));
        reseeding_fills(base, dim, before, d, picks[d]);
        let after = repaired(base, dim, state, picks, upto);
        assert forall|e: int| 0 <= e < upto implies (#[trigger] cluster(after.0, e)).len() > 0 by {
            if e < d {
                assert(cluster(before.0, e).len() > 0);
            }
        }
    }
}

/// How many members the cluster has from which an empty cluster `d` is
/// reseeded; nothing if `d` is not empty.
pub fn reseeding_choices(clustering: &Clustering, d: usize) -> (choices: Option<usize>)
    requires
        clustering.assignments@.len() <= u32::MAX,
        0 < clustering.centroids@.len(),
        forall|i: int|
            0 <= i < clustering.assignments@.len() ==> #[trigger] clustering.assignments@[i]
                < clustering.centroids@.len(),
        d < clustering.centroids@.len(),
    ensures
        choices is None <==> cluster(clustering.assignments@, d as int).len() > 0,
        choices matches Some(count) ==> count == cluster(
            clustering.assignments@,
            donor(clustering.assignments@, clustering.centroids@.len() as int),
        ).len(),
{
    let sizes = cluster_sizes(&clustering.assignments, clustering.centroids.len());
    assert(sizes@[d as int] == cluster(clustering.assignments@, d as int).len());
    if sizes[d] > 0 {
        return None;
    }
    let from: usize = find_donor(&sizes, Ghost(clustering.assignments@));
    assert(sizes@[from as int] == cluster(clustering.assignments@, from as int).len());
    Some(sizes[from])
}

/// Gives an empty cluster `d` the point at position `pick` of the largest
/// cluster; a cluster with members stays as it is.
pub fn reseed_cluster(
    clustering: &mut Clustering,
    base: &VecStore,
    n: usize,
    dim: usize,
    c: usize,
    d: usize,
    pick: usize,
)
    requires
        old(clustering).wf(n as int, dim as int, c as int),
        base.count() == n * dim,
        0 < dim,
        d < c <= n <= u32::MAX,
        c <= 0x1_0000,
        cluster(old(clustering).assignments@, d as int).len() == 0 ==> pick < cluster(
            old(clustering).assignments@,
            donor(old(clustering).assignments@, c as int),
        ).len(),
    ensures
        final(clustering).wf(n as int, dim as int, c as int),
        final(clustering).state() == reseeded(
            base,
            dim as int,
            old(clustering).state(),
            d as int,
            pick as int,
        ),
{
    let ghost before = clustering.state();
    let sizes = cluster_sizes(&clustering.assignments, c);
    assert(sizes@[d as int] == cluster(clustering.assignments@, d as int).len());
    if sizes[d] > 0 {
        return;
    }
    let from: usize = find_donor(&sizes, Ghost(clustering.assignments@));
    let list = member_list(&clustering.assignments, from);
    let p: usize = list[pick] as usize;
    proof {
        members_are_exact(clustering.assignments@, from as int, n as int);
        assert(list@[pick as int] < n);
    }
    let row = row_patterns(base, n, dim, p);
    clustering.assignments.set(p, d as u16);
    clustering.centroids.set(d, row);
    proof {
        let expected = reseeded(base, dim as int, before, d as int, pick as int);
        assert(clustering.assignments@ =~= expected.0);
        assert(rows_of(clustering.centroids@) =~= expected.1);
    }
}

/// Checks what is to be clustered.
fn check_kmeans(base: &VecStore, n: usize, dim: usize, c: usize, iters: usize) -> (result: PrismResult<()>)
    ensures
        ends(result, kmeans_verdict(base, n as int, dim as int, c as int, iters as int)),
{
    if n == 0 {
        return Err(invalid_input("k-means requires at least one vector"));
    }
    if dim == 0 {
        return Err(invalid_input("k-means dimension must be greater than zero"));
    }
    if n as u64 > u32::MAX as u64 {
        return Err(overflow("k-means point count exceeds the u32 identifier space"));
    }
    if c < 1 || c > n {
        return Err(invalid_input("k-means cluster count must be between 1 and the point count"));
    }
    if c > 0x1_0000 {
        return Err(overflow("k-means cluster count exceeds the u16 assignment space"));
    }
    if iters == 0 {
        return Err(invalid_input("k-means iteration count must be greater than zero"));
    }
    let expected: usize = match n.checked_mul(dim) {
        Some(expected) => expected,
        None => {
            return Err(overflow("k-means vector shape exceeds addressable memory"));
        },
    };
    if base.len() != expected {
        return Err(invalid_input("k-means vector data length must equal n * dimension"));
    }
    if let VecStore::F32(values) = base {
        if !check_domain(values.as_slice(), dim) {
            return Err(invalid_input("k-means vector must be finite and within the distance domain"));
        }
    }
    Ok(())
}

/// The chosen points' rows.
fn starting_rows(base: &VecStore, n: usize, dim: usize, ids: &Vec<usize>) -> (rows: Vec<Vec<u32>>)
    requires
        base.count() == n * dim,
        dim > 0,
        forall|j: int| 0 <= j < ids@.len() ==> #[trigger] ids@[j] < n,
    ensures
        rows_of(rows@) == chosen_rows(base, dim as int, ids@),
        rows@.len() == ids@.len(),
        forall|j: int| 0 <= j < rows@.len() ==> (#[trigger] rows@[j])@.len() == dim,
{
    let mut rows: Vec<Vec<u32>> = Vec::new();
    while rows.len() < ids.len()
        invariant
            rows@.len() <= ids@.len(),
            base.count() == n * dim,
            dim > 0,
            forall|j: int| 0 <= j < ids@.len() ==> #[trigger] ids@[j] < n,
            forall|j: int|
                0 <= j < rows@.len() ==> (#[trigger] rows@[j])@.len() == dim && rows@[j]@ == point_row(
                    base,
                    dim as int,
                    ids@[j] as int,
                ),
        decreases ids@.len() - rows@.len(),
    {
        let j: usize = rows.len();
        assert(ids@[j as int] < n);
        rows.push(row_patterns(base, n, dim, ids[j]));
    }
    assert(rows_of(rows@) =~= chosen_rows(base, dim as int, ids@));
    rows
}

/// The centroids as flat storage of the kind of `base`.
pub open spec fn stores_centroids(base: &VecStore, dim: int, centroids: Seq<Seq<u32>>, store: &VecStore) -> bool {
    &&& store is U8 <==> base is U8
    &&& store.count() == centroids.len() * dim
    &&& forall|j: int|
        0 <= j < centroids.len() && base is F32 ==> #[trigger] row_of(store.patterns(), j, dim)
            == centroids[j]
    &&& forall|j: int|
        0 <= j < centroids.len() && base is U8 ==> #[trigger] row_of(store.bytes(), j, dim)
            == centroids[j].map_values(|bits: u32| rounded(bits))
}

/// Appends a row to flat storage.
fn append_row<T: Copy>(flat: &mut Vec<T>, row: &Vec<T>, Ghost(rows): Ghost<Seq<Seq<T>>>)
    requires
        row@.len() > 0,
        flat_rows(old(flat)@, rows, row@.len() as int),
    ensures
        flat_rows(final(flat)@, rows.push(row@), row@.len() as int),
{
    let ghost before = flat@;
    let ghost dim = row@.len() as int;
    let mut d: usize = 0;
    while d < row.len()
        invariant
            d <= row@.len(),
            flat@ =~= before + row@.take(d as int),
        decreases row@.len() - d,
    {
        flat.push(row[d]);
        d = d + 1;
    }
    proof {
        assert(row@.take(dim) =~= row@);
        let all = rows.push(row@);
        let count = rows.len() as int;
        assert((count + 1) * dim == count * dim + dim) by (nonlinear_arith);
        assert forall|j: int| 0 <= j < all.len() implies #[trigger] row_of(flat@, j, dim) == all[j] by {
            row_bounds(j, count + 1, dim);
            if j < count {
                row_bounds(j, count, dim);
                assert(row_of(flat@, j, dim) =~= row_of(before, j, dim));
            } else {
                assert(row_of(flat@, j, dim) =~= row@);
            }
        }
    }
}

/// Flat storage holds exactly the rows.
spec fn flat_rows<T>(flat: Seq<T>, rows: Seq<Seq<T>>, dim: int) -> bool {
    &&& flat.len() == rows.len() * dim
    &&& forall|j: int| 0 <= j < rows.len() ==> #[trigger] row_of(flat, j, dim) == rows[j]
}

/// The centroids as flat storage of the kind of `base`.
fn flatten_centroids(base: &VecStore, dim: usize, centroids: &Vec<Vec<u32>>) -> (store: VecStore)
    requires
        dim > 0,
        forall|j: int| 0 <= j < centroids@.len() ==> (#[trigger] centroids@[j])@.len() == dim,
    ensures
        stores_centroids(base, dim as int, rows_of(centroids@), &store),
{
    let ghost rows = rows_of(centroids@);
    match base {
        VecStore::U8(_) => {
            let mut flat: Vec<u8> = Vec::new();
            let ghost mut done: Seq<Seq<u8>> = Seq::empty();
            let mut j: usize = 0;
            while j < centroids.len()
                invariant
                    j <= centroids@.len(),
                    dim > 0,
                    rows == rows_of(centroids@),
                    forall|k: int| 0 <= k < centroids@.len() ==> (#[trigger] centroids@[k])@.len() == dim,
                    done.len() == j,
                    flat_rows(flat@, done, dim as int),
                    forall|k: int|
                        0 <= k < j ==> #[trigger] done[k] == rows[k].map_values(|bits: u32| rounded(bits)),
                decreases centroids@.len() - j,
            {
                assert(centroids@[j as int]@.len() == dim);
                let row = rounded_row(&centroids[j]);
                append_row(&mut flat, &row, Ghost(done));
                proof {
                    assert(rows[j as int] == centroids@[j as int]@);
                    done = done.push(row@);
                }
                j = j + 1;
            }
            let store = VecStore::U8(flat);
            assert forall|k: int| 0 <= k < rows.len() implies #[trigger] row_of(store.bytes(), k, dim as int)
                == rows[k].map_values(|bits: u32| rounded(bits)) by {
                assert(row_of(flat@, k, dim as int) == done[k]);
            }
            store
        },
        VecStore::F32(_) => {
            let mut flat: Vec<u32> = Vec::new();
            let ghost mut done: Seq<Seq<u32>> = Seq::empty();
            let mut j: usize = 0;
            while j < centroids.len()
                invariant
                    j <= centroids@.len(),
                    dim > 0,
                    rows == rows_of(centroids@),
                    forall|k: int| 0 <= k < centroids@.len() ==> (#[trigger] centroids@[k])@.len() == dim,
                    done.len() == j,
                    flat_rows(flat@, done, dim as int),
                    forall|k: int| 0 <= k < j ==> #[trigger] done[k] == rows[k],
                decreases centroids@.len() - j,
            {
                assert(centroids@[j as int]@.len() == dim);
                append_row(&mut flat, &centroids[j], Ghost(done));
                proof {
                    done = done.push(centroids@[j as int]@);
                }
                j = j + 1;
            }
            let store = VecStore::F32(flat);
            assert forall|k: int| 0 <= k < rows.len() implies #[trigger] row_of(
                store.patterns(),
                k,
                dim as int,
            ) == rows[k] by {
                assert(row_of(flat@, k, dim as int) == done[k]);
            }
            store
        },
    }
}

/// One round: assignment, recentring, and the repair of empty clusters with
/// drawn points.
fn run_round<M: Fn(&[u32], &[u32]) -> u32, G: Fn(&[u32], usize) -> Vec<u32>>(
    base: &VecStore,
    n: usize,
    dim: usize,
    c: usize,
    measure: &M,
    mean: &G,
    centroids: Vec<Vec<u32>>,
    rng: &mut rand::rngs::StdRng,
) -> (result: (Clustering, Ghost<Seq<int>>))
    requires
        base.count() == n * dim,
        0 < dim,
        0 < c <= n <= u32::MAX,
        c <= 0x1_0000,
        centroids@.len() == c,
        forall|j: int| 0 <= j < c ==> (#[trigger] centroids@[j])@.len() == dim,
        base is F32 ==> measures(*measure, dim as int),
        gives_means(*mean, dim),
    ensures
        result.0.wf(n as int, dim as int, c as int),
        ({
            let after = one_round(
                base,
                n as int,
                dim as int,
                *measure,
                *mean,
                rows_of(centroids@),
            );
            &&& result.0.state() == repaired(base, dim as int, after, result.1@, c as int)
            &&& forall|d: int|
                0 <= d < c ==> #[trigger] pick_fits(base, dim as int, after, result.1@, d)
            &&& forall|d: int|
                0 <= d < c ==> #[trigger] pick_is_drawn(
                    base,
                    dim as int,
                    after,
                    result.1@,
                    held(*old(rng)),
                    d,
                )
            &&& held(*final(rng)) == after_picks(
                base,
                dim as int,
                after,
                result.1@,
                held(*old(rng)),
                c as int,
            )
            &&& forall|d: int| 0 <= d < c ==> (#[trigger] cluster(result.0.assignments@, d)).len() > 0
        }),
{
    let ghost rows = rows_of(centroids@);
    let assignments = assign_points(base, n, dim, &centroids, measure);
    let centroids = recentre(base, n, &assignments, centroids, dim, mean);
    let ghost after = one_round(base, n as int, dim as int, *measure, *mean, rows);
    let mut clustering = Clustering { assignments, centroids };
    assert(clustering.state().0 == after.0);
    assert(clustering.state().1 == after.1);
    let ghost began = held(*rng);
    let ghost mut picks: Seq<int> = Seq::new(c as nat, |d: int| 0);
    let mut d: usize = 0;
    while d < c
        invariant
            d <= c,
            base.count() == n * dim,
            0 < dim,
            0 < c <= n <= u32::MAX,
            c <= 0x1_0000,
            after.0.len() == n,
            after.1.len() == c,
            forall|i: int| 0 <= i < n ==> #[trigger] after.0[i] < c,
            clustering.wf(n as int, dim as int, c as int),
            picks.len() == c,
            clustering.state() == repaired(base, dim as int, after, picks, d as int),
            forall|e: int| 0 <= e < d ==> #[trigger] pick_fits(base, dim as int, after, picks, e),
            forall|e: int|
                0 <= e < d ==> #[trigger] pick_is_drawn(base, dim as int, after, picks, began, e),
            held(*rng) == after_picks(base, dim as int, after, picks, began, d as int),
        decreases c - d,
    {
        let pick: usize = match reseeding_choices(&clustering, d) {
            Some(count) => {
                proof {
                    donor_can_give(clustering.assignments@, c as int, d as int);
                }
                draw_below(rng, count)
            },
            None => 0,
        };
        let ghost old_picks = picks;
        proof {
            donor_is_largest(clustering.assignments@, c as int);
            picks = picks.update(d as int, pick as int);
            same_picks(base, dim as int, after, old_picks, picks, began, d as int);
            assert forall|e: int| 0 <= e < d + 1 implies #[trigger] pick_is_drawn(
                base,
                dim as int,
                after,
                picks,
                began,
                e,
            ) by {
                if e < d {
                    assert(pick_is_drawn(base, dim as int, after, old_picks, began, e));
                    same_picks(base, dim as int, after, old_picks, picks, began, e);
                }
            }
            assert forall|e: int| 0 <= e < d + 1 implies #[trigger] pick_fits(
                base,
                dim as int,
                after,
                picks,
                e,
            ) by {
                if e < d {
                    assert(pick_fits(base, dim as int, after, old_picks, e));
                    same_picks(base, dim as int, after, old_picks, picks, began, e);
                } else {
                    assert(cluster(clustering.assignments@, d as int).len() <= cluster(
                        clustering.assignments@,
                        donor(clustering.assignments@, c as int),
                    ).len());
                }
            }
        }
        reseed_cluster(&mut clustering, base, n, dim, c, d, pick);
        d = d + 1;
    }
    proof {
        repair_fills_every_cluster(base, dim as int, after, picks, c as int);
    }
    (clustering, Ghost(picks))
}

/// The repair of the first clusters, and what the generator then holds, depend
/// on their picks alone.
proof fn same_picks(base: &VecStore, dim: int, state: State, a: Seq<int>, b: Seq<int>, held: Seq<u32>, upto: int)
    requires
        forall|d: int| 0 <= d < upto ==> a[d] == b[d],
    ensures
        repaired(base, dim, state, a, upto) == repaired(base, dim, state, b, upto),
        after_picks(base, dim, state, a, held, upto) == after_picks(
            base,
            dim,
            state,
            b,
            held,
            upto,
        ),
    decreases upto,
{
    if upto > 0 {
        same_picks(base, dim, state, a, b, held, upto - 1);
    }
}

/// The rounds so far depend on their picks alone.
proof fn same_rounds<M: Fn(&[u32], &[u32]) -> u32, G: Fn(&[u32], usize) -> Vec<u32>>(
    base: &VecStore,
    n: int,
    dim: int,
    measure: M,
    mean: G,
    start: Seq<Seq<u32>>,
    a: Seq<Seq<int>>,
    b: Seq<Seq<int>>,
    held: Seq<u32>,
    t: int,
)
    requires
        forall|r: int| 0 <= r < t ==> a[r] == b[r],
    ensures
        after_draws(base, n, dim, measure, mean, start, a, held, t) == after_draws(
            base,
            n,
            dim,
            measure,
            mean,
            start,
            b,
            held,
            t,
        ),
        after_rounds(base, n, dim, measure, mean, start, a, t) == after_rounds(
            base,
            n,
            dim,
            measure,
            mean,
            start,
            b,
            t,
        ),
    decreases t,
{
    if t > 0 {
        same_rounds(base, n, dim, measure, mean, start, a, b, held, t - 1);
    }
}

/// Picks that the same generator draws lead to the same repair.
proof fn drawn_picks_agree(base: &VecStore, dim: int, state: State, a: Seq<int>, b: Seq<int>, held: Seq<u32>, upto: int)
    requires
        forall|d: int| 0 <= d < upto ==> #[trigger] pick_is_drawn(base, dim, state, a, held, d),
        forall|d: int| 0 <= d < upto ==> #[trigger] pick_is_drawn(base, dim, state, b, held, d),
    ensures
        repaired(base, dim, state, a, upto) == repaired(base, dim, state, b, upto),
        after_picks(base, dim, state, a, held, upto) == after_picks(
            base,
            dim,
            state,
            b,
            held,
            upto,
        ),
    decreases upto,
{
    if upto > 0 {
        drawn_picks_agree(base, dim, state, a, b, held, upto - 1);
        assert(pick_is_drawn(base, dim, state, a, held, upto - 1));
        assert(pick_is_drawn(base, dim, state, b, held, upto - 1));
    }
}

/// Rounds whose picks the same generator draws lead to the same state.
proof fn drawn_rounds_agree<M: Fn(&[u32], &[u32]) -> u32, G: Fn(&[u32], usize) -> Vec<u32>>(
    base: &VecStore,
    n: int,
    dim: int,
    measure: M,
    mean: G,
    start: Seq<Seq<u32>>,
    a: Seq<Seq<int>>,
    b: Seq<Seq<int>>,
    held: Seq<u32>,
    t: int,
)
    requires
        forall|r: int|
            0 <= r < t ==> #[trigger] round_fits(base, n, dim, measure, mean, start, a, held, r),
        forall|r: int|
            0 <= r < t ==> #[trigger] round_fits(base, n, dim, measure, mean, start, b, held, r),
    ensures
        after_rounds(base, n, dim, measure, mean, start, a, t) == after_rounds(
            base,
            n,
            dim,
            measure,
            mean,
            start,
            b,
            t,
        ),
        after_draws(base, n, dim, measure, mean, start, a, held, t) == after_draws(
            base,
            n,
            dim,
            measure,
            mean,
            start,
            b,
            held,
            t,
        ),
    decreases t,
{
    if t > 0 {
        drawn_rounds_agree(base, n, dim, measure, mean, start, a, b, held, t - 1);
        let before = after_rounds(base, n, dim, measure, mean, start, a, t - 1);
        let state = one_round(base, n, dim, measure, mean, before.1);
        let drawn = after_draws(base, n, dim, measure, mean, start, a, held, t - 1);
        assert(round_fits(base, n, dim, measure, mean, start, a, held, t - 1));
        assert(round_fits(base, n, dim, measure, mean, start, b, held, t - 1));
        drawn_picks_agree(base, dim, state, a[t - 1], b[t - 1], drawn, start.len() as int);
    }
}

/// The same vectors and settings always lead to the same clustering.
pub proof fn clustering_is_reproducible<M: Fn(&[u32], &[u32]) -> u32, G: Fn(&[u32], usize) -> Vec<u32>>(
    base: &VecStore,
    n: int,
    dim: int,
    c: int,
    iters: int,
    measure: M,
    mean: G,
    one: State,
    two: State,
)
    requires
        clustered(base, n, dim, c, iters, measure, mean, one),
        clustered(base, n, dim, c, iters, measure, mean, two),
    ensures
        one == two,
{
    let a = choose|a: Seq<Seq<int>>| #[trigger]
        leads_to(base, n, dim, c, iters, measure, mean, a, one);
    let b = choose|b: Seq<Seq<int>>| #[trigger]
        leads_to(base, n, dim, c, iters, measure, mean, b, two);
    let start = chosen_rows(base, dim, shuffled(started(CLUSTER_SEED), n as nat).take(c));
    let held = arrange(started(CLUSTER_SEED), n as nat).1;
    drawn_rounds_agree(base, n, dim, measure, mean, start, a, b, held, iters);
}

/// Clusters vectors around `c` centroids in `iters` rounds.
///
/// The centroids start at randomly chosen vectors; a cluster that a round
/// leaves empty gets a randomly chosen member of the largest one.  `measure`
/// gives the distance pattern of two single-precision vectors, `mean` the bit
/// patterns of the mean of vectors that follow each other.
pub fn kmeans<M: Fn(&[u32], &[u32]) -> u32, G: Fn(&[u32], usize) -> Vec<u32>>(
    base: &VecStore,
    n: usize,
    dim: usize,
    c: usize,
    iters: usize,
    measure: &M,
    mean: &G,
) -> (result: PrismResult<(Vec<u16>, VecStore)>)
    requires
        base is F32 ==> measures(*measure, dim as int),
        gives_means(*mean, dim),
    ensures
        ends(result, kmeans_verdict(base, n as int, dim as int, c as int, iters as int)),
        result matches Ok(parts) ==> {
            &&& parts.0@.len() == n
            &&& forall|i: int| 0 <= i < n ==> #[trigger] parts.0@[i] < c
            &&& forall|d: int| 0 <= d < c ==> (#[trigger] cluster(parts.0@, d)).len() > 0
            &&& parts.1.count() == c * dim
            &&& exists|state: State|
                #[trigger] clustered(
                    base,
                    n as int,
                    dim as int,
                    c as int,
                    iters as int,
                    *measure,
                    *mean,
                    state,
                ) && comes_of_rounds(
                    base,
                    n as int,
                    dim as int,
                    c as int,
                    iters as int,
                    *measure,
                    *mean,
                    state,
                ) && parts.0@ == state.0 && stores_centroids(base, dim as int, state.1, &parts.1)
        },
{
    match check_kmeans(base, n, dim, c, iters) {
        Ok(_) => {},
        Err(error) => {
            return Err(error);
        },
    }
    let mut rng = seeded(CLUSTER_SEED);
    let ids = shuffled_prefix(&mut rng, n, c);
    let rows = starting_rows(base, n, dim, &ids);
    let ghost start = chosen_rows(base, dim as int, ids@);
    let ghost began = held(rng);
    let ghost mut picks: Seq<Seq<int>> = Seq::empty();
    let mut clustering = Clustering { assignments: Vec::new(), centroids: rows };
    assert(clustering.assignments@ =~= Seq::<u16>::empty());
    let mut t: usize = 0;
    while t < iters
        invariant
            t <= iters,
            base.count() == n * dim,
            0 < dim,
            0 < c <= n <= u32::MAX,
            c <= 0x1_0000,
            base is F32 ==> measures(*measure, dim as int),
            gives_means(*mean, dim),
            start.len() == c,
            picks.len() == t,
            clustering.centroids@.len() == c,
            forall|j: int| 0 <= j < c ==> (#[trigger] clustering.centroids@[j])@.len() == dim,
            t > 0 ==> clustering.wf(n as int, dim as int, c as int),
            t > 0 ==> forall|d: int|
                0 <= d < c ==> (#[trigger] cluster(clustering.assignments@, d)).len() > 0,
            clustering.state() == after_rounds(
                base,
                n as int,
                dim as int,
                *measure,
                *mean,
                start,
                picks,
                t as int,
            ),
            forall|r: int|
                0 <= r < t ==> #[trigger] round_fits(
                    base,
                    n as int,
                    dim as int,
                    *measure,
                    *mean,
                    start,
                    picks,
                    began,
                    r,
                ),
            held(rng) == after_draws(
                base,
                n as int,
                dim as int,
                *measure,
                *mean,
                start,
                picks,
                began,
                t as int,
            ),
        decreases iters - t,
    {
        let ghost before = picks;
        let (next, Ghost(made)) = run_round(
            base,
            n,
            dim,
            c,
            measure,
            mean,
            clustering.centroids,
            &mut rng,
        );
        clustering = next;
        proof {
            picks = picks.push(made);
            same_rounds(
                base,
                n as int,
                dim as int,
                *measure,
                *mean,
                start,
                before,
                picks,
                began,
                t as int,
            );
            assert forall|r: int| 0 <= r < t + 1 implies #[trigger] round_fits(
                base,
                n as int,
                dim as int,
                *measure,
                *mean,
                start,
                picks,
                began,
                r,
            ) by {
                if r < t {
                    assert(round_fits(
                        base,
                        n as int,
                        dim as int,
                        *measure,
                        *mean,
                        start,
                        before,
                        began,
                        r,
                    ));
                    same_rounds(
                        base,
                        n as int,
                        dim as int,
                        *measure,
                        *mean,
                        start,
                        before,
                        picks,
                        began,
                        r,
                    );
                }
            }
        }
        t = t + 1;
    }
    let centroids = flatten_centroids(base, dim, &clustering.centroids);
    proof {
        let state = clustering.state();
        assert forall|j: int| 0 <= j < c implies #[trigger] ids@[j] == arrange(
            started(42),
            n as nat,
        ).0[j] by {
            assert(ids@[j] == shuffled(started(42), n as nat)[j]);
        }
        assert(starts_apart(base, n as int, dim as int, ids@, start));
        clusterings_follow_rounds(
            base,
            n as int,
            dim as int,
            iters as int,
            *measure,
            *mean,
            ids@,
            start,
            picks,
            began,
        );
        assert(leads_to(
            base,
            n as int,
            dim as int,
            c as int,
            iters as int,
            *measure,
            *mean,
            picks,
            state,
        ));
        assert(clustered(
            base,
            n as int,
            dim as int,
            c as int,
            iters as int,
            *measure,
            *mean,
            state,
        ));
    }
    Ok((clustering.assignments, centroids))
}

} // verus!
