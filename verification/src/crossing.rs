//! Search along the edges of the whole index, through points that do not pass
//! the filter where these promise to lead on.

use vstd::prelude::*;
use crate::bitset::Bitset;
use crate::descent::{are_choices, choices_of_some, ids_of, list_ids, near_key, placed_is_gathered};
use crate::distance::{from_ord_key, pattern_of, Metric};
use crate::index::{layout_is_catalog, point_placed, PrismIndex};
use crate::kmeans::closest;
use crate::order::{insert_sorted, place, place_keeps_order, sorted, Ranked};
use crate::partition::{gathered, names_cells};
use crate::pure::{estimates, gives_angles, measures_by, of1, of2, of3, total1, total2, total3};
use crate::search::{exact_pattern, ranked, SearchResult};
use crate::select::{offer, offered, offered_keeps_order, Scored};
use crate::single::ONE;
use crate::walk::{
    all_unseen, clear_flags, ids_are, ids_distinct, offering_keeps, one_fewer_unseen, placing_keeps,
    unseen,
};

verus! {

/// What decides whether a point that does not pass is crossed.
#[derive(Clone, Copy, Debug, PartialEq, Eq, Structural)]
pub struct Bridge {
    /// How many of its neighbours pass and were not seen.
    pub matching: usize,
    /// How many neighbours it has.
    pub degree: usize,
    /// Its estimated distance, as a bit pattern.
    pub distance: u32,
    /// The estimated distance of the worst candidate, as a bit pattern.
    pub radius: u32,
    /// How many points pass.
    pub eligible: usize,
    /// How many points there are.
    pub population: usize,
}

/// Those of the first `upto` neighbours that were not seen, and which points
/// were seen then.
pub open spec fn discovered(row: Seq<u32>, seen: Seq<bool>, upto: int) -> (Seq<u32>, Seq<bool>)
    decreases upto,
{
    if upto <= 0 {
        (Seq::empty(), seen)
    } else {
        let (fresh, now) = discovered(row, seen, upto - 1);
        let w = row[upto - 1];
        if now[w as int] {
            (fresh, now)
        } else {
            (fresh.push(w), now.update(w as int, true))
        }
    }
}

/// Whether a point is in one of the cells that pass.
pub open spec fn passes_cell(index: &PrismIndex, passing: Seq<bool>, p: u32) -> bool {
    passing[index.point_cell@[p as int] as int]
}

/// How many of the first `upto` neighbours pass and were not seen.
pub open spec fn open_matches(
    index: &PrismIndex,
    passing: Seq<bool>,
    seen: Seq<bool>,
    row: Seq<u32>,
    upto: int,
) -> nat
    decreases upto,
{
    if upto <= 0 {
        0
    } else {
        let w = row[upto - 1];
        open_matches(index, passing, seen, row, upto - 1) + if passes_cell(index, passing, w)
            && !seen[w as int] {
            1nat
        } else {
            0
        }
    }
}

/// Points to continue from, best points, and how many points were crossed.
pub type Front = (Seq<Scored>, Seq<Scored>, int);

/// What decides whether point `w` is crossed.
pub open spec fn bridge_at(
    index: &PrismIndex,
    passing: Seq<bool>,
    seen: Seq<bool>,
    best: Seq<Scored>,
    key: spec_fn(u32) -> u64,
    eligible: int,
    w: u32,
) -> Bridge {
    let row = index.graph.row(w as int);
    Bridge {
        matching: open_matches(index, passing, seen, row, row.len() as int) as usize,
        degree: row.len() as usize,
        distance: pattern_of(key(w) as u32),
        radius: if best.len() > 0 {
            pattern_of(best.last().0 as u32)
        } else {
            ONE
        },
        eligible: eligible as usize,
        population: index.store.len,
    }
}

/// The state after the first `upto` newly seen points: those that pass are
/// offered to the best and continued from; others are crossed while the budget
/// lasts and they promise to lead on.
pub open spec fn advanced(
    index: &PrismIndex,
    passing: Seq<bool>,
    seen: Seq<bool>,
    front: Front,
    fresh: Seq<u32>,
    key: spec_fn(u32) -> u64,
    promises: spec_fn(Bridge) -> bool,
    budget: int,
    eligible: int,
    ef: int,
    upto: int,
) -> Front
    decreases upto,
{
    if upto <= 0 {
        front
    } else {
        let (frontier, best, crossed) = advanced(
            index,
            passing,
            seen,
            front,
            fresh,
            key,
            promises,
            budget,
            eligible,
            ef,
            upto - 1,
        );
        let w = fresh[upto - 1];
        let entry = (key(w), w);
        if passes_cell(index, passing, w) {
            (place(frontier, entry), offered(best, entry, ef), crossed)
        } else if index.graph.row(w as int).len() > 0 && crossed < budget && promises(
            bridge_at(index, passing, seen, best, key, eligible, w),
        ) {
            (place(frontier, entry), best, crossed + 1)
        } else {
            (frontier, best, crossed)
        }
    }
}

/// The best points of a walk through the whole index, at most `fuel` steps.
/// It ends when the nearest point to continue from is too far away.
pub open spec fn crossed_over(
    index: &PrismIndex,
    passing: Seq<bool>,
    seen: Seq<bool>,
    front: Front,
    key: spec_fn(u32) -> u64,
    too_far: spec_fn(u32, u32) -> bool,
    promises: spec_fn(Bridge) -> bool,
    budget: int,
    eligible: int,
    ef: int,
    fuel: int,
) -> Seq<Scored>
    decreases fuel,
{
    let (frontier, best, crossed) = front;
    if fuel <= 0 || frontier.len() == 0 || (best.len() >= ef && best.len() > 0 && too_far(
        pattern_of(frontier[0].0 as u32),
        pattern_of(best.last().0 as u32),
    )) {
        best
    } else {
        let row = index.graph.row(frontier[0].1 as int);
        let (fresh, now) = discovered(row, seen, row.len() as int);
        crossed_over(
            index,
            passing,
            now,
            advanced(
                index,
                passing,
                now,
                (frontier.skip(1), best, crossed),
                fresh,
                key,
                promises,
                budget,
                eligible,
                ef,
                fresh.len() as int,
            ),
            key,
            too_far,
            promises,
            budget,
            eligible,
            ef,
            fuel - 1,
        )
    }
}

/// Which cells pass.
pub open spec fn passing_flags(indices: Seq<usize>, count: int) -> Seq<bool> {
    Seq::new(count as nat, |c: int| indices.contains(c as usize))
}

/// Where a walk through the whole index starts: in its middle if all cells
/// pass, and otherwise at the nearest entry of a cell that passes.
pub open spec fn crossing_entry(index: &PrismIndex, key: spec_fn(u32) -> u64, indices: Seq<usize>) -> u32 {
    if indices.len() == index.tree.cells@.len() {
        index.global_medoid
    } else {
        let at = closest(
            |i: int| key(index.medoids@[indices[i] as int]) as int,
            0x1_0000_0000_0000_0000,
            indices.len() as int,
        ).0;
        index.medoids@[indices[at] as int]
    }
}

/// The points that a walk through the whole index finds.
pub open spec fn crossing_found(
    index: &PrismIndex,
    key: spec_fn(u32) -> u64,
    too_far: spec_fn(u32, u32) -> bool,
    promises: spec_fn(Bridge) -> bool,
    budget: int,
    indices: Seq<usize>,
    ef: int,
) -> Seq<Scored> {
    let n = index.store.len as int;
    let entry = crossing_entry(index, key, indices);
    let start = seq![(key(entry), entry)];
    crossed_over(
        index,
        passing_flags(indices, index.tree.cells@.len() as int),
        Seq::new(n as nat, |i: int| i == entry),
        (start, start, 0),
        key,
        too_far,
        promises,
        budget,
        gathered(index.tree.cells@, indices).len() as int,
        ef,
        n,
    )
}

/// Newly seen points are different, were not seen, and are seen now.
proof fn discoveries_are_new(row: Seq<u32>, seen: Seq<bool>, upto: int)
    requires
        0 <= upto <= row.len(),
        forall|i: int| 0 <= i < row.len() ==> #[trigger] row[i] < seen.len(),
    ensures
        discovered(row, seen, upto).1.len() == seen.len(),
        discovered(row, seen, upto).0.no_duplicates(),
        forall|i: int|
            0 <= i < discovered(row, seen, upto).0.len() ==> {
                let w = #[trigger] discovered(row, seen, upto).0[i];
                w < seen.len() && !seen[w as int] && discovered(row, seen, upto).1[w as int]
            },
        forall|p: int|
            0 <= p < seen.len() && seen[p] ==> #[trigger] discovered(row, seen, upto).1[p],
        unseen(discovered(row, seen, upto).1) + discovered(row, seen, upto).0.len() == unseen(seen),
    decreases upto,
{
    if upto > 0 {
        discoveries_are_new(row, seen, upto - 1);
        let (few, then) = discovered(row, seen, upto - 1);
        let (fresh, now) = discovered(row, seen, upto);
        let w = row[upto - 1];
        if !then[w as int] {
            one_fewer_unseen(then, w as int);
            assert forall|i: int, j: int| 0 <= i < fresh.len() && 0 <= j < fresh.len() && i != j implies fresh[i]
                != fresh[j] by {
                if i < few.len() {
                    assert(then[few[i] as int]);
                }
                if j < few.len() {
                    assert(then[few[j] as int]);
                }
            }
            assert forall|i: int| 0 <= i < fresh.len() implies {
                let x = #[trigger] fresh[i];
                x < seen.len() && !seen[x as int] && now[x as int]
            } by {
                if i < few.len() {
                    assert(fresh[i] == few[i]);
                }
            }
        }
    }
}

impl PrismIndex {
    /// How many neighbours of a point pass and were not seen.
    fn count_open_matches(&self, passing: &Vec<bool>, visited: &Bitset, w: u32) -> (count: usize)
        requires
            self.wf(),
            w < self.store.len,
            passing@.len() == self.tree.cells@.len(),
            visited.fits(self.store.len as int),
        ensures
            count == open_matches(
                self,
                passing@,
                visited.flags(self.store.len as int),
                self.graph.row(w as int),
                self.graph.row(w as int).len() as int,
            ),
    {
        let row = self.graph.neighbors_unchecked(w);
        let ghost seen = visited.flags(self.store.len as int);
        proof {
            self.graph.row_within(w as int);
        }
        let mut count: usize = 0;
        let mut i: usize = 0;
        while i < row.len()
            invariant
                i <= row@.len(),
                self.wf(),
                passing@.len() == self.tree.cells@.len(),
                visited.fits(self.store.len as int),
                seen == visited.flags(self.store.len as int),
                forall|j: int| 0 <= j < row@.len() ==> #[trigger] row@[j] < self.store.len,
                count == open_matches(self, passing@, seen, row@, i as int),
                count <= i,
            decreases row@.len() - i,
        {
            let u: u32 = row[i];
            assert(row@[i as int] < self.store.len);
            assert(point_placed(self.tree.cells@, self.point_cell@, u as int));
            assert(seen[u as int] == visited.has(u as int));
            if passing[self.point_cell[u as usize] as usize] && !visited.contains(u) {
                count = count + 1;
            }
            i = i + 1;
        }
        count
    }

    /// Which cells pass.
    fn flag_cells(&self, cell_indices: &Vec<usize>) -> (passing: Vec<bool>)
        requires
            names_cells(cell_indices@, self.tree.cells@.len() as int),
        ensures
            passing@ == passing_flags(cell_indices@, self.tree.cells@.len() as int),
    {
        let count: usize = self.tree.cells.len();
        let mut passing = clear_flags(count);
        let mut i: usize = 0;
        while i < cell_indices.len()
            invariant
                i <= cell_indices@.len(),
                count == self.tree.cells@.len(),
                names_cells(cell_indices@, count as int),
                passing@.len() == count,
                forall|c: int|
                    0 <= c < count ==> (#[trigger] passing@[c] <==> cell_indices@.take(
                        i as int,
                    ).contains(c as usize)),
            decreases cell_indices@.len() - i,
        {
            let c: usize = cell_indices[i];
            assert(cell_indices@[i as int] < count);
            proof {
                let few = cell_indices@.take(i as int);
                let more = cell_indices@.take(i + 1);
                assert(more =~= few.push(c));
                assert(more[i as int] == c);
                assert forall|d: int| 0 <= d < count implies (passing@.update(c as int, true)[d]
                    <==> #[trigger] more.contains(d as usize)) by {
                    if few.contains(d as usize) {
                        let j = choose|j: int| 0 <= j < few.len() && few[j] == d as usize;
                        assert(more[j] == d as usize);
                    }
                    if more.contains(d as usize) && d != c {
                        let j = choose|j: int| 0 <= j < more.len() && more[j] == d as usize;
                        assert(few[j] == d as usize);
                    }
                }
            }
            passing.set(c, true);
            i = i + 1;
        }
        assert(cell_indices@.take(cell_indices@.len() as int) =~= cell_indices@);
        assert(passing@ =~= passing_flags(cell_indices@, count as int));
        passing
    }

    /// Where a walk through the whole index starts.
    fn find_entry<T: Fn(&[u32], &[u8], &[u32], &[u32]) -> u32, D: Fn(Metric, &[u32], &[u32]) -> u32>(
        &self,
        estimate: &T,
        measure: &D,
        query: &[u32],
        cell_indices: &Vec<usize>,
    ) -> (entry: u32)
        requires
            self.wf(),
            cell_indices@.len() > 0,
            cell_indices@.no_duplicates(),
            names_cells(cell_indices@, self.tree.cells@.len() as int),
            query@.len() == self.store.dim,
            self.config.metric == Metric::InnerProduct || self.config.sq8_built(
                self.store.len as int,
            ),
            estimates(*estimate, self.store.dim as int),
            measures_by(*measure, self.store.dim as int),
        ensures
            entry == crossing_entry(
                self,
                |p: u32| near_key(self, *estimate, *measure, query@, p),
                cell_indices@,
            ),
            entry < self.store.len,
            cell_indices@.contains(self.point_cell@[entry as int] as usize),
    {
        let ghost key = |p: u32| near_key(self, *estimate, *measure, query@, p);
        proof {
            layout_is_catalog(
                &self.store,
                &self.tree,
                self.medoids@,
                self.global_medoid,
                self.point_cell@,
                self.original_ids@,
                &self.config,
            );
        }
        if cell_indices.len() == self.tree.cells.len() {
            proof {
                assert(point_placed(self.tree.cells@, self.point_cell@, self.global_medoid as int));
                all_named(
                    cell_indices@,
                    self.tree.cells@.len() as int,
                    self.point_cell@[self.global_medoid as int] as usize,
                );
            }
            return self.global_medoid;
        }
        let ghost distance = |i: int| key(self.medoids@[cell_indices@[i] as int]) as int;
        let ghost top = 0x1_0000_0000_0000_0000int;
        let mut best: usize = 0;
        let mut least: u64 = u64::MAX;
        let mut found: bool = false;
        let mut i: usize = 0;
        assert(closest(distance, top, 0) == (0int, top));
        while i < cell_indices.len()
            invariant
                i <= cell_indices@.len(),
                self.wf(),
                names_cells(cell_indices@, self.tree.cells@.len() as int),
                query@.len() == self.store.dim,
                self.config.metric == Metric::InnerProduct || self.config.sq8_built(
                    self.store.len as int,
                ),
                estimates(*estimate, self.store.dim as int),
                measures_by(*measure, self.store.dim as int),
                key == (|p: u32| near_key(self, *estimate, *measure, query@, p)),
                distance == (|i: int| key(self.medoids@[cell_indices@[i] as int]) as int),
                top == 0x1_0000_0000_0000_0000int,
                found == (i > 0),
                best < i || i == 0,
                closest(distance, top, i as int) == if found {
                    (best as int, least as int)
                } else {
                    (0int, top)
                },
            decreases cell_indices@.len() - i,
        {
            let c: usize = cell_indices[i];
            assert(cell_indices@[i as int] < self.tree.cells@.len());
            proof {
                crate::descent::cell_facts(self, c as int);
            }
            let d: u64 = self.cand_dist(estimate, measure, query, self.medoids[c]);
            assert(d == distance(i as int));
            if !found || d < least {
                best = i;
                least = d;
                found = true;
            }
            i = i + 1;
        }
        let c: usize = cell_indices[best];
        proof {
            assert(cell_indices@[best as int] < self.tree.cells@.len());
            crate::descent::cell_facts(self, c as int);
            let medoid = self.medoids@[c as int];
            assert(self.tree.cells@[c as int].point_ids@.contains(medoid));
            assert(self.point_cell@[medoid as int] == c);
            assert(cell_indices@.contains(c));
        }
        self.medoids[c]
    }

    /// The best points of the given cells, found along the edges of the whole
    /// index, exactly ranked.
    ///
    /// `too_far` tells, for the tolerance, a distance and the worst candidate's
    /// one, whether to stop; `allowance` how many points may be crossed for a
    /// width; `promises` whether a point is worth crossing.
    pub fn regime_mid<
        T: Fn(&[u32], &[u8], &[u32], &[u32]) -> u32,
        D: Fn(Metric, &[u32], &[u32]) -> u32,
        G: Fn(&[u32], &[u32], u64, u64) -> u32,
        X: Fn(u32, u32, u32) -> bool,
        Y: Fn(u32, usize) -> usize,
        Z: Fn(Bridge) -> bool,
    >(
        &self,
        estimate: &T,
        measure: &D,
        angle: &G,
        too_far: &X,
        allowance: &Y,
        promises: &Z,
        query: &[u32],
        norm: u64,
        cell_indices: &Vec<usize>,
        k: usize,
        ef: usize,
    ) -> (results: Vec<SearchResult>)
        requires
            self.wf(),
            cell_indices@.len() > 0,
            cell_indices@.no_duplicates(),
            names_cells(cell_indices@, self.tree.cells@.len() as int),
            gathered(self.tree.cells@, cell_indices@).len() <= self.store.len,
            ef > 0,
            query@.len() == self.store.dim,
            self.config.metric == Metric::InnerProduct || self.config.sq8_built(
                self.store.len as int,
            ),
            estimates(*estimate, self.store.dim as int),
            measures_by(*measure, self.store.dim as int),
            gives_angles(*angle, self.store.dim as int),
            total3(*too_far),
            total2(*allowance),
            total1(*promises),
        ensures
            results@ == crossing_results(
                self,
                |p: u32| near_key(self, *estimate, *measure, query@, p),
                |p: u32| exact_pattern(self, *measure, *angle, query@, norm, p),
                |d: u32, worst: u32| of3(*too_far, self.config.epsilon, d, worst),
                |bridge: Bridge| of1(*promises, bridge),
                of2(*allowance, self.config.beta, ef) as int,
                cell_indices@,
                k as int,
                ef as int,
            ),
            are_choices(results@, gathered(self.tree.cells@, cell_indices@), k as int),
    {
        let ghost key = |p: u32| near_key(self, *estimate, *measure, query@, p);
        let ghost exact = |p: u32| exact_pattern(self, *measure, *angle, query@, norm, p);
        let ghost far = |d: u32, worst: u32| of3(*too_far, self.config.epsilon, d, worst);
        let ghost worth = |bridge: Bridge| of1(*promises, bridge);
        let n: usize = self.store.len();
        let passing = self.flag_cells(cell_indices);
        let entry: u32 = self.find_entry(estimate, measure, query, cell_indices);
        let start: Scored = (self.cand_dist(estimate, measure, query, entry), entry);
        let mut visited = Bitset::new(n);
        let ghost clear = visited.flags(n as int);
        let _ = visited.insert(entry);
        proof {
            all_unseen(clear);
            one_fewer_unseen(clear, entry as int);
            assert(visited.flags(n as int) =~= clear.update(entry as int, true));
            assert(visited.flags(n as int) =~= Seq::new(n as nat, |i: int| i == entry));
        }
        let mut frontier: Vec<Scored> = Vec::new();
        frontier.push(start);
        let mut best: Vec<Scored> = Vec::new();
        best.push(start);
        let budget: usize = allowance(self.config.beta, ef);
        let mut crossed: usize = 0;
        let ghost all = gathered(self.tree.cells@, cell_indices@);
        let eligible: usize = self.count_gathered(cell_indices);
        let mut fuel: usize = n;
        let ghost good = |p: u32| p < n && passes_cell(self, passing@, p);
        let ghost stored = |p: u32| p < n;
        let ghost goal = crossing_found(
            self,
            key,
            far,
            worth,
            budget as int,
            cell_indices@,
            ef as int,
        );
        proof {
            assert(frontier@ =~= seq![(key(entry), entry)]);
            assert(best@ =~= seq![(key(entry), entry)]);
            assert(point_placed(self.tree.cells@, self.point_cell@, entry as int));
            assert(good(entry));
        }
        loop
            invariant_except_break
                goal == crossed_over(
                    self,
                    passing@,
                    visited.flags(n as int),
                    (frontier@, best@, crossed as int),
                    key,
                    far,
                    worth,
                    budget as int,
                    eligible as int,
                    ef as int,
                    fuel as int,
                ),
            invariant
                self.wf(),
                n == self.store.len,
                ef > 0,
                query@.len() == self.store.dim,
                self.config.metric == Metric::InnerProduct || self.config.sq8_built(
                    self.store.len as int,
                ),
                estimates(*estimate, self.store.dim as int),
                measures_by(*measure, self.store.dim as int),
                total3(*too_far),
                total1(*promises),
                key == (|p: u32| near_key(self, *estimate, *measure, query@, p)),
                far == (|d: u32, worst: u32| of3(*too_far, self.config.epsilon, d, worst)),
                worth == (|bridge: Bridge| of1(*promises, bridge)),
                passing@.len() == self.tree.cells@.len(),
                good == (|p: u32| p < n && passes_cell(self, passing@, p)),
                stored == (|p: u32| p < n),
                eligible <= n,
                crossed <= budget,
                visited.fits(n as int),
                sorted(frontier@),
                ids_are(frontier@, stored),
                sorted(best@),
                0 < best@.len() <= ef,
                ids_are(best@, good),
                ids_distinct(best@),
                forall|i: int|
                    0 <= i < best@.len() ==> visited.flags(n as int)[(#[trigger] best@[i]).1 as int],
                fuel >= frontier@.len() + unseen(visited.flags(n as int)),
            ensures
                best@ == goal,
            decreases fuel,
        {
            if frontier.len() == 0 {
                break;
            }
            let (distance, point) = frontier[0];
            if best.len() >= ef {
                let worst: u64 = best[best.len() - 1].0;
                if too_far(
                    self.config.epsilon,
                    from_ord_key(#[verifier::truncate] (distance as u32)),
                    from_ord_key(#[verifier::truncate] (worst as u32)),
                ) {
                    break;
                }
            }
            let ghost before = frontier@;
            assert(stored(before[0].1));
            let _ = frontier.remove(0);
            assert(frontier@ =~= before.skip(1));
            assert(sorted(frontier@)) by {
                assert forall|i: int, j: int| 0 <= i <= j < frontier@.len() implies frontier@[i].rank()
                    <= frontier@[j].rank() by {
                    assert(before[i + 1].rank() <= before[j + 1].rank());
                }
            }
            assert(ids_are(frontier@, stored)) by {
                assert forall|i: int| 0 <= i < frontier@.len() implies stored((#[trigger] frontier@[i]).1) by {
                    assert(stored(before[i + 1].1));
                }
            }
            let row = self.graph.neighbors_unchecked(point);
            proof {
                self.graph.row_within(point as int);
            }
            let ghost seen = visited.flags(n as int);
            let mut fresh: Vec<u32> = Vec::new();
            let mut i: usize = 0;
            while i < row.len()
                invariant
                    i <= row@.len(),
                    n == self.store.len,
                    n <= u32::MAX,
                    forall|j: int| 0 <= j < row@.len() ==> #[trigger] row@[j] < n,
                    visited.fits(n as int),
                    (fresh@, visited.flags(n as int)) == discovered(row@, seen, i as int),
                decreases row@.len() - i,
            {
                let w: u32 = row[i];
                assert(row@[i as int] < n);
                let ghost flags = visited.flags(n as int);
                assert(flags[w as int] == visited.has(w as int));
                if visited.insert(w) {
                    fresh.push(w);
                    assert(visited.flags(n as int) =~= flags.update(w as int, true));
                } else {
                    assert(visited.flags(n as int) =~= flags);
                }
                i = i + 1;
            }
            let ghost now = visited.flags(n as int);
            let ghost front: Front = (frontier@, best@, crossed as int);
            let ghost known = best@;
            proof {
                discoveries_are_new(row@, seen, row@.len() as int);
                assert forall|j: int| 0 <= j < best@.len() implies now[(#[trigger] best@[j]).1 as int] by {
                    assert(seen[best@[j].1 as int]);
                    assert(good(best@[j].1));
                }
            }
            let ghost pending = frontier@.len() as int;
            let mut j: usize = 0;
            while j < fresh.len()
                invariant
                    j <= fresh@.len(),
                    self.wf(),
                    n == self.store.len,
                    ef > 0,
                    query@.len() == self.store.dim,
                    self.config.metric == Metric::InnerProduct || self.config.sq8_built(
                        self.store.len as int,
                    ),
                    estimates(*estimate, self.store.dim as int),
                    measures_by(*measure, self.store.dim as int),
                    total1(*promises),
                    key == (|p: u32| near_key(self, *estimate, *measure, query@, p)),
                    worth == (|bridge: Bridge| of1(*promises, bridge)),
                    passing@.len() == self.tree.cells@.len(),
                    good == (|p: u32| p < n && passes_cell(self, passing@, p)),
                    stored == (|p: u32| p < n),
                    eligible <= n,
                    crossed <= budget,
                    visited.fits(n as int),
                    now == visited.flags(n as int),
                    fresh@.no_duplicates(),
                    forall|m: int|
                        0 <= m < fresh@.len() ==> (#[trigger] fresh@[m]) < n && now[fresh@[m] as int]
                            && !seen[fresh@[m] as int],
                    sorted(frontier@),
                    ids_are(frontier@, stored),
                    frontier@.len() <= pending + j,
                    sorted(best@),
                    0 < best@.len() <= ef,
                    ids_are(best@, good),
                    ids_distinct(best@),
                    forall|m: int| 0 <= m < best@.len() ==> now[(#[trigger] best@[m]).1 as int],
                    forall|m: int|
                        0 <= m < best@.len() ==> seen[(#[trigger] best@[m]).1 as int] || fresh@.take(
                            j as int,
                        ).contains(best@[m].1),
                    (frontier@, best@, crossed as int) == advanced(
                        self,
                        passing@,
                        now,
                        front,
                        fresh@,
                        key,
                        worth,
                        budget as int,
                        eligible as int,
                        ef as int,
                        j as int,
                    ),
                decreases fresh@.len() - j,
            {
                let w: u32 = fresh[j];
                assert(fresh@[j as int] < n);
                assert(point_placed(self.tree.cells@, self.point_cell@, w as int));
                let d: u64 = self.cand_dist(estimate, measure, query, w);
                let entry: Scored = (d, w);
                let ghost earlier = best@;
                proof {
                    placing_keeps(frontier@, entry, stored);
                    place_keeps_order(frontier@, entry);
                    let few = fresh@.take(j as int);
                    let more = fresh@.take(j + 1);
                    assert(more =~= few.push(w));
                    assert(more[j as int] == w);
                    assert forall|m: int| 0 <= m < best@.len() implies (#[trigger] best@[m]).1 != w
                        && (seen[best@[m].1 as int] || more.contains(best@[m].1)) by {
                        if few.contains(best@[m].1) {
                            let q = choose|q: int| 0 <= q < few.len() && few[q] == best@[m].1;
                            assert(fresh@[q] != fresh@[j as int]);
                            assert(more[q] == best@[m].1);
                        }
                    }
                }
                if passing[self.point_cell[w as usize] as usize] {
                    proof {
                        assert(good(w));
                        offering_keeps(best@, entry, ef as int, good);
                        offered_keeps_order(best@, entry, ef as int);
                    }
                    offer(&mut best, entry, ef);
                    insert_sorted(&mut frontier, entry);
                    proof {
                        assert forall|m: int| 0 <= m < best@.len() implies now[(#[trigger] best@[m]).1 as int]
                            && (seen[best@[m].1 as int] || fresh@.take(j + 1).contains(best@[m].1)) by {
                            assert(best@.contains(best@[m]));
                            if best@[m] != entry {
                                let q = choose|q: int| 0 <= q < earlier.len() && earlier[q] == best@[m];
                                assert(now[earlier[q].1 as int]);
                            }
                        }
                    }
                } else {
                    let degree: usize = self.graph.neighbors_unchecked(w).len();
                    if degree > 0 && crossed < budget {
                        let matching: usize = self.count_open_matches(&passing, &visited, w);
                        let bridge = Bridge {
                            matching,
                            degree,
                            distance: from_ord_key(#[verifier::truncate] (d as u32)),
                            radius: from_ord_key(
                                #[verifier::truncate] (best[best.len() - 1].0 as u32),
                            ),
                            eligible,
                            population: n,
                        };
                        assert(bridge == bridge_at(
                            self,
                            passing@,
                            now,
                            best@,
                            key,
                            eligible as int,
                            w,
                        ));
                        if promises(bridge) {
                            insert_sorted(&mut frontier, entry);
                            crossed = crossed + 1;
                        }
                    }
                }
                j = j + 1;
            }
            fuel = fuel - 1;
        }
        let ids = list_ids(&best);
        proof {
            assert forall|i: int| 0 <= i < ids@.len() implies #[trigger] ids@[i] < n && all.contains(
                ids@[i],
            ) by {
                assert(good(best@[i].1));
                assert(point_placed(self.tree.cells@, self.point_cell@, ids@[i] as int));
                placed_is_gathered(self, cell_indices@, ids@[i]);
            }
            choices_of_some(exact, ids@, all, k as int);
        }
        self.exact_rerank(measure, angle, query, norm, &ids, k)
    }

    /// How many points some cells have together.
    fn count_gathered(&self, cell_indices: &Vec<usize>) -> (count: usize)
        requires
            self.wf(),
            names_cells(cell_indices@, self.tree.cells@.len() as int),
            gathered(self.tree.cells@, cell_indices@).len() <= self.store.len,
        ensures
            count == gathered(self.tree.cells@, cell_indices@).len(),
    {
        match self.tree.count_points_unchecked(cell_indices.as_slice()) {
            Some(count) => count,
            None => 0,
        }
    }
}

/// What a search along the edges of the whole index returns.
pub open spec fn crossing_results(
    index: &PrismIndex,
    key: spec_fn(u32) -> u64,
    exact: spec_fn(u32) -> u32,
    too_far: spec_fn(u32, u32) -> bool,
    promises: spec_fn(Bridge) -> bool,
    budget: int,
    indices: Seq<usize>,
    k: int,
    ef: int,
) -> Seq<SearchResult> {
    ranked(exact, ids_of(crossing_found(index, key, too_far, promises, budget, indices, ef)), k)
}

/// As many different cells as there are name every cell.
pub proof fn all_named(indices: Seq<usize>, count: int, c: usize)
    requires
        indices.no_duplicates(),
        indices.len() == count,
        names_cells(indices, count),
        c < count,
    ensures
        indices.contains(c),
{
    if !indices.contains(c) {
        let used = indices.map_values(|x: usize| x as int);
        assert(used.no_duplicates());
        used.unique_seq_to_set();
        vstd::set_lib::lemma_int_range(0, count);
        let range = vstd::set_lib::set_int_range(0, count).remove(c as int);
        assert(used.to_set().subset_of(range)) by {
            assert forall|x: int| used.to_set().contains(x) implies range.contains(x) by {
                let i = choose|i: int| 0 <= i < used.len() && used[i] == x;
                assert(indices[i] < count);
                assert(indices.contains(indices[i]));
            }
        }
        vstd::set_lib::lemma_len_subset(used.to_set(), range);
    }
}

} // verus!
