//! Search within cells: preselection by sketches, and walks along the edges
//! within each cell.

use vstd::prelude::*;
use crate::binary::packed;
use crate::bitset::Bitset;
use crate::distance::{code_distance, hamming, ord_key, Metric};
use crate::error::PrismResult;
use crate::graph::Graph;
use crate::index::{cell_fits, layout_is_catalog, PrismIndex};
use crate::order::{
    arranged, arranged_holds, arranged_is_sorted, ascending, ascending_is_sorted,
    ascending_is_unique, insert_sorted, place, place_keeps_order, sorted, sorted_copy, Ranked,
};
use crate::partition::{gathered, names_cells};
use crate::pure::{
    estimate_value, estimates, flags_of, gives_angles, gives_flags, measures_by, metric_value,
};
use crate::reach::{in_cell_neighbors, is_range};
use crate::search::{exact_pattern, gathered_is_stored, ranked, SearchExecution, SearchResult};
use crate::select::{offer, offered, offered_all, offered_keeps_order, Scored};
use crate::single::{all_in_domain, order_of};
use crate::walk::{
    all_unseen, ids_are, ids_distinct, offering_keeps, one_fewer_unseen, placing_keeps, unseen,
    Walk,
};

verus! {

/// Key of the estimated distance of point `p` from a query: from its code, or
/// from its coordinates where codes say nothing.
pub open spec fn near_key<
    T: Fn(&[u32], &[u8], &[u32], &[u32]) -> u32,
    D: Fn(Metric, &[u32], &[u32]) -> u32,
>(index: &PrismIndex, estimate: T, measure: D, query: Seq<u32>, p: u32) -> u64 {
    if index.config.metric == Metric::InnerProduct {
        order_of(metric_value(measure, index.config.metric, query, index.store.row(p as int))) as u64
    } else {
        order_of(
            estimate_value(
                estimate,
                query,
                index.sq8.code_of(p as int),
                index.sq8.mins@,
                index.sq8.scales@,
            ),
        ) as u64
    }
}

/// How wide a walk among `population` points is.
pub open spec fn widened(ef: int, expansion: int, population: int) -> int {
    let wide = if ef * expansion < usize::MAX {
        ef * expansion
    } else {
        usize::MAX as int
    };
    let bounded = if wide < population {
        wide
    } else {
        population
    };
    if bounded > 1 {
        bounded
    } else {
        1
    }
}

/// A list with room for `ef` takes a candidate at this distance.
pub open spec fn takes(best: Seq<Scored>, key: u64, ef: int) -> bool {
    best.len() < ef || (best.len() > 0 && key < best.last().0)
}

/// The walk after the first `upto` neighbours were looked at: those not seen
/// before are added to the points to continue from if the best points take
/// them.  Which points were seen is kept relative to `base`.
pub open spec fn considered(
    walk: Walk,
    neighbors: Seq<u32>,
    base: int,
    key: spec_fn(u32) -> u64,
    ef: int,
    upto: int,
) -> Walk
    decreases upto,
{
    if upto <= 0 {
        walk
    } else {
        let (frontier, seen, best) = considered(walk, neighbors, base, key, ef, upto - 1);
        let w = neighbors[upto - 1];
        if seen[w - base] {
            (frontier, seen, best)
        } else if takes(best, key(w), ef) {
            (
                place(frontier, (key(w), w)),
                seen.update(w - base, true),
                offered(best, (key(w), w), ef),
            )
        } else {
            (frontier, seen.update(w - base, true), best)
        }
    }
}

/// The best points of a walk that continues from the nearest point until that
/// is farther away than `ef` others, at most `fuel` times.
pub open spec fn descended(
    rows: spec_fn(u32) -> Seq<u32>,
    walk: Walk,
    base: int,
    key: spec_fn(u32) -> u64,
    ef: int,
    fuel: int,
) -> Seq<Scored>
    decreases fuel,
{
    let (frontier, seen, best) = walk;
    if fuel <= 0 || frontier.len() == 0 || (best.len() >= ef && frontier[0].0 > best.last().0) {
        best
    } else {
        let neighbors = rows(frontier[0].1);
        descended(
            rows,
            considered(
                (frontier.skip(1), seen, best),
                neighbors,
                base,
                key,
                ef,
                neighbors.len() as int,
            ),
            base,
            key,
            ef,
            fuel - 1,
        )
    }
}

/// The entries between `first` and `last`.
pub open spec fn between(row: Seq<u32>, first: u32, last: u32) -> Seq<u32> {
    row.filter(|y: u32| first <= y <= last)
}

/// The neighbours of `p` between `first` and `last`.
pub open spec fn inside(graph: &Graph, p: u32, first: u32, last: u32) -> Seq<u32> {
    between(graph.row(p as int), first, last)
}

/// The points that a walk within cell `c` finds.
pub open spec fn cell_found(index: &PrismIndex, key: spec_fn(u32) -> u64, c: int, ef: int) -> Seq<
    Scored,
> {
    let ids = index.tree.cells@[c].point_ids@;
    let entry = index.medoids@[c];
    descended(
        |p: u32| inside(&index.graph, p, ids[0], ids.last()),
        (
            seq![(key(entry), entry)],
            Seq::new(ids.len(), |i: int| i == entry - ids[0]),
            seq![(key(entry), entry)],
        ),
        ids[0] as int,
        key,
        ef,
        ids.len() as int,
    )
}

proof fn filter_keeps_order(row: Seq<u32>, first: u32, last: u32)
    requires
        ascending(row),
    ensures
        ascending(between(row, first, last)),
        forall|y: u32|
            #![trigger between(row, first, last).contains(y)]
            between(row, first, last).contains(y) <==> row.contains(y) && first <= y <= last,
    decreases row.len(),
{
    reveal(Seq::filter);
    let pred = |y: u32| first <= y <= last;
    let out = between(row, first, last);
    assert(out == row.filter(pred));
    if row.len() > 0 {
        let few = row.drop_last();
        assert(ascending(few));
        filter_keeps_order(few, first, last);
        let before = between(few, first, last);
        assert(before == few.filter(pred));
        let x = row.last();
        assert forall|y: u32| #![trigger out.contains(y)] out.contains(y) <==> row.contains(y) && first <= y
            <= last by {
            if row.contains(y) && y != x {
                let i = choose|i: int| 0 <= i < row.len() && row[i] == y;
                assert(few[i] == y);
            }
            if few.contains(y) {
                let i = choose|i: int| 0 <= i < few.len() && few[i] == y;
                assert(row[i] == y);
            }
            assert(row[row.len() - 1] == x);
            if pred(x) {
                assert(out[before.len() as int] == x);
                if before.contains(y) {
                    let i = choose|i: int| 0 <= i < before.len() && before[i] == y;
                    assert(out[i] == y);
                }
                if out.contains(y) && y != x {
                    let i = choose|i: int| 0 <= i < out.len() && out[i] == y;
                    assert(before[i] == y);
                }
            }
        }
        assert forall|i: int, j: int| 0 <= i < j < out.len() implies out[i] < out[j] by {
            if pred(x) && j == before.len() {
                assert(before.contains(before[i]));
                let m = choose|m: int| 0 <= m < few.len() && few[m] == before[i];
                assert(row[m] < row[row.len() - 1]);
            }
        }
    }
}

/// The facts about cell `c` that a walk in it needs.
pub proof fn cell_facts(index: &PrismIndex, c: int)
    requires
        index.wf(),
        0 <= c < index.tree.cells@.len(),
    ensures
        index.tree.cells@[c].point_ids@.len() > 0,
        is_range(index.tree.cells@[c].point_ids@),
        index.tree.cells@[c].point_ids@[0] <= index.medoids@[c]
            <= index.tree.cells@[c].point_ids@.last(),
        index.tree.cells@[c].point_ids@.last() == index.tree.cells@[c].point_ids@[0]
            + index.tree.cells@[c].point_ids@.len() - 1,
        index.tree.cells@[c].point_ids@.last() < index.store.len,
        forall|p: u32|
            index.tree.cells@[c].point_ids@[0] <= p <= index.tree.cells@[c].point_ids@.last()
                ==> index.tree.cells@[c].point_ids@.contains(p),
{
    assert(cell_fits(
        &index.store,
        &index.tree,
        index.medoids@,
        index.point_cell@,
        &index.config,
        c,
    ));
    let ids = index.tree.cells@[c].point_ids@;
    let i = choose|i: int| 0 <= i < ids.len() && ids[i] == index.medoids@[c];
    assert(ids[i] == ids[0] + i);
    assert(ids[ids.len() - 1] == ids[0] + (ids.len() - 1));
    assert(ids[ids.len() - 1] < index.store.len);
    assert forall|p: u32| ids[0] <= p <= ids.last() implies ids.contains(p) by {
        assert(ids[p - ids[0]] == ids[0] + (p - ids[0]));
    }
}

impl PrismIndex {
    /// How wide a walk among some points is.
    pub fn expanded_graph_ef(&self, ef: usize, population: usize) -> (wide: usize)
        ensures
            wide == widened(ef as int, self.config.graph_expansion as int, population as int),
    {
        let wide: usize = match ef.checked_mul(self.config.graph_expansion) {
            Some(wide) => wide,
            None => usize::MAX,
        };
        let bounded: usize = if wide < population { wide } else { population };
        if bounded > 1 {
            bounded
        } else {
            1
        }
    }

    /// Key of the estimated distance of a point from a query.
    pub fn cand_dist<
        T: Fn(&[u32], &[u8], &[u32], &[u32]) -> u32,
        D: Fn(Metric, &[u32], &[u32]) -> u32,
    >(&self, estimate: &T, measure: &D, query: &[u32], p: u32) -> (key: u64)
        requires
            self.wf(),
            p < self.store.len,
            query@.len() == self.store.dim,
            self.config.metric == Metric::InnerProduct || self.config.sq8_built(
                self.store.len as int,
            ),
            estimates(*estimate, self.store.dim as int),
            measures_by(*measure, self.store.dim as int),
        ensures
            key == near_key(self, *estimate, *measure, query@, p),
    {
        if self.config.metric == Metric::InnerProduct {
            ord_key(measure(self.config.metric, query, self.store.vector_unchecked(p))) as u64
        } else {
            ord_key(
                estimate(
                    query,
                    self.sq8.code_unchecked(p),
                    self.sq8.mins(),
                    self.sq8.scales(),
                ),
            ) as u64
        }
    }

    /// The neighbours of a point in its own cell.
    pub fn local_neighbors(&self, point: u32) -> (list: &[u32])
        requires
            self.wf(),
            point < self.store.len,
        ensures
            ({
                let ids = self.tree.cells@[self.point_cell@[point as int] as int].point_ids@;
                list@ == inside(&self.graph, point, ids[0], ids.last())
            }),
    {
        proof {
            layout_is_catalog(
                &self.store,
                &self.tree,
                self.medoids@,
                self.global_medoid,
                self.point_cell@,
                self.original_ids@,
                &self.config,
            );
            assert(crate::index::point_placed(self.tree.cells@, self.point_cell@, point as int));
        }
        let cell: usize = self.point_cell[point as usize] as usize;
        proof {
            cell_facts(self, cell as int);
            assert(ascending(self.graph.row(point as int)));
            ascending_is_sorted(self.graph.row(point as int));
        }
        let ids = &self.tree.cells[cell].point_ids;
        let first: u32 = ids[0];
        let last: u32 = ids[ids.len() - 1];
        let list = in_cell_neighbors(&self.graph, point, first, last);
        proof {
            let row = self.graph.row(point as int);
            filter_keeps_order(row, first, last);
            let due = inside(&self.graph, point, first, last);
            assert forall|y: u32| list@.contains(y) <==> due.contains(y) by {
                assert(between(row, first, last).contains(y) <==> row.contains(y) && first <= y
                    <= last);
            }
            ascending_is_unique(list@, due);
        }
        list
    }

    /// The points that a walk within a cell finds, by estimated distance.
    pub fn greedy_search_cell_sq8<
        T: Fn(&[u32], &[u8], &[u32], &[u32]) -> u32,
        D: Fn(Metric, &[u32], &[u32]) -> u32,
    >(&self, estimate: &T, measure: &D, query: &[u32], cell_idx: usize, ef: usize) -> (best: Vec<
        Scored,
    >)
        requires
            self.wf(),
            cell_idx < self.tree.cells@.len(),
            ef > 0,
            query@.len() == self.store.dim,
            self.config.metric == Metric::InnerProduct || self.config.sq8_built(
                self.store.len as int,
            ),
            estimates(*estimate, self.store.dim as int),
            measures_by(*measure, self.store.dim as int),
        ensures
            best@ == cell_found(
                self,
                |p: u32| near_key(self, *estimate, *measure, query@, p),
                cell_idx as int,
                ef as int,
            ),
            best@.len() > 0,
            sorted(best@),
            ids_distinct(best@),
            ids_are(
                best@,
                |p: u32| self.tree.cells@[cell_idx as int].point_ids@.contains(p),
            ),
    {
        let ghost key = |p: u32| near_key(self, *estimate, *measure, query@, p);
        let ids = &self.tree.cells[cell_idx].point_ids;
        let ghost good = |p: u32| self.tree.cells@[cell_idx as int].point_ids@.contains(p);
        proof {
            cell_facts(self, cell_idx as int);
            layout_is_catalog(
                &self.store,
                &self.tree,
                self.medoids@,
                self.global_medoid,
                self.point_cell@,
                self.original_ids@,
                &self.config,
            );
        }
        let count: usize = ids.len();
        let base: u32 = ids[0];
        let ghost last = ids@.last();
        let entry: u32 = self.medoids[cell_idx];
        let start: Scored = (self.cand_dist(estimate, measure, query, entry), entry);
        let mut seen = Bitset::new(count);
        let ghost clear = seen.flags(count as int);
        let _ = seen.insert(entry - base);
        proof {
            all_unseen(clear);
            one_fewer_unseen(clear, entry - base);
            assert(seen.flags(count as int) =~= clear.update(entry - base, true));
        }
        let mut frontier: Vec<Scored> = Vec::new();
        frontier.push(start);
        let mut best: Vec<Scored> = Vec::new();
        best.push(start);
        let mut fuel: usize = count;
        let ghost rows = |p: u32| inside(&self.graph, p, base, last);
        let ghost goal = cell_found(self, key, cell_idx as int, ef as int);
        proof {
            assert(frontier@ =~= seq![(key(entry), entry)]);
            assert(best@ =~= seq![(key(entry), entry)]);
            assert(seen.flags(count as int) =~= Seq::new(count as nat, |i: int| i == entry - base));
        }
        loop
            invariant_except_break
                goal == descended(
                    rows,
                    (frontier@, seen.flags(count as int), best@),
                    base as int,
                    key,
                    ef as int,
                    fuel as int,
                ),
            invariant
                self.wf(),
                cell_idx < self.tree.cells@.len(),
                ef > 0,
                query@.len() == self.store.dim,
                self.config.metric == Metric::InnerProduct || self.config.sq8_built(
                    self.store.len as int,
                ),
                estimates(*estimate, self.store.dim as int),
                measures_by(*measure, self.store.dim as int),
                key == (|p: u32| near_key(self, *estimate, *measure, query@, p)),
                good == (|p: u32| self.tree.cells@[cell_idx as int].point_ids@.contains(p)),
                rows == (|p: u32| inside(&self.graph, p, base, last)),
                *ids == self.tree.cells@[cell_idx as int].point_ids,
                count == ids@.len(),
                count > 0,
                base == ids@[0],
                last == ids@.last(),
                last == base + count - 1,
                last < self.store.len,
                forall|p: u32| base <= p <= last ==> #[trigger] good(p),
                forall|p: u32|
                    #[trigger] good(p) ==> base <= p <= last && p < self.store.len && self.point_cell@[p as int]
                        == cell_idx,
                seen.fits(count as int),
                sorted(frontier@),
                ids_are(frontier@, good),
                sorted(best@),
                0 < best@.len() <= ef,
                ids_are(best@, good),
                ids_distinct(best@),
                forall|i: int| 0 <= i < best@.len() ==> seen.has((#[trigger] best@[i]).1 - base),
                fuel >= frontier@.len() + unseen(seen.flags(count as int)),
            ensures
                best@ == goal,
            decreases fuel,
        {
            if frontier.len() == 0 {
                break;
            }
            let (distance, point) = frontier[0];
            if best.len() >= ef && distance > best[best.len() - 1].0 {
                break;
            }
            let ghost before = frontier@;
            assert(good(before[0].1));
            let _ = frontier.remove(0);
            assert(frontier@ =~= before.skip(1));
            assert(sorted(frontier@)) by {
                assert forall|i: int, j: int| 0 <= i <= j < frontier@.len() implies frontier@[i].rank()
                    <= frontier@[j].rank() by {
                    assert(before[i + 1].rank() <= before[j + 1].rank());
                }
            }
            assert(ids_are(frontier@, good)) by {
                assert forall|i: int| 0 <= i < frontier@.len() implies good((#[trigger] frontier@[i]).1) by {
                    assert(good(before[i + 1].1));
                }
            }
            let ghost walk: Walk = (frontier@, seen.flags(count as int), best@);
            let neighbors = self.local_neighbors(point);
            proof {
                assert(self.point_cell@[point as int] == cell_idx);
                assert(neighbors@ == rows(point));
                assert(ascending(self.graph.row(point as int)));
                filter_keeps_order(self.graph.row(point as int), base, last);
                assert forall|i: int| 0 <= i < neighbors@.len() implies base <= #[trigger] neighbors@[i]
                    <= last by {
                    assert(neighbors@.contains(neighbors@[i]));
                    assert(between(self.graph.row(point as int), base, last).contains(neighbors@[i]));
                }
            }
            let mut j: usize = 0;
            while j < neighbors.len()
                invariant
                    j <= neighbors@.len(),
                    self.wf(),
                    ef > 0,
                    query@.len() == self.store.dim,
                    self.config.metric == Metric::InnerProduct || self.config.sq8_built(
                        self.store.len as int,
                    ),
                    estimates(*estimate, self.store.dim as int),
                    measures_by(*measure, self.store.dim as int),
                    key == (|p: u32| near_key(self, *estimate, *measure, query@, p)),
                    count > 0,
                    last == base + count - 1,
                    last < self.store.len,
                    forall|p: u32| base <= p <= last ==> #[trigger] good(p),
                    forall|p: u32| #[trigger] good(p) ==> base <= p <= last,
                    forall|i: int| 0 <= i < neighbors@.len() ==> base <= #[trigger] neighbors@[i] <= last,
                    seen.fits(count as int),
                    sorted(frontier@),
                    ids_are(frontier@, good),
                    sorted(best@),
                    0 < best@.len() <= ef,
                    ids_are(best@, good),
                    ids_distinct(best@),
                    forall|i: int| 0 <= i < best@.len() ==> seen.has((#[trigger] best@[i]).1 - base),
                    fuel >= frontier@.len() + unseen(seen.flags(count as int)) + 1,
                    (frontier@, seen.flags(count as int), best@) == considered(
                        walk,
                        neighbors@,
                        base as int,
                        key,
                        ef as int,
                        j as int,
                    ),
                decreases neighbors@.len() - j,
            {
                let w: u32 = neighbors[j];
                assert(base <= neighbors@[j as int] <= last);
                let ghost flags = seen.flags(count as int);
                let ghost earlier = best@;
                assert(flags[w - base] == seen.has(w - base));
                if seen.insert(w - base) {
                    let entry: Scored = (self.cand_dist(estimate, measure, query, w), w);
                    proof {
                        assert(good(w));
                        one_fewer_unseen(flags, w - base);
                        assert(seen.flags(count as int) =~= flags.update(w - base, true));
                        placing_keeps(frontier@, entry, good);
                        place_keeps_order(frontier@, entry);
                        assert forall|i: int| 0 <= i < best@.len() implies (#[trigger] best@[i]).1 != w by {
                            assert(good(best@[i].1));
                        }
                        offering_keeps(best@, entry, ef as int, good);
                        offered_keeps_order(best@, entry, ef as int);
                    }
                    if best.len() < ef || entry.0 < best[best.len() - 1].0 {
                        insert_sorted(&mut frontier, entry);
                        offer(&mut best, entry, ef);
                        proof {
                            assert forall|i: int| 0 <= i < best@.len() implies seen.has(
                                (#[trigger] best@[i]).1 - base,
                            ) by {
                                assert(best@.contains(best@[i]));
                                if best@[i] != entry {
                                    let m = choose|m: int|
                                        0 <= m < earlier.len() && earlier[m] == best@[i];
                                    assert(good(earlier[m].1));
                                }
                            }
                        }
                    } else {
                        proof {
                            assert forall|i: int| 0 <= i < best@.len() implies seen.has(
                                (#[trigger] best@[i]).1 - base,
                            ) by {
                                assert(good(best@[i].1));
                            }
                        }
                    }
                } else {
                    proof {
                        assert(seen.flags(count as int) =~= flags);
                        assert forall|i: int| 0 <= i < best@.len() implies seen.has(
                            (#[trigger] best@[i]).1 - base,
                        ) by {
                            assert(good(best@[i].1));
                        }
                    }
                }
                j = j + 1;
            }
            fuel = fuel - 1;
        }
        best
    }
}

/// The points that a search within cell `c` contributes.
pub open spec fn cell_contribution(
    index: &PrismIndex,
    key: spec_fn(u32) -> u64,
    c: int,
    ef: int,
) -> Seq<Scored> {
    let population = index.tree.cells@[c].point_ids@.len() as int;
    let wide = widened(ef, index.config.graph_expansion as int, population);
    offered_all(Seq::empty(), cell_found(index, key, c, wide), ef)
}

/// Cells by the estimated distance of their entries.
pub open spec fn cells_by_entry(
    index: &PrismIndex,
    key: spec_fn(u32) -> u64,
    indices: Seq<usize>,
) -> Seq<Scored> {
    arranged(indices.map_values(|c: usize| (key(index.medoids@[c as int]), c as u32)))
}

/// The best points of the first `upto` cells together.
pub open spec fn merged_cells(
    index: &PrismIndex,
    key: spec_fn(u32) -> u64,
    order: Seq<Scored>,
    ef: int,
    upto: int,
) -> Seq<Scored>
    decreases upto,
{
    if upto <= 0 {
        Seq::empty()
    } else {
        offered_all(
            merged_cells(index, key, order, ef, upto - 1),
            cell_contribution(index, key, order[upto - 1].1 as int, ef),
            ef,
        )
    }
}

/// The identifiers of a list.
pub open spec fn ids_of(list: Seq<Scored>) -> Seq<u32> {
    list.map_values(|entry: Scored| entry.1)
}

/// There are no more cells than points.
pub proof fn cells_are_few(index: &PrismIndex)
    requires
        index.wf(),
    ensures
        index.tree.cells@.len() <= index.store.len,
{
    let cells = index.tree.cells@;
    let firsts = Seq::new(cells.len(), |c: int| cells[c].point_ids@[0]);
    layout_is_catalog(
        &index.store,
        &index.tree,
        index.medoids@,
        index.global_medoid,
        index.point_cell@,
        index.original_ids@,
        &index.config,
    );
    assert forall|c: int| 0 <= c < firsts.len() implies (#[trigger] firsts[c]) < index.store.len
        && index.point_cell@[firsts[c] as int] == c by {
        cell_facts(index, c);
        assert(cells[c].point_ids@.contains(firsts[c]));
    }
    assert forall|c: int, d: int| 0 <= c < d < firsts.len() implies firsts[c] != firsts[d] by {
        assert(index.point_cell@[firsts[c] as int] == c);
        assert(index.point_cell@[firsts[d] as int] == d);
    }
    crate::search::few_distinct(firsts, index.store.len as int);
}

/// Offers every entry of one list to another.
fn offer_each(list: &mut Vec<Scored>, entries: &Vec<Scored>, cap: usize)
    requires
        sorted(old(list)@),
        old(list)@.len() <= cap,
    ensures
        final(list)@ == offered_all(old(list)@, entries@, cap as int),
        sorted(final(list)@),
        final(list)@.len() <= cap,
{
    let ghost before = list@;
    let mut i: usize = 0;
    assert(entries@.take(0) =~= Seq::<Scored>::empty());
    while i < entries.len()
        invariant
            i <= entries@.len(),
            list@ == offered_all(before, entries@.take(i as int), cap as int),
            sorted(list@),
            list@.len() <= cap,
        decreases entries@.len() - i,
    {
        proof {
            let more = entries@.take(i + 1);
            assert(more.drop_last() =~= entries@.take(i as int));
        }
        offer(list, entries[i], cap);
        i = i + 1;
    }
    assert(entries@.take(entries@.len() as int) =~= entries@);
}

/// Offering good, new entries keeps a list good and distinct.
pub proof fn offering_all_keeps(
    list: Seq<Scored>,
    entries: Seq<Scored>,
    cap: int,
    good: spec_fn(u32) -> bool,
    fresh: spec_fn(u32) -> bool,
)
    requires
        ids_are(list, good),
        ids_are(entries, fresh),
        ids_distinct(list),
        ids_distinct(entries),
        forall|i: int| 0 <= i < list.len() ==> !fresh((#[trigger] list[i]).1),
        forall|p: u32| #[trigger] fresh(p) ==> good(p),
    ensures
        ids_are(offered_all(list, entries, cap), good),
        ids_distinct(offered_all(list, entries, cap)),
        forall|i: int|
            0 <= i < offered_all(list, entries, cap).len() ==> {
                let id = (#[trigger] offered_all(list, entries, cap)[i]).1;
                !fresh(id) || (exists|j: int| 0 <= j < entries.len() && (#[trigger] entries[j]).1 == id)
            },
    decreases entries.len(),
{
    if entries.len() > 0 {
        let few = entries.drop_last();
        let last = entries.last();
        assert(ids_are(few, fresh)) by {
            assert forall|i: int| 0 <= i < few.len() implies fresh((#[trigger] few[i]).1) by {
                assert(fresh(entries[i].1));
            }
        }
        assert(ids_distinct(few)) by {
            assert forall|i: int, j: int| 0 <= i < j < few.len() implies (#[trigger] few[i]).1 != (
            #[trigger] few[j]).1 by {
                assert(entries[i].1 != entries[j].1);
            }
        }
        offering_all_keeps(list, few, cap, good, fresh);
        let before = offered_all(list, few, cap);
        assert(fresh(entries[entries.len() - 1].1));
        assert forall|i: int| 0 <= i < before.len() implies (#[trigger] before[i]).1 != last.1 by {
            if before[i].1 == last.1 {
                let j = choose|j: int| 0 <= j < few.len() && (#[trigger] few[j]).1 == last.1;
                assert(entries[j].1 != entries[entries.len() - 1].1);
            }
        }
        offering_keeps(before, last, cap, good);
        let known = |id: u32| !fresh(id) || exists|j: int|
            0 <= j < entries.len() && (#[trigger] entries[j]).1 == id;
        assert(ids_are(before, known)) by {
            assert forall|i: int| 0 <= i < before.len() implies known((#[trigger] before[i]).1) by {
                let id = before[i].1;
                if fresh(id) {
                    let j = choose|j: int| 0 <= j < few.len() && (#[trigger] few[j]).1 == id;
                    assert(entries[j].1 == id);
                }
            }
        }
        assert(known(last.1)) by {
            assert(entries[entries.len() - 1].1 == last.1);
        }
        offering_keeps(before, last, cap, known);
        let after = offered_all(list, entries, cap);
        assert forall|i: int| 0 <= i < after.len() implies {
            let id = (#[trigger] after[i]).1;
            !fresh(id) || (exists|j: int| 0 <= j < entries.len() && (#[trigger] entries[j]).1 == id)
        } by {
            assert(known(after[i].1));
        }
    }
}

impl PrismIndex {
    /// The points that a search within a cell contributes.
    pub fn search_cell_graph<
        T: Fn(&[u32], &[u8], &[u32], &[u32]) -> u32,
        D: Fn(Metric, &[u32], &[u32]) -> u32,
    >(&self, estimate: &T, measure: &D, query: &[u32], cell_idx: usize, ef: usize) -> (best: Vec<
        Scored,
    >)
        requires
            self.wf(),
            cell_idx < self.tree.cells@.len(),
            ef > 0,
            query@.len() == self.store.dim,
            self.config.metric == Metric::InnerProduct || self.config.sq8_built(
                self.store.len as int,
            ),
            estimates(*estimate, self.store.dim as int),
            measures_by(*measure, self.store.dim as int),
        ensures
            best@ == cell_contribution(
                self,
                |p: u32| near_key(self, *estimate, *measure, query@, p),
                cell_idx as int,
                ef as int,
            ),
            ids_distinct(best@),
            ids_are(
                best@,
                |p: u32| self.tree.cells@[cell_idx as int].point_ids@.contains(p),
            ),
    {
        let population: usize = self.tree.cells[cell_idx].point_ids.len();
        let wide: usize = self.expanded_graph_ef(ef, population);
        let found = self.greedy_search_cell_sq8(estimate, measure, query, cell_idx, wide);
        let mut best: Vec<Scored> = Vec::new();
        offer_each(&mut best, &found, ef);
        proof {
            let good = |p: u32| self.tree.cells@[cell_idx as int].point_ids@.contains(p);
            offering_all_keeps(Seq::empty(), found@, ef as int, good, good);
        }
        best
    }

    /// The best points of the given cells, found along the edges within each,
    /// exactly ranked.
    pub fn regime_local_graph<
        T: Fn(&[u32], &[u8], &[u32], &[u32]) -> u32,
        D: Fn(Metric, &[u32], &[u32]) -> u32,
        G: Fn(&[u32], &[u32], u64, u64) -> u32,
    >(
        &self,
        estimate: &T,
        measure: &D,
        angle: &G,
        query: &[u32],
        norm: u64,
        cell_indices: &Vec<usize>,
        k: usize,
        ef: usize,
    ) -> (results: Vec<SearchResult>)
        requires
            self.wf(),
            names_cells(cell_indices@, self.tree.cells@.len() as int),
            cell_indices@.no_duplicates(),
            ef > 0,
            query@.len() == self.store.dim,
            self.config.metric == Metric::InnerProduct || self.config.sq8_built(
                self.store.len as int,
            ),
            estimates(*estimate, self.store.dim as int),
            measures_by(*measure, self.store.dim as int),
            gives_angles(*angle, self.store.dim as int),
        ensures
            results@ == local_results(
                self,
                |p: u32| near_key(self, *estimate, *measure, query@, p),
                |p: u32| exact_pattern(self, *measure, *angle, query@, norm, p),
                cell_indices@,
                k as int,
                ef as int,
            ),
            are_choices(results@, gathered(self.tree.cells@, cell_indices@), k as int),
    {
        let ghost key = |p: u32| near_key(self, *estimate, *measure, query@, p);
        let ghost exact = |p: u32| exact_pattern(self, *measure, *angle, query@, norm, p);
        let ghost n = self.tree.cells@.len() as int;
        proof {
            cells_are_few(self);
            layout_is_catalog(
                &self.store,
                &self.tree,
                self.medoids@,
                self.global_medoid,
                self.point_cell@,
                self.original_ids@,
                &self.config,
            );
        }
        let mut entries: Vec<Scored> = Vec::new();
        while entries.len() < cell_indices.len()
            invariant
                entries@.len() <= cell_indices@.len(),
                self.wf(),
                n == self.tree.cells@.len(),
                n <= self.store.len,
                names_cells(cell_indices@, n),
                query@.len() == self.store.dim,
                self.config.metric == Metric::InnerProduct || self.config.sq8_built(
                    self.store.len as int,
                ),
                estimates(*estimate, self.store.dim as int),
                measures_by(*measure, self.store.dim as int),
                key == (|p: u32| near_key(self, *estimate, *measure, query@, p)),
                forall|i: int|
                    0 <= i < entries@.len() ==> #[trigger] entries@[i] == (
                        key(self.medoids@[cell_indices@[i] as int]),
                        cell_indices@[i] as u32,
                    ),
            decreases cell_indices@.len() - entries@.len(),
        {
            let c: usize = cell_indices[entries.len()];
            assert(cell_indices@[entries@.len() as int] < n);
            proof {
                cell_facts(self, c as int);
            }
            let medoid: u32 = self.medoids[c];
            entries.push((self.cand_dist(estimate, measure, query, medoid), c as u32));
        }
        let ghost listed = cell_indices@.map_values(
            |c: usize| (key(self.medoids@[c as int]), c as u32),
        );
        assert(entries@ =~= listed);
        let order = sorted_copy(entries.as_slice());
        assert(order@ == cells_by_entry(self, key, cell_indices@));
        proof {
            arranged_is_sorted(listed);
            order_is_distinct(listed, order@);
            assert forall|i: int| 0 <= i < order@.len() implies (#[trigger] order@[i]).1 < n
                && cell_indices@.contains(order@[i].1 as usize) by {
                arranged_holds(listed, order@[i]);
                assert(order@.contains(order@[i]));
                let j = choose|j: int| 0 <= j < listed.len() && listed[j] == order@[i];
                assert(cell_indices@[j] < n);
            }
        }
        let mut merged: Vec<Scored> = Vec::new();
        let ghost good = |p: u32|
            p < self.store.len && cell_indices@.contains(self.point_cell@[p as int] as usize);
        let mut i: usize = 0;
        while i < order.len()
            invariant
                i <= order@.len(),
                self.wf(),
                n == self.tree.cells@.len(),
                n <= self.store.len,
                ef > 0,
                query@.len() == self.store.dim,
                self.config.metric == Metric::InnerProduct || self.config.sq8_built(
                    self.store.len as int,
                ),
                estimates(*estimate, self.store.dim as int),
                measures_by(*measure, self.store.dim as int),
                key == (|p: u32| near_key(self, *estimate, *measure, query@, p)),
                good == (|p: u32|
                    p < self.store.len && cell_indices@.contains(self.point_cell@[p as int] as usize)),
                forall|c: int, p: u32|
                    0 <= c < n ==> (#[trigger] self.tree.cells@[c].point_ids@.contains(p) <==> p
                        < self.store.len && self.point_cell@[p as int] == c),
                forall|j: int|
                    0 <= j < order@.len() ==> (#[trigger] order@[j]).1 < n && cell_indices@.contains(
                        order@[j].1 as usize,
                    ),
                ids_distinct(order@),
                merged@ == merged_cells(self, key, order@, ef as int, i as int),
                sorted(merged@),
                merged@.len() <= ef,
                ids_are(merged@, good),
                ids_distinct(merged@),
                forall|j: int|
                    0 <= j < merged@.len() ==> exists|m: int|
                        0 <= m < i && (#[trigger] order@[m]).1
                            == self.point_cell@[(#[trigger] merged@[j]).1 as int],
            decreases order@.len() - i,
        {
            let c: usize = order[i].1 as usize;
            assert(order@[i as int].1 < n);
            let found = self.search_cell_graph(estimate, measure, query, c, ef);
            let ghost before = merged@;
            offer_each(&mut merged, &found, ef);
            proof {
                let fresh = |p: u32| self.tree.cells@[c as int].point_ids@.contains(p);
                assert forall|j: int| 0 <= j < before.len() implies !fresh((#[trigger] before[j]).1) by {
                    let p = before[j].1;
                    let m = choose|m: int|
                        0 <= m < i && (#[trigger] order@[m]).1 == self.point_cell@[p as int];
                    assert(good(p));
                    assert(order@[m].1 != order@[i as int].1);
                }
                assert forall|p: u32| #[trigger] fresh(p) implies good(p) by {
                    assert(self.tree.cells@[c as int].point_ids@.contains(p));
                }
                offering_all_keeps(before, found@, ef as int, good, fresh);
                let placed = |p: u32|
                    exists|m: int| 0 <= m < i + 1 && (#[trigger] order@[m]).1 == self.point_cell@[p as int];
                assert(ids_are(before, placed)) by {
                    assert forall|j: int| 0 <= j < before.len() implies placed((#[trigger] before[j]).1) by {
                        let p = before[j].1;
                        let m = choose|m: int|
                            0 <= m < i && (#[trigger] order@[m]).1 == self.point_cell@[p as int];
                    }
                }
                assert forall|p: u32| #[trigger] fresh(p) implies placed(p) by {
                    assert(self.tree.cells@[c as int].point_ids@.contains(p));
                    assert(order@[i as int].1 == self.point_cell@[p as int]);
                }
                offering_all_keeps(before, found@, ef as int, placed, fresh);
                assert forall|j: int| 0 <= j < merged@.len() implies exists|m: int|
                    0 <= m < i + 1 && (#[trigger] order@[m]).1
                        == self.point_cell@[(#[trigger] merged@[j]).1 as int] by {
                    assert(placed(merged@[j].1));
                }
            }
            i = i + 1;
        }
        let ids = list_ids(&merged);
        proof {
            assert forall|j: int| 0 <= j < ids@.len() implies #[trigger] ids@[j] < self.store.len by {
                assert(good(merged@[j].1));
            }
        }
        let results = self.exact_rerank(measure, angle, query, norm, &ids, k);
        proof {
            let all = gathered(self.tree.cells@, cell_indices@);
            assert forall|j: int| 0 <= j < ids@.len() implies all.contains(#[trigger] ids@[j]) by {
                assert(good(merged@[j].1));
                placed_is_gathered(self, cell_indices@, ids@[j]);
            }
            choices_of_some(exact, ids@, all, k as int);
        }
        results
    }
}

/// What a search along the edges within cells returns.
pub open spec fn local_results(
    index: &PrismIndex,
    key: spec_fn(u32) -> u64,
    exact: spec_fn(u32) -> u32,
    indices: Seq<usize>,
    k: int,
    ef: int,
) -> Seq<SearchResult> {
    let order = cells_by_entry(index, key, indices);
    ranked(exact, ids_of(merged_cells(index, key, order, ef, order.len() as int)), k)
}

/// Results are different points among `all`, at most `k`.
pub open spec fn are_choices(results: Seq<SearchResult>, all: Seq<u32>, k: int) -> bool {
    &&& results.len() <= k
    &&& forall|i: int| 0 <= i < results.len() ==> all.contains((#[trigger] results[i]).id)
    &&& forall|i: int, j: int|
        0 <= i < j < results.len() ==> (#[trigger] results[i]).id != (#[trigger] results[j]).id
}

/// Ranking some of the points makes choices among them all.
pub proof fn choices_of_some(exact: spec_fn(u32) -> u32, ids: Seq<u32>, all: Seq<u32>, k: int)
    requires
        0 <= k,
        ids.no_duplicates(),
        forall|j: int| 0 <= j < ids.len() ==> all.contains(#[trigger] ids[j]),
    ensures
        are_choices(ranked(exact, ids, k), all, k),
{
    crate::search::ranking_is_exact(exact, ids, k);
    let results = ranked(exact, ids, k);
    assert forall|i: int| 0 <= i < results.len() implies all.contains((#[trigger] results[i]).id) by {
        assert(ids.contains(results[i].id));
        let j = choose|j: int| 0 <= j < ids.len() && ids[j] == results[i].id;
        assert(all.contains(ids[j]));
    }
}

/// A point whose cell is among some cells is gathered from them.
pub proof fn placed_is_gathered(index: &PrismIndex, indices: Seq<usize>, p: u32)
    requires
        index.wf(),
        p < index.store.len,
        indices.contains(index.point_cell@[p as int] as usize),
        names_cells(indices, index.tree.cells@.len() as int),
    ensures
        gathered(index.tree.cells@, indices).contains(p),
{
    layout_is_catalog(
        &index.store,
        &index.tree,
        index.medoids@,
        index.global_medoid,
        index.point_cell@,
        index.original_ids@,
        &index.config,
    );
    let c = index.point_cell@[p as int] as usize;
    let i = choose|i: int| 0 <= i < indices.len() && indices[i] == c;
    assert(indices[i] < index.tree.cells@.len());
    assert(index.tree.cells@[indices[i] as int].point_ids@.contains(p));
    crate::partition::gathered_holds(index.tree.cells@, indices, p);
}

pub proof fn order_is_distinct(listed: Seq<Scored>, order: Seq<Scored>)
    requires
        order == arranged(listed),
        ids_distinct(listed),
    ensures
        ids_distinct(order),
{
    arranged_is_sorted(listed);
    assert(listed.no_duplicates()) by {
        assert forall|i: int, j: int| 0 <= i < listed.len() && 0 <= j < listed.len() && i != j implies listed[i]
            != listed[j] by {
            if i < j {
                assert(listed[i].1 != listed[j].1);
            } else {
                assert(listed[j].1 != listed[i].1);
            }
        }
    }
    crate::search::arranged_is_distinct(listed);
    assert forall|i: int, j: int| 0 <= i < j < order.len() implies (#[trigger] order[i]).1 != (
    #[trigger] order[j]).1 by {
        arranged_holds(listed, order[i]);
        arranged_holds(listed, order[j]);
        assert(order.contains(order[i]));
        assert(order.contains(order[j]));
        let a = choose|a: int| 0 <= a < listed.len() && listed[a] == order[i];
        let b = choose|b: int| 0 <= b < listed.len() && listed[b] == order[j];
        assert(order[i] != order[j]);
        if a < b {
            assert(listed[a].1 != listed[b].1);
        } else {
            assert(listed[b].1 != listed[a].1);
        }
    }
}

/// The identifiers of a list.
pub fn list_ids(list: &Vec<Scored>) -> (ids: Vec<u32>)
    ensures
        ids@ == ids_of(list@),
        ids_distinct(list@) ==> ids@.no_duplicates(),
{
    let mut ids: Vec<u32> = Vec::new();
    while ids.len() < list.len()
        invariant
            ids@.len() <= list@.len(),
            forall|i: int| 0 <= i < ids@.len() ==> #[trigger] ids@[i] == list@[i].1,
        decreases list@.len() - ids@.len(),
    {
        ids.push(list[ids.len()].1);
    }
    assert(ids@ =~= ids_of(list@));
    proof {
        if ids_distinct(list@) {
            assert forall|i: int, j: int| 0 <= i < ids@.len() && 0 <= j < ids@.len() && i != j implies ids@[i]
                != ids@[j] by {
                if i < j {
                    assert(list@[i].1 != list@[j].1);
                } else {
                    assert(list@[j].1 != list@[i].1);
                }
            }
        }
    }
    ids
}

/// How many points sketches preselect.
pub open spec fn rerank_budget(binary_rerank: int, ef: int) -> int {
    if binary_rerank * ef < usize::MAX {
        binary_rerank * ef
    } else {
        usize::MAX as int
    }
}

/// The points whose sketches differ least from a query's.
pub open spec fn preselected(index: &PrismIndex, code: Seq<u64>, ids: Seq<u32>, budget: int) -> Seq<
    Scored,
> {
    offered_all(
        Seq::empty(),
        ids.map_values(|p: u32| (code_distance(code, index.binary.code_of(p as int)), p)),
        budget,
    )
}

/// Of some points those with the least estimated distances.
pub open spec fn estimated(key: spec_fn(u32) -> u64, list: Seq<Scored>, ef: int) -> Seq<Scored> {
    offered_all(Seq::empty(), list.map_values(|entry: Scored| (key(entry.1), entry.1)), ef)
}

/// The sketch of a query, made as those of the indexed points are.
pub open spec fn query_sketch<F: Fn(&[u32], &[u32], usize) -> Vec<bool>>(
    index: &PrismIndex,
    rotate: F,
    query: Seq<u32>,
) -> Seq<u64> {
    packed(flags_of(rotate, query, index.binary.signs@, index.binary.block_size))
}

/// What a scan of the given points returns, and whether sketches preselected.
pub open spec fn scan_results<F: Fn(&[u32], &[u32], usize) -> Vec<bool>>(
    index: &PrismIndex,
    rotate: F,
    key: spec_fn(u32) -> u64,
    exact: spec_fn(u32) -> u32,
    query: Seq<u32>,
    ids: Seq<u32>,
    k: int,
    ef: int,
) -> (Seq<SearchResult>, SearchExecution) {
    let budget = rerank_budget(index.config.binary_rerank as int, ef);
    if index.config.binary_rerank == 0 || ids.len() <= budget {
        (ranked(exact, ids, k), SearchExecution::ExactScan)
    } else {
        let near = preselected(index, query_sketch(index, rotate, query), ids, budget);
        (
            ranked(exact, ids_of(estimated(key, near, ef)), k),
            SearchExecution::BinaryPrefilterScan,
        )
    }
}

/// Entries for listed points are as distinct as the points.
proof fn entries_are_distinct(entries: Seq<Scored>, ids: Seq<u32>, good: spec_fn(u32) -> bool)
    requires
        entries.len() == ids.len(),
        ids.no_duplicates(),
        forall|i: int| 0 <= i < ids.len() ==> (#[trigger] entries[i]).1 == ids[i] && good(ids[i]),
    ensures
        ids_distinct(entries),
        ids_are(entries, good),
{
    assert forall|i: int, j: int| 0 <= i < j < entries.len() implies (#[trigger] entries[i]).1 != (
    #[trigger] entries[j]).1 by {
        assert(entries[i].1 == ids[i] && entries[j].1 == ids[j]);
    }
    assert forall|i: int| 0 <= i < entries.len() implies good((#[trigger] entries[i]).1) by {
        assert(entries[i].1 == ids[i] && good(ids[i]));
    }
}

impl PrismIndex {
    /// Scans the points of the given cells, all of them exactly, or, where
    /// there are many, after sketches and codes have preselected.
    pub fn scan_eligible_population<
        F: Fn(&[u32], &[u32], usize) -> Vec<bool>,
        T: Fn(&[u32], &[u8], &[u32], &[u32]) -> u32,
        D: Fn(Metric, &[u32], &[u32]) -> u32,
        G: Fn(&[u32], &[u32], u64, u64) -> u32,
    >(
        &self,
        rotate: &F,
        estimate: &T,
        measure: &D,
        angle: &G,
        query: &[u32],
        norm: u64,
        cell_indices: &Vec<usize>,
        k: usize,
        ef: usize,
    ) -> (result: PrismResult<(Vec<SearchResult>, SearchExecution)>)
        requires
            self.wf(),
            self.config.metric != Metric::InnerProduct,
            names_cells(cell_indices@, self.tree.cells@.len() as int),
            gathered(self.tree.cells@, cell_indices@).no_duplicates(),
            query@.len() == self.store.dim,
            all_in_domain(query@, self.store.dim as int),
            gives_flags(*rotate, self.store.dim as int),
            estimates(*estimate, self.store.dim as int),
            measures_by(*measure, self.store.dim as int),
            gives_angles(*angle, self.store.dim as int),
        ensures
            result is Ok,
            result matches Ok(found) ==> {
                &&& (found.0@, found.1) == scan_results(
                    self,
                    *rotate,
                    |p: u32| near_key(self, *estimate, *measure, query@, p),
                    |p: u32| exact_pattern(self, *measure, *angle, query@, norm, p),
                    query@,
                    gathered(self.tree.cells@, cell_indices@),
                    k as int,
                    ef as int,
                )
                &&& are_choices(found.0@, gathered(self.tree.cells@, cell_indices@), k as int)
            },
    {
        let ghost key = |p: u32| near_key(self, *estimate, *measure, query@, p);
        let ghost exact = |p: u32| exact_pattern(self, *measure, *angle, query@, norm, p);
        let mut ids: Vec<u32> = Vec::new();
        self.tree.collect_points_unchecked(cell_indices.as_slice(), &mut ids);
        let ghost all = gathered(self.tree.cells@, cell_indices@);
        assert(ids@ =~= all);
        proof {
            assert forall|i: int| 0 <= i < ids@.len() implies #[trigger] ids@[i] < self.store.len by {
                assert(ids@.contains(ids@[i]));
                gathered_is_stored(self, cell_indices@, ids@[i]);
            }
        }
        let budget: usize = match self.config.binary_rerank.checked_mul(ef) {
            Some(budget) => budget,
            None => usize::MAX,
        };
        if self.config.binary_rerank == 0 || ids.len() <= budget {
            let results = self.exact_rerank(measure, angle, query, norm, &ids, k);
            proof {
                assert forall|j: int| 0 <= j < ids@.len() implies all.contains(#[trigger] ids@[j]) by {}
                choices_of_some(exact, ids@, all, k as int);
            }
            return Ok((results, SearchExecution::ExactScan));
        }
        let code = match self.binary.encode_query(query, rotate) {
            Ok(code) => code,
            Err(error) => {
                return Err(error);
            },
        };
        let ghost good = |p: u32| all.contains(p);
        let mut entries: Vec<Scored> = Vec::new();
        while entries.len() < ids.len()
            invariant
                entries@.len() <= ids@.len(),
                self.wf(),
                self.config.binary_built(),
                code@.len() == self.binary.code_words,
                forall|i: int| 0 <= i < ids@.len() ==> #[trigger] ids@[i] < self.store.len,
                forall|i: int|
                    0 <= i < entries@.len() ==> #[trigger] entries@[i] == (
                        code_distance(code@, self.binary.code_of(ids@[i] as int)),
                        ids@[i],
                    ),
            decreases ids@.len() - entries@.len(),
        {
            let p: u32 = ids[entries.len()];
            assert(ids@[entries@.len() as int] < self.store.len);
            entries.push((hamming(code.as_slice(), self.binary.code_unchecked(p)), p));
        }
        assert(entries@ =~= ids@.map_values(
            |p: u32| (code_distance(code@, self.binary.code_of(p as int)), p),
        ));
        let mut near: Vec<Scored> = Vec::new();
        offer_each(&mut near, &entries, budget);
        proof {
            entries_are_distinct(entries@, ids@, good);
            offering_all_keeps(Seq::empty(), entries@, budget as int, good, good);
        }
        let near_ids = list_ids(&near);
        let mut second: Vec<Scored> = Vec::new();
        while second.len() < near_ids.len()
            invariant
                second@.len() <= near_ids@.len(),
                near_ids@ == ids_of(near@),
                self.wf(),
                query@.len() == self.store.dim,
                self.config.sq8_built(self.store.len as int),
                estimates(*estimate, self.store.dim as int),
                measures_by(*measure, self.store.dim as int),
                key == (|p: u32| near_key(self, *estimate, *measure, query@, p)),
                good == (|p: u32| all.contains(p)),
                ids@ == all,
                forall|i: int| 0 <= i < ids@.len() ==> #[trigger] ids@[i] < self.store.len,
                ids_are(near@, good),
                forall|i: int|
                    0 <= i < second@.len() ==> #[trigger] second@[i] == (key(near_ids@[i]), near_ids@[i]),
            decreases near_ids@.len() - second@.len(),
        {
            let p: u32 = near_ids[second.len()];
            proof {
                assert(good(near@[second@.len() as int].1));
                let i = choose|i: int| 0 <= i < all.len() && all[i] == p;
                assert(ids@[i] < self.store.len);
            }
            second.push((self.cand_dist(estimate, measure, query, p), p));
        }
        assert(second@ =~= near@.map_values(|entry: Scored| (key(entry.1), entry.1)));
        let mut best: Vec<Scored> = Vec::new();
        offer_each(&mut best, &second, ef);
        proof {
            assert forall|i: int| 0 <= i < near_ids@.len() implies (#[trigger] second@[i]).1 == near_ids@[i]
                && good(near_ids@[i]) by {
                assert(good(near@[i].1));
            }
            entries_are_distinct(second@, near_ids@, good);
            offering_all_keeps(Seq::empty(), second@, ef as int, good, good);
        }
        let chosen = list_ids(&best);
        proof {
            assert forall|i: int| 0 <= i < chosen@.len() implies all.contains(#[trigger] chosen@[i])
                && chosen@[i] < self.store.len by {
                assert(good(best@[i].1));
                let j = choose|j: int| 0 <= j < all.len() && all[j] == chosen@[i];
                assert(ids@[j] < self.store.len);
            }
            choices_of_some(exact, chosen@, all, k as int);
        }
        let results = self.exact_rerank(measure, angle, query, norm, &chosen, k);
        Ok((results, SearchExecution::BinaryPrefilterScan))
    }
}

/// A point has fewer neighbours than points can be numbered.
pub proof fn inside_is_small(graph: &Graph, p: u32, first: u32, last: u32)
    requires
        graph.wf(),
        p < graph.n,
    ensures
        inside(graph, p, first, last).len() <= 0xffff_ffff,
{
    let row = graph.row(p as int);
    row.lemma_filter_len(|y: u32| first <= y <= last);
    assert(row.len() <= graph.neighbors@.len());
    assert(graph.offsets@[p + 1] <= graph.offsets@[graph.n as int]);
}

} // verus!
