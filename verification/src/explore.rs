//! What walks through a graph find.
//!
//! A walk keeps the nearest points that it meets and continues from the nearest
//! one that it has not continued from.  Whatever way it goes, what it keeps
//! cannot be bettered by a single step.

use vstd::prelude::*;
use crate::crossing::{
    advanced, bridge_at, crossed_over, crossing_entry, crossing_found, discovered, passes_cell,
    passing_flags, Bridge, Front,
};
use crate::descent::{cell_facts, cell_found, considered, descended, inside};
use crate::distance::pattern_of;
use crate::graph::Graph;
use crate::index::{layout_is_catalog, point_placed, PrismIndex};
use crate::order::{place, place_keeps_order, slot, slot_splits, sorted, Ranked};
use crate::partition::{gathered, names_cells};
use crate::quantize::SQ8Store;
use crate::select::{kept, offered, Scored};
use crate::walk::{
    all_unseen, beam_found, code_key, entered, ids_distinct, looked_at, one_fewer_unseen,
    placing_keeps, unseen, walked, Walk,
};

verus! {

/// A walk from `entry` that met the points in `met` and kept `best`, at most
/// `ef` of those that pass.
///
/// A point that was met and passes is kept, or `ef` points are kept and none of
/// them is farther away.  The neighbours of a point that was met and passes were
/// met too, or `ef` points are kept and the walk `halts` at some point that was
/// met and is no farther away than that one.
pub open spec fn explored(
    row: spec_fn(u32) -> Seq<u32>,
    passes: spec_fn(u32) -> bool,
    key: spec_fn(u32) -> u64,
    halts: spec_fn(u64, u64) -> bool,
    entry: u32,
    ef: int,
    best: Seq<Scored>,
    met: Set<u32>,
) -> bool {
    &&& met.contains(entry)
    &&& sorted(best)
    &&& ids_distinct(best)
    &&& best.len() <= ef
    &&& forall|i: int|
        0 <= i < best.len() ==> {
            let e = #[trigger] best[i];
            e.0 == key(e.1) && met.contains(e.1) && passes(e.1)
        }
    &&& forall|p: u32| #[trigger]
        met.contains(p) && passes(p) ==> best.contains((key(p), p)) || is_beaten(best, ef, key(p))
    &&& forall|p: u32, i: int|
        #![trigger met.contains(p), row(p)[i]]
        met.contains(p) && passes(p) && 0 <= i < row(p).len() ==> met.contains(row(p)[i])
            || left_aside(key, halts, ef, best, met, key(p))
}

/// As many as asked for are kept, and none of them is farther away.
pub open spec fn is_beaten(best: Seq<Scored>, ef: int, distance: u64) -> bool {
    best.len() == ef && forall|i: int| 0 <= i < best.len() ==> (#[trigger] best[i]).0 <= distance
}

/// The walk ended at a point that was met and is no farther away.
pub open spec fn left_aside(
    key: spec_fn(u32) -> u64,
    halts: spec_fn(u64, u64) -> bool,
    ef: int,
    best: Seq<Scored>,
    met: Set<u32>,
    distance: u64,
) -> bool {
    best.len() == ef && best.len() > 0 && exists|y: u32| #[trigger]
        met.contains(y) && key(y) <= distance && halts(key(y), best.last().0)
}

/// Nothing near a kept point was missed: unless the walk would halt at a point
/// that is no farther away than it, every neighbour of it that passes is kept,
/// or as many points as asked for are kept and none of them is farther away.  So
/// no neighbour of the nearest kept point that passes is nearer than it.
pub proof fn kept_points_miss_no_neighbour(
    row: spec_fn(u32) -> Seq<u32>,
    passes: spec_fn(u32) -> bool,
    key: spec_fn(u32) -> u64,
    halts: spec_fn(u64, u64) -> bool,
    entry: u32,
    ef: int,
    best: Seq<Scored>,
    met: Set<u32>,
    at: int,
    i: int,
)
    requires
        explored(row, passes, key, halts, entry, ef, best, met),
        0 <= at < best.len(),
        0 <= i < row(best[at].1).len(),
        passes(row(best[at].1)[i]),
        forall|d: u64| d <= best[at].0 ==> !#[trigger] halts(d, best.last().0),
    ensures
        ({
            let w = row(best[at].1)[i];
            &&& best.contains((key(w), w)) || is_beaten(best, ef, key(w))
            &&& at == 0 ==> best[0].0 <= key(w)
        }),
{
    let p = best[at].1;
    let w = row(p)[i];
    assert(met.contains(p) && passes(p));
    assert(!left_aside(key, halts, ef, best, met, key(p))) by {
        if left_aside(key, halts, ef, best, met, key(p)) {
            let y = choose|y: u32| #[trigger]
                met.contains(y) && key(y) <= key(p) && halts(key(y), best.last().0);
            assert(halts(key(y), best.last().0));
        }
    }
    assert(met.contains(w));
    if best.contains((key(w), w)) {
        let j = choose|j: int| 0 <= j < best.len() && best[j] == (key(w), w);
        assert(best[0].rank() <= best[j].rank());
        crate::select::rank_orders_distances(best[0], best[j]);
    } else {
        assert(best[0].0 <= key(w));
    }
}

/// A bounded list before and after it was offered an entry.
pub open spec fn improved(list: Seq<Scored>, entry: Scored, cap: int, out: Seq<Scored>) -> bool {
    &&& sorted(out)
    &&& out.len() == if list.len() < cap {
        list.len() + 1int
    } else {
        cap
    }
    &&& forall|e: Scored| #[trigger] out.contains(e) ==> list.contains(e) || e == entry
    &&& forall|e: Scored|
        (#[trigger] list.contains(e) || e == entry) ==> out.contains(e) || (out.len() == cap
            && out.last().0 <= e.0)
    &&& out.contains(entry) || (out.len() == cap && out.last().0 <= entry.0)
    &&& list.len() == cap ==> out.last().0 <= list.last().0
    &&& ids_distinct(list) && (forall|i: int|
        0 <= i < list.len() ==> (#[trigger] list[i]).1 != entry.1) ==> ids_distinct(out)
}

proof fn placing_improves(list: Seq<Scored>, entry: Scored)
    requires
        sorted(list),
    ensures
        sorted(place(list, entry)),
        place(list, entry).len() == list.len() + 1,
        place(list, entry).contains(entry),
        forall|e: Scored| #[trigger]
            place(list, entry).contains(e) <==> list.contains(e) || e == entry,
{
    place_keeps_order(list, entry);
    slot_splits(list, entry);
    let s = slot(list, entry);
    let out = place(list, entry);
    assert(out[s] == entry);
    assert forall|e: Scored| #[trigger] out.contains(e) <==> list.contains(e) || e == entry by {
        if out.contains(e) {
            let i = choose|i: int| 0 <= i < out.len() && out[i] == e;
            if i < s {
                assert(list[i] == e);
            } else if i > s {
                assert(list[i - 1] == e);
            }
        }
        if list.contains(e) {
            let i = choose|i: int| 0 <= i < list.len() && list[i] == e;
            if i < s {
                assert(out[i] == e);
            } else {
                assert(out[i + 1] == e);
            }
        }
    }
}

/// What a full list holds once its last entry made room for another one.
proof fn replacing_improves(list: Seq<Scored>, entry: Scored, cap: int)
    requires
        sorted(list),
        list.len() == cap,
        cap > 0,
        entry.0 <= list.last().0,
        entry.rank() < list.last().rank(),
    ensures
        improved(list, entry, cap, place(list.drop_last(), entry)),
{
    let few = list.drop_last();
    let out = place(few, entry);
    assert forall|i: int, j: int| 0 <= i <= j < few.len() implies few[i].rank() <= few[j].rank() by {
        assert(list[i].rank() <= list[j].rank());
    }
    placing_improves(few, entry);
    placing_keeps(few, entry, |p: u32| true);
    if ids_distinct(list) {
        assert forall|i: int, j: int| 0 <= i < j < few.len() implies (#[trigger] few[i]).1 != (
        #[trigger] few[j]).1 by {
            assert(list[i].1 != list[j].1);
        }
    }
    if forall|i: int| 0 <= i < list.len() ==> (#[trigger] list[i]).1 != entry.1 {
        assert forall|i: int| 0 <= i < few.len() implies (#[trigger] few[i]).1 != entry.1 by {
            assert(list[i].1 != entry.1);
        }
    }
    let worst = out.last();
    assert(out.contains(worst));
    assert(worst.0 <= list.last().0) by {
        if few.contains(worst) {
            let i = choose|i: int| 0 <= i < few.len() && few[i] == worst;
            assert(list[i].rank() <= list[list.len() - 1].rank());
        }
    }
    assert forall|e: Scored| (#[trigger] list.contains(e) || e == entry) implies out.contains(e) || (
    out.len() == cap && out.last().0 <= e.0) by {
        if list.contains(e) {
            let i = choose|i: int| 0 <= i < list.len() && list[i] == e;
            if i < few.len() {
                assert(few[i] == e);
                assert(few.contains(e));
                assert(out.contains(e));
            }
        } else {
            assert(out.contains(entry));
        }
    }
    assert forall|e: Scored| #[trigger] out.contains(e) implies list.contains(e) || e == entry by {
        if few.contains(e) {
            let i = choose|i: int| 0 <= i < few.len() && few[i] == e;
            assert(list[i] == e);
        }
    }
}

/// What an offer does to a bounded list.
pub proof fn offer_improves(list: Seq<Scored>, entry: Scored, cap: int)
    requires
        sorted(list),
        list.len() <= cap,
        cap > 0,
    ensures
        improved(list, entry, cap, offered(list, entry, cap)),
{
    placing_improves(list, entry);
    placing_keeps(list, entry, |p: u32| true);
    if list.len() < cap {
    } else if entry.0 < list.last().0 {
        replacing_improves(list, entry, cap);
    }
}

/// What keeping an entry does to a bounded list.
pub proof fn keeping_improves(list: Seq<Scored>, entry: Scored, cap: int)
    requires
        sorted(list),
        list.len() <= cap,
        cap > 0,
    ensures
        improved(list, entry, cap, kept(list, entry, cap)),
{
    placing_improves(list, entry);
    placing_keeps(list, entry, |p: u32| true);
    if list.len() < cap {
    } else if entry.rank() < list.last().rank() {
        crate::select::rank_orders_distances(entry, list.last());
        replacing_improves(list, entry, cap);
    } else {
        crate::select::rank_orders_distances(list.last(), entry);
    }
}

/// A walk under way: `front` are the points to continue from, `met` those that
/// were met, `done` those that it continued from.  Where it is not `patient` it
/// need not continue from a point that would not be kept.
pub open spec fn under_way(
    passes: spec_fn(u32) -> bool,
    key: spec_fn(u32) -> u64,
    patient: bool,
    ef: int,
    front: Seq<Scored>,
    met: Set<u32>,
    done: Set<u32>,
    best: Seq<Scored>,
) -> bool {
    &&& sorted(front)
    &&& forall|i: int|
        0 <= i < front.len() ==> {
            let e = #[trigger] front[i];
            e.0 == key(e.1) && met.contains(e.1)
        }
    &&& sorted(best)
    &&& ids_distinct(best)
    &&& best.len() <= ef
    &&& forall|i: int|
        0 <= i < best.len() ==> {
            let e = #[trigger] best[i];
            e.0 == key(e.1) && met.contains(e.1) && passes(e.1)
        }
    &&& forall|p: u32| #[trigger]
        met.contains(p) && passes(p) ==> best.contains((key(p), p)) || (best.len() == ef
            && best.last().0 <= key(p))
    &&& forall|p: u32| #[trigger]
        met.contains(p) && passes(p) ==> done.contains(p) || front.contains((key(p), p)) || (!patient
            && best.len() == ef && best.last().0 <= key(p))
}

/// The neighbours of all points that the walk continued from were met.
pub open spec fn all_met(row: spec_fn(u32) -> Seq<u32>, done: Set<u32>, met: Set<u32>) -> bool {
    forall|p: u32, i: int|
        #![trigger done.contains(p), row(p)[i]]
        done.contains(p) && 0 <= i < row(p).len() ==> met.contains(row(p)[i])
}

/// A walk that begins.
pub proof fn walk_begins(
    passes: spec_fn(u32) -> bool,
    key: spec_fn(u32) -> u64,
    patient: bool,
    ef: int,
    entry: u32,
)
    requires
        passes(entry),
        ef > 0,
    ensures
        under_way(
            passes,
            key,
            patient,
            ef,
            seq![(key(entry), entry)],
            set![entry],
            Set::empty(),
            seq![(key(entry), entry)],
        ),
{
    let start: Seq<Scored> = seq![(key(entry), entry)];
    assert(start[0] == (key(entry), entry));
}

/// A walk that takes the first of the points to continue from.
pub proof fn walk_steps(
    passes: spec_fn(u32) -> bool,
    key: spec_fn(u32) -> u64,
    patient: bool,
    ef: int,
    front: Seq<Scored>,
    met: Set<u32>,
    done: Set<u32>,
    best: Seq<Scored>,
)
    requires
        under_way(passes, key, patient, ef, front, met, done, best),
        front.len() > 0,
    ensures
        under_way(passes, key, patient, ef, front.skip(1), met, done.insert(front[0].1), best),
{
    let rest = front.skip(1);
    assert forall|i: int, j: int| 0 <= i <= j < rest.len() implies rest[i].rank() <= rest[j].rank() by {
        assert(front[i + 1].rank() <= front[j + 1].rank());
    }
    assert forall|i: int| 0 <= i < rest.len() implies {
        let e = #[trigger] rest[i];
        e.0 == key(e.1) && met.contains(e.1)
    } by {
        assert(front[i + 1] == rest[i]);
    }
    assert forall|p: u32| #[trigger] met.contains(p) && passes(p) implies done.insert(
        front[0].1,
    ).contains(p) || rest.contains((key(p), p)) || (!patient && best.len() == ef && best.last().0
        <= key(p)) by {
        if front.contains((key(p), p)) {
            let i = choose|i: int| 0 <= i < front.len() && front[i] == (key(p), p);
            if i > 0 {
                assert(rest[i - 1] == (key(p), p));
            }
        }
    }
}

/// A walk that meets a point: one that passes is offered and continued from,
/// unless it would not be kept; another one may be continued from.
pub proof fn walk_meets(
    passes: spec_fn(u32) -> bool,
    key: spec_fn(u32) -> u64,
    patient: bool,
    ef: int,
    front: Seq<Scored>,
    met: Set<u32>,
    done: Set<u32>,
    best: Seq<Scored>,
    w: u32,
    front_now: Seq<Scored>,
    best_now: Seq<Scored>,
)
    requires
        under_way(passes, key, patient, ef, front, met, done, best),
        !met.contains(w),
        ef > 0,
        if passes(w) {
            ||| improved(best, (key(w), w), ef, best_now) && front_now == place(front, (key(w), w))
            ||| !patient && best_now == best && front_now == front && best.len() == ef
                && best.last().0 <= key(w)
        } else {
            best_now == best && (front_now == front || front_now == place(front, (key(w), w)))
        },
    ensures
        under_way(passes, key, patient, ef, front_now, met.insert(w), done, best_now),
{
    let entry = (key(w), w);
    let now = met.insert(w);
    placing_improves(front, entry);
    assert forall|i: int| 0 <= i < best.len() implies (#[trigger] best[i]).1 != w by {
        assert(met.contains(best[i].1));
    }
    assert forall|i: int| 0 <= i < front_now.len() implies {
        let e = #[trigger] front_now[i];
        e.0 == key(e.1) && now.contains(e.1)
    } by {
        let e = front_now[i];
        assert(front_now.contains(e));
        if e != entry {
            assert(front.contains(e));
            let j = choose|j: int| 0 <= j < front.len() && front[j] == e;
            assert(met.contains(front[j].1));
        }
    }
    assert forall|i: int| 0 <= i < best_now.len() implies {
        let e = #[trigger] best_now[i];
        e.0 == key(e.1) && now.contains(e.1) && passes(e.1)
    } by {
        let e = best_now[i];
        assert(best_now.contains(e));
        if best.contains(e) {
            let j = choose|j: int| 0 <= j < best.len() && best[j] == e;
            assert(met.contains(best[j].1));
        }
    }
    assert forall|p: u32| #[trigger] now.contains(p) && passes(p) implies best_now.contains(
        (key(p), p),
    ) || (best_now.len() == ef && best_now.last().0 <= key(p)) by {
        if p != w {
            assert(met.contains(p));
            if best.contains((key(p), p)) {
            }
        }
    }
    assert forall|p: u32| #[trigger] now.contains(p) && passes(p) implies done.contains(p)
        || front_now.contains((key(p), p)) || (!patient && best_now.len() == ef && best_now.last().0
        <= key(p)) by {
        if p != w {
            assert(met.contains(p));
        }
    }
}

/// A walk that ends, because nothing is left to continue from or because it
/// halts at the nearest such point.
pub proof fn walk_ends(
    row: spec_fn(u32) -> Seq<u32>,
    passes: spec_fn(u32) -> bool,
    key: spec_fn(u32) -> u64,
    halts: spec_fn(u64, u64) -> bool,
    patient: bool,
    entry: u32,
    ef: int,
    front: Seq<Scored>,
    met: Set<u32>,
    done: Set<u32>,
    best: Seq<Scored>,
)
    requires
        under_way(passes, key, patient, ef, front, met, done, best),
        all_met(row, done, met),
        met.contains(entry),
        ef > 0,
        front.len() == 0 || (best.len() >= ef && halts(front[0].0, best.last().0)),
        !patient ==> forall|d: u64, worst: u64| worst <= d ==> #[trigger] halts(d, worst),
    ensures
        explored(row, passes, key, halts, entry, ef, best, met),
{
    assert forall|p: u32| #[trigger] met.contains(p) && passes(p) implies best.contains((key(p), p))
        || is_beaten(best, ef, key(p)) by {
        if !best.contains((key(p), p)) {
            assert forall|i: int| 0 <= i < best.len() implies (#[trigger] best[i]).0 <= key(p) by {
                assert(best[i].rank() <= best[best.len() - 1].rank());
            }
        }
    }
    assert forall|p: u32, i: int|
        #![trigger met.contains(p), row(p)[i]]
        met.contains(p) && passes(p) && 0 <= i < row(p).len() implies met.contains(row(p)[i])
        || left_aside(key, halts, ef, best, met, key(p)) by {
        if !done.contains(p) {
            if front.contains((key(p), p)) {
                let j = choose|j: int| 0 <= j < front.len() && front[j] == (key(p), p);
                assert(front[0].rank() <= front[j].rank());
                assert(met.contains(front[0].1));
            } else {
                assert(halts(key(p), best.last().0));
            }
        }
    }
}

/// The points that are marked as seen.
pub open spec fn marked(seen: Seq<bool>, base: int) -> Set<u32> {
    Set::new(|p: u32| 0 <= p - base < seen.len() && seen[p - base])
}

proof fn marking_inserts(seen: Seq<bool>, base: int, w: u32)
    requires
        0 <= w - base < seen.len(),
    ensures
        marked(seen.update(w - base, true), base) == marked(seen, base).insert(w),
{
    assert(marked(seen.update(w - base, true), base) =~= marked(seen, base).insert(w));
}

proof fn first_mark(n: int, base: int, entry: u32)
    requires
        0 <= entry - base < n,
    ensures
        marked(Seq::new(n as nat, |i: int| i == entry - base), base) == set![entry],
        unseen(Seq::new(n as nat, |i: int| i == entry - base)) == n - 1,
{
    let seen = Seq::new(n as nat, |i: int| i == entry - base);
    let clear = Seq::new(n as nat, |i: int| false);
    all_unseen(clear);
    one_fewer_unseen(clear, entry - base);
    assert(clear.update(entry - base, true) =~= seen);
    assert(marked(seen, base) =~= set![entry]);
}

proof fn looking_keeps_way(
    walk: Walk,
    done: Set<u32>,
    neighbors: Seq<u32>,
    key: spec_fn(u32) -> u64,
    beam: int,
    upto: int,
)
    requires
        0 <= upto <= neighbors.len(),
        beam > 0,
        forall|i: int| 0 <= i < neighbors.len() ==> #[trigger] neighbors[i] < walk.1.len(),
        under_way(|p: u32| true, key, true, beam, walk.0, marked(walk.1, 0), done, walk.2),
    ensures
        ({
            let (front, seen, best) = looked_at(walk, neighbors, key, beam, upto);
            &&& under_way(|p: u32| true, key, true, beam, front, marked(seen, 0), done, best)
            &&& seen.len() == walk.1.len()
            &&& marked(walk.1, 0).subset_of(marked(seen, 0))
            &&& forall|i: int| 0 <= i < upto ==> marked(seen, 0).contains(#[trigger] neighbors[i])
            &&& front.len() + unseen(seen) == walk.0.len() + unseen(walk.1)
        }),
    decreases upto,
{
    if upto > 0 {
        looking_keeps_way(walk, done, neighbors, key, beam, upto - 1);
        let (front, seen, best) = looked_at(walk, neighbors, key, beam, upto - 1);
        let w = neighbors[upto - 1];
        assert(w < walk.1.len());
        if !seen[w as int] {
            let entry = (key(w), w);
            keeping_improves(best, entry, beam);
            placing_improves(front, entry);
            walk_meets(
                |p: u32| true,
                key,
                true,
                beam,
                front,
                marked(seen, 0),
                done,
                best,
                w,
                place(front, entry),
                kept(best, entry, beam),
            );
            marking_inserts(seen, 0, w);
            one_fewer_unseen(seen, w as int);
        }
        let (_, now, _) = looked_at(walk, neighbors, key, beam, upto);
        assert forall|i: int| 0 <= i < upto implies marked(now, 0).contains(#[trigger] neighbors[i]) by {
            if i < upto - 1 {
                assert(marked(seen, 0).contains(neighbors[i]));
            }
        }
    }
}

proof fn walking_explores(
    graph: &Graph,
    walk: Walk,
    done: Set<u32>,
    key: spec_fn(u32) -> u64,
    entry: u32,
    beam: int,
    fuel: int,
) -> (met: Set<u32>)
    requires
        beam > 0,
        walk.1.len() == graph.n,
        forall|a: int, i: int|
            0 <= a < graph.n && 0 <= i < graph.row(a).len() ==> #[trigger] graph.row(a)[i] < graph.n,
        under_way(|p: u32| true, key, true, beam, walk.0, marked(walk.1, 0), done, walk.2),
        all_met(|p: u32| graph.row(p as int), done, marked(walk.1, 0)),
        marked(walk.1, 0).contains(entry),
        fuel >= walk.0.len() + unseen(walk.1),
    ensures
        explored(
            |p: u32| graph.row(p as int),
            |p: u32| true,
            key,
            |d: u64, worst: u64| worst < d,
            entry,
            beam,
            walked(graph, walk, key, beam, fuel),
            met,
        ),
    decreases fuel,
{
    let rows = |p: u32| graph.row(p as int);
    let all = |p: u32| true;
    let halts = |d: u64, worst: u64| worst < d;
    let (front, seen, best) = walk;
    let met = marked(seen, 0);
    if fuel <= 0 || front.len() == 0 || (best.len() >= beam && front[0].0 > best.last().0) {
        walk_ends(rows, all, key, halts, true, entry, beam, front, met, done, best);
        met
    } else {
        let at = front[0].1;
        assert(met.contains(at));
        let neighbors = graph.row(at as int);
        walk_steps(all, key, true, beam, front, met, done, best);
        let rest = (front.skip(1), seen, best);
        let more = done.insert(at);
        assert forall|i: int| 0 <= i < neighbors.len() implies #[trigger] neighbors[i] < seen.len() by {
            assert(graph.row(at as int)[i] < graph.n);
        }
        looking_keeps_way(rest, more, neighbors, key, beam, neighbors.len() as int);
        let next = looked_at(rest, neighbors, key, beam, neighbors.len() as int);
        let now = marked(next.1, 0);
        assert forall|p: u32, i: int|
            #![trigger more.contains(p), rows(p)[i]]
            more.contains(p) && 0 <= i < rows(p).len() implies now.contains(rows(p)[i]) by {
            if p == at {
                assert(now.contains(neighbors[i]));
            } else {
                assert(done.contains(p));
                assert(met.contains(rows(p)[i]));
            }
        }
        walking_explores(graph, next, more, key, entry, beam, fuel - 1)
    }
}

/// What a walk between codes keeps cannot be bettered by a step: every neighbour
/// of a point that it met and would continue from is kept, or `beam` points are
/// kept that are not farther away.
pub proof fn code_walks_explore<Q: Fn(&[u8], &[u8], &[u32]) -> u32>(
    sq8: &SQ8Store,
    compare: Q,
    graph: &Graph,
    query: u32,
    entry: u32,
    beam: int,
) -> (met: Set<u32>)
    requires
        graph.wf(),
        entry < graph.n,
        beam > 0,
    ensures
        explored(
            |p: u32| graph.row(p as int),
            |p: u32| true,
            |p: u32| code_key(sq8, compare, query, p),
            |d: u64, worst: u64| worst < d,
            entry,
            beam,
            beam_found(sq8, compare, graph, query, entry, beam),
            met,
        ),
{
    let key = |p: u32| code_key(sq8, compare, query, p);
    let n = graph.n as int;
    walk_begins(|p: u32| true, key, true, beam, entry);
    first_mark(n, 0, entry);
    let walk = entered(n, entry, key);
    assert(walk.1 =~= Seq::new(n as nat, |i: int| i == entry - 0));
    assert forall|a: int, i: int| 0 <= a < graph.n && 0 <= i < graph.row(a).len() implies #[trigger] graph.row(
        a,
    )[i] < graph.n by {
        graph.row_within(a);
    }
    walking_explores(graph, walk, Set::empty(), key, entry, beam, n)
}

proof fn considering_keeps_way(
    walk: Walk,
    done: Set<u32>,
    neighbors: Seq<u32>,
    base: int,
    key: spec_fn(u32) -> u64,
    ef: int,
    upto: int,
)
    requires
        0 <= upto <= neighbors.len(),
        ef > 0,
        forall|i: int|
            0 <= i < neighbors.len() ==> 0 <= (#[trigger] neighbors[i]) - base < walk.1.len(),
        under_way(|p: u32| true, key, false, ef, walk.0, marked(walk.1, base), done, walk.2),
    ensures
        ({
            let (front, seen, best) = considered(walk, neighbors, base, key, ef, upto);
            &&& under_way(|p: u32| true, key, false, ef, front, marked(seen, base), done, best)
            &&& seen.len() == walk.1.len()
            &&& marked(walk.1, base).subset_of(marked(seen, base))
            &&& forall|i: int| 0 <= i < upto ==> marked(seen, base).contains(#[trigger] neighbors[i])
            &&& front.len() + unseen(seen) <= walk.0.len() + unseen(walk.1)
        }),
    decreases upto,
{
    if upto > 0 {
        considering_keeps_way(walk, done, neighbors, base, key, ef, upto - 1);
        let (front, seen, best) = considered(walk, neighbors, base, key, ef, upto - 1);
        let (front_now, now, best_now) = considered(walk, neighbors, base, key, ef, upto);
        let w = neighbors[upto - 1];
        assert(0 <= w - base < walk.1.len());
        if !seen[w - base] {
            let entry = (key(w), w);
            offer_improves(best, entry, ef);
            placing_improves(front, entry);
            walk_meets(
                |p: u32| true,
                key,
                false,
                ef,
                front,
                marked(seen, base),
                done,
                best,
                w,
                front_now,
                best_now,
            );
            marking_inserts(seen, base, w);
            one_fewer_unseen(seen, w - base);
        }
        assert forall|i: int| 0 <= i < upto implies marked(now, base).contains(#[trigger] neighbors[i]) by {
            if i < upto - 1 {
                assert(marked(seen, base).contains(neighbors[i]));
            }
        }
    }
}

proof fn descending_explores(
    rows: spec_fn(u32) -> Seq<u32>,
    walk: Walk,
    done: Set<u32>,
    base: int,
    key: spec_fn(u32) -> u64,
    entry: u32,
    ef: int,
    fuel: int,
) -> (met: Set<u32>)
    requires
        ef > 0,
        forall|p: u32, i: int|
            0 <= p - base < walk.1.len() && 0 <= i < rows(p).len() ==> 0 <= (#[trigger] rows(p)[i]) - base
                < walk.1.len(),
        under_way(|p: u32| true, key, false, ef, walk.0, marked(walk.1, base), done, walk.2),
        all_met(rows, done, marked(walk.1, base)),
        marked(walk.1, base).contains(entry),
        fuel >= walk.0.len() + unseen(walk.1),
    ensures
        explored(
            rows,
            |p: u32| true,
            key,
            |d: u64, worst: u64| worst <= d,
            entry,
            ef,
            descended(rows, walk, base, key, ef, fuel),
            met,
        ),
        forall|p: u32| #[trigger] met.contains(p) ==> 0 <= p - base < walk.1.len(),
    decreases fuel,
{
    let all = |p: u32| true;
    let halts = |d: u64, worst: u64| worst <= d;
    let (front, seen, best) = walk;
    let met = marked(seen, base);
    if fuel <= 0 || front.len() == 0 || (best.len() >= ef && front[0].0 > best.last().0) {
        walk_ends(rows, all, key, halts, false, entry, ef, front, met, done, best);
        met
    } else {
        let at = front[0].1;
        assert(met.contains(at));
        let neighbors = rows(at);
        walk_steps(all, key, false, ef, front, met, done, best);
        let rest = (front.skip(1), seen, best);
        let more = done.insert(at);
        considering_keeps_way(rest, more, neighbors, base, key, ef, neighbors.len() as int);
        let next = considered(rest, neighbors, base, key, ef, neighbors.len() as int);
        let now = marked(next.1, base);
        assert forall|p: u32, i: int|
            #![trigger more.contains(p), rows(p)[i]]
            more.contains(p) && 0 <= i < rows(p).len() implies now.contains(rows(p)[i]) by {
            if p == at {
                assert(now.contains(neighbors[i]));
            } else {
                assert(done.contains(p));
                assert(met.contains(rows(p)[i]));
            }
        }
        descending_explores(rows, next, more, base, key, entry, ef, fuel - 1)
    }
}

/// What a walk within a cell keeps cannot be bettered by a step along the edges
/// within the cell: every neighbour of a point that it met is kept, or `ef`
/// points are kept that are not farther away.
pub proof fn cell_walks_explore(index: &PrismIndex, key: spec_fn(u32) -> u64, c: int, ef: int) -> (met:
    Set<u32>)
    requires
        index.wf(),
        0 <= c < index.tree.cells@.len(),
        ef > 0,
    ensures
        explored(
            |p: u32| index.graph.row(p as int).filter(
                |w: u32|
                    index.tree.cells@[c].point_ids@[0] <= w
                        <= index.tree.cells@[c].point_ids@.last(),
            ),
            |p: u32| true,
            key,
            |d: u64, worst: u64| worst <= d,
            index.medoids@[c],
            ef,
            cell_found(index, key, c, ef),
            met,
        ),
        forall|p: u32| #[trigger] met.contains(p) ==> index.tree.cells@[c].point_ids@.contains(p),
{
    cell_facts(index, c);
    let ids = index.tree.cells@[c].point_ids@;
    let entry = index.medoids@[c];
    let base = ids[0] as int;
    let n = ids.len() as int;
    let rows = |p: u32| inside(&index.graph, p, ids[0], ids.last());
    let plain = |p: u32|
        index.graph.row(p as int).filter(|w: u32| ids[0] <= w <= ids.last());
    assert forall|p: u32| #[trigger] rows(p) == plain(p) by {}
    assert(rows =~= plain);
    walk_begins(|p: u32| true, key, false, ef, entry);
    first_mark(n, base, entry);
    assert forall|p: u32, i: int| 0 <= p - base < n && 0 <= i < rows(p).len() implies 0 <= (
    #[trigger] rows(p)[i]) - base < n by {
        let row = index.graph.row(p as int);
        let pred = |w: u32| ids[0] <= w <= ids.last();
        row.lemma_filter_pred(pred, i);
    }
    let seen = Seq::new(ids.len(), |i: int| i == entry - ids[0]);
    assert(seen =~= Seq::new(n as nat, |i: int| i == entry - base));
    let start: Seq<Scored> = seq![(key(entry), entry)];
    descending_explores(rows, (start, seen, start), Set::empty(), base, key, entry, ef, n)
}

/// What is found among the first neighbours: what was seen stays so, and the
/// others become so.
proof fn discoveries_mark(row: Seq<u32>, seen: Seq<bool>, upto: int)
    requires
        0 <= upto <= row.len(),
        forall|i: int| 0 <= i < row.len() ==> #[trigger] row[i] < seen.len(),
    ensures
        ({
            let (fresh, now) = discovered(row, seen, upto);
            &&& now.len() == seen.len()
            &&& fresh.no_duplicates()
            &&& forall|i: int|
                0 <= i < fresh.len() ==> (#[trigger] fresh[i]) < seen.len() && !seen[fresh[i] as int]
            &&& forall|i: int| 0 <= i < fresh.len() ==> row.contains(#[trigger] fresh[i])
            &&& marked(now, 0) == marked(seen, 0).union(fresh.to_set())
            &&& forall|i: int| 0 <= i < upto ==> marked(now, 0).contains(#[trigger] row[i])
            &&& unseen(now) + fresh.len() == unseen(seen)
        }),
    decreases upto,
{
    let (fresh, now) = discovered(row, seen, upto);
    if upto > 0 {
        discoveries_mark(row, seen, upto - 1);
        let (few, then) = discovered(row, seen, upto - 1);
        let w = row[upto - 1];
        assert(w < seen.len());
        if !then[w as int] {
            one_fewer_unseen(then, w as int);
            marking_inserts(then, 0, w);
            assert(!marked(then, 0).contains(w));
            assert(!few.contains(w)) by {
                if few.contains(w) {
                    assert(few.to_set().contains(w));
                }
            }
            assert(fresh.to_set() =~= few.to_set().insert(w)) by {
                assert forall|x: u32| fresh.to_set().contains(x) <==> few.to_set().insert(w).contains(x) by {
                    if fresh.contains(x) {
                        let i = choose|i: int| 0 <= i < fresh.len() && fresh[i] == x;
                        if i < few.len() {
                            assert(few[i] == x);
                        }
                    }
                    if few.contains(x) {
                        let i = choose|i: int| 0 <= i < few.len() && few[i] == x;
                        assert(fresh[i] == x);
                    }
                    assert(fresh[few.len() as int] == w);
                }
            }
            assert(marked(now, 0) =~= marked(seen, 0).union(fresh.to_set()));
            assert(!marked(seen, 0).contains(w));
            assert forall|i: int, j: int| 0 <= i < fresh.len() && 0 <= j < fresh.len() && i != j implies fresh[i]
                != fresh[j] by {
                if i < few.len() {
                    assert(few.contains(few[i]));
                }
                if j < few.len() {
                    assert(few.contains(few[j]));
                }
            }
        }
        assert forall|i: int| 0 <= i < upto implies marked(now, 0).contains(#[trigger] row[i]) by {
            if i < upto - 1 {
                assert(marked(then, 0).contains(row[i]));
            }
        }
    } else {
        assert(fresh.to_set() =~= Set::empty());
        assert(marked(now, 0) =~= marked(seen, 0).union(fresh.to_set()));
    }
}

/// The nearest points that pass among those in `met`, at most `ef`.
pub open spec fn nearest_so_far(
    passes: spec_fn(u32) -> bool,
    key: spec_fn(u32) -> u64,
    ef: int,
    met: Set<u32>,
    held: Seq<Scored>,
) -> bool {
    &&& sorted(held)
    &&& ids_distinct(held)
    &&& 0 < held.len() <= ef
    &&& forall|i: int|
        0 <= i < held.len() ==> {
            let e = #[trigger] held[i];
            e.0 == key(e.1) && met.contains(e.1) && passes(e.1)
        }
    &&& forall|p: u32| #[trigger]
        met.contains(p) && passes(p) ==> held.contains((key(p), p)) || (held.len() == ef
            && held.last().0 <= key(p))
}

/// What is weighed when a walk might cross point `p`: how many of its neighbours
/// pass and were not met by then, how many it has, how far away it is, and how
/// far away the worst of the points is that were kept until then.  `before` are
/// the points that were met before it; of those met by then only neighbours of
/// the point that the walk continued from came at the same time or later.
pub open spec fn weighs(
    index: &PrismIndex,
    passes: spec_fn(u32) -> bool,
    key: spec_fn(u32) -> u64,
    eligible: int,
    ef: int,
    met: Set<u32>,
    p: u32,
    then: Set<u32>,
    before: Set<u32>,
    from: u32,
    held: Seq<Scored>,
    bridge: Bridge,
) -> bool {
    let row = index.graph.row(p as int);
    &&& then.subset_of(met)
    &&& before.subset_of(then) && before.contains(from)
    &&& forall|w: u32| #[trigger]
        then.contains(w) && !before.contains(w) ==> index.graph.row(from as int).contains(w)
    &&& nearest_so_far(passes, key, ef, before, held)
    &&& bridge == Bridge {
        matching: row.filter(|w: u32| passes(w) && !then.contains(w)).len() as usize,
        degree: row.len() as usize,
        distance: pattern_of(key(p) as u32),
        radius: pattern_of(held.last().0 as u32),
        eligible: eligible as usize,
        population: index.store.len,
    }
}

/// Point `p` was weighed, and promised to lead on or not.
pub open spec fn was_weighed(
    index: &PrismIndex,
    passes: spec_fn(u32) -> bool,
    key: spec_fn(u32) -> u64,
    promises: spec_fn(Bridge) -> bool,
    eligible: int,
    ef: int,
    met: Set<u32>,
    p: u32,
    promising: bool,
) -> bool {
    exists|then: Set<u32>, before: Set<u32>, from: u32, held: Seq<Scored>, bridge: Bridge| #[trigger]
        weighs(
            index,
            passes,
            key,
            eligible,
            ef,
            met,
            p,
            then,
            before,
            from,
            held,
            bridge,
        ) && promises(bridge) == promising
}

/// Of the points in `about` that do not pass, those in `crossed` were continued
/// from, at most `budget`: each promised to lead on.  Any other one has no
/// neighbours, or came when the budget was used up, or did not promise.
pub open spec fn bridged(
    index: &PrismIndex,
    passes: spec_fn(u32) -> bool,
    key: spec_fn(u32) -> u64,
    promises: spec_fn(Bridge) -> bool,
    budget: int,
    eligible: int,
    ef: int,
    about: Set<u32>,
    met: Set<u32>,
    crossed: Set<u32>,
) -> bool {
    &&& crossed.finite()
    &&& crossed.len() <= budget
    &&& forall|p: u32| #[trigger]
        crossed.contains(p) ==> about.contains(p) && !passes(p) && was_weighed(
            index,
            passes,
            key,
            promises,
            eligible,
            ef,
            met,
            p,
            true,
        )
    &&& forall|p: u32| #[trigger]
        about.contains(p) && !passes(p) && !crossed.contains(p) ==> index.graph.row(p as int).len() == 0
            || crossed.len() == budget || was_weighed(
            index,
            passes,
            key,
            promises,
            eligible,
            ef,
            met,
            p,
            false,
        )
}

/// The points in `crossed` were continued from or will be.
pub open spec fn pursued(
    key: spec_fn(u32) -> u64,
    front: Seq<Scored>,
    done: Set<u32>,
    crossed: Set<u32>,
) -> bool {
    forall|p: u32| #[trigger]
        crossed.contains(p) ==> done.contains(p) || front.contains((key(p), p))
}

/// What was weighed stays so when more points are met.
proof fn weighing_stays(
    index: &PrismIndex,
    passes: spec_fn(u32) -> bool,
    key: spec_fn(u32) -> u64,
    promises: spec_fn(Bridge) -> bool,
    budget: int,
    eligible: int,
    ef: int,
    about: Set<u32>,
    met: Set<u32>,
    more: Set<u32>,
    crossed: Set<u32>,
)
    requires
        bridged(index, passes, key, promises, budget, eligible, ef, about, met, crossed),
        met.subset_of(more),
    ensures
        bridged(index, passes, key, promises, budget, eligible, ef, about, more, crossed),
{
    assert forall|p: u32, promising: bool| #[trigger]
        was_weighed(index, passes, key, promises, eligible, ef, met, p, promising) implies was_weighed(
        index,
        passes,
        key,
        promises,
        eligible,
        ef,
        more,
        p,
        promising,
    ) by {
        let (then, before, from, held, bridge) = choose|
            then: Set<u32>,
            before: Set<u32>,
            from: u32,
            held: Seq<Scored>,
            bridge: Bridge,
        | #[trigger]
            weighs(
                index,
                passes,
                key,
                eligible,
                ef,
                met,
                p,
                then,
                before,
                from,
                held,
                bridge,
            ) && promises(bridge) == promising;
        assert(weighs(
            index,
            passes,
            key,
            eligible,
            ef,
            more,
            p,
            then,
            before,
            from,
            held,
            bridge,
        ));
    }
}

/// Open matches are the neighbours that pass and were not seen.
proof fn matches_are_counted(
    index: &PrismIndex,
    passing: Seq<bool>,
    passes: spec_fn(u32) -> bool,
    seen: Seq<bool>,
    row: Seq<u32>,
    upto: int,
)
    requires
        0 <= upto <= row.len(),
        forall|i: int| 0 <= i < row.len() ==> #[trigger] row[i] < seen.len(),
        forall|i: int|
            0 <= i < row.len() ==> passes(#[trigger] row[i]) == passes_cell(index, passing, row[i]),
    ensures
        crate::crossing::open_matches(index, passing, seen, row, upto) == row.take(upto).filter(
            |w: u32| passes(w) && !marked(seen, 0).contains(w),
        ).len(),
    decreases upto,
{
    let pred = |w: u32| passes(w) && !marked(seen, 0).contains(w);
    if upto > 0 {
        matches_are_counted(index, passing, passes, seen, row, upto - 1);
        let w = row[upto - 1];
        assert(w < seen.len());
        assert(row.take(upto).drop_last() =~= row.take(upto - 1));
        reveal(Seq::filter);
        assert(row.take(upto).filter(pred) == if pred(w) {
            row.take(upto - 1).filter(pred).push(w)
        } else {
            row.take(upto - 1).filter(pred)
        });
    } else {
        reveal(Seq::filter);
        assert(row.take(0).filter(pred).len() == 0);
    }
}

proof fn advancing_keeps_way(
    index: &PrismIndex,
    passing: Seq<bool>,
    passes: spec_fn(u32) -> bool,
    seen: Seq<bool>,
    before: Set<u32>,
    front: Front,
    done: Set<u32>,
    crossed: Set<u32>,
    from: u32,
    fresh: Seq<u32>,
    key: spec_fn(u32) -> u64,
    promises: spec_fn(Bridge) -> bool,
    budget: int,
    eligible: int,
    ef: int,
    upto: int,
) -> (more: Set<u32>)
    requires
        index.graph.wf(),
        index.graph.n == seen.len(),
        0 <= upto <= fresh.len(),
        ef > 0,
        front.1.len() > 0,
        fresh.no_duplicates(),
        before.contains(from),
        forall|i: int|
            0 <= i < fresh.len() ==> (#[trigger] fresh[i]) < seen.len() && !before.contains(fresh[i]),
        forall|i: int|
            0 <= i < fresh.len() ==> index.graph.row(from as int).contains(#[trigger] fresh[i]),
        forall|p: u32| p < seen.len() ==> #[trigger] passes(p) == passes_cell(index, passing, p),
        marked(seen, 0) == before.union(fresh.to_set()),
        under_way(passes, key, true, ef, front.0, before, done, front.1),
        bridged(
            index,
            passes,
            key,
            promises,
            budget,
            eligible,
            ef,
            before,
            marked(seen, 0),
            crossed,
        ),
        pursued(key, front.0, done, crossed),
        crossed.len() == front.2,
    ensures
        ({
            let (points, best, count) = advanced(
                index,
                passing,
                seen,
                front,
                fresh,
                key,
                promises,
                budget,
                eligible,
                ef,
                upto,
            );
            let about = before.union(fresh.take(upto).to_set());
            &&& under_way(passes, key, true, ef, points, about, done, best)
            &&& bridged(
                index,
                passes,
                key,
                promises,
                budget,
                eligible,
                ef,
                about,
                marked(seen, 0),
                more,
            )
            &&& pursued(key, points, done, more)
            &&& more.len() == count
            &&& best.len() > 0
            &&& points.len() <= front.0.len() + upto
        }),
    decreases upto,
{
    let met = marked(seen, 0);
    if upto <= 0 {
        assert(fresh.take(0).to_set() =~= Set::empty());
        assert(before.union(fresh.take(upto).to_set()) =~= before);
        crossed
    } else {
        let few = advancing_keeps_way(
            index,
            passing,
            passes,
            seen,
            before,
            front,
            done,
            crossed,
            from,
            fresh,
            key,
            promises,
            budget,
            eligible,
            ef,
            upto - 1,
        );
        let (points, best, count) = advanced(
            index,
            passing,
            seen,
            front,
            fresh,
            key,
            promises,
            budget,
            eligible,
            ef,
            upto - 1,
        );
        let (points_now, best_now, count_now) = advanced(
            index,
            passing,
            seen,
            front,
            fresh,
            key,
            promises,
            budget,
            eligible,
            ef,
            upto,
        );
        let w = fresh[upto - 1];
        let entry = (key(w), w);
        let about = before.union(fresh.take(upto - 1).to_set());
        let about_now = before.union(fresh.take(upto).to_set());
        assert(fresh.take(upto) =~= fresh.take(upto - 1).push(w));
        assert(about_now =~= about.insert(w)) by {
            assert forall|x: u32| fresh.take(upto).to_set().contains(x) <==> fresh.take(
                upto - 1,
            ).to_set().insert(w).contains(x) by {
                let one = fresh.take(upto - 1);
                let two = fresh.take(upto);
                if two.contains(x) {
                    let i = choose|i: int| 0 <= i < two.len() && two[i] == x;
                    if i < one.len() {
                        assert(one[i] == x);
                    }
                }
                if one.contains(x) {
                    let i = choose|i: int| 0 <= i < one.len() && one[i] == x;
                    assert(two[i] == x);
                }
                assert(two[upto - 1] == w);
            }
        }
        assert(!about.contains(w)) by {
            assert(!before.contains(fresh[upto - 1]));
            let one = fresh.take(upto - 1);
            if one.contains(w) {
                let i = choose|i: int| 0 <= i < one.len() && one[i] == w;
                assert(fresh[i] == fresh[upto - 1]);
            }
        }
        placing_improves(points, entry);
        offer_improves(best, entry, ef);
        walk_meets(passes, key, true, ef, points, about, done, best, w, points_now, best_now);
        let more = if count_now > count {
            few.insert(w)
        } else {
            few
        };
        if !passes(w) {
            let row = index.graph.row(w as int);
            index.graph.row_within(w as int);
            matches_are_counted(index, passing, passes, seen, row, row.len() as int);
            assert(row.take(row.len() as int) =~= row);
            let bridge = bridge_at(index, passing, seen, best, key, eligible, w);
            assert forall|x: u32| #[trigger] about.contains(x) implies met.contains(x) by {
                if !before.contains(x) {
                    let one = fresh.take(upto - 1);
                    let i = choose|i: int| 0 <= i < one.len() && one[i] == x;
                    assert(fresh[i] == x);
                }
            }
            assert forall|x: u32| #[trigger] met.contains(x) && !about.contains(x) implies index.graph.row(
                from as int,
            ).contains(x) by {
                assert(fresh.contains(x));
                let i = choose|i: int| 0 <= i < fresh.len() && fresh[i] == x;
                assert(index.graph.row(from as int).contains(fresh[i]));
            }
            assert(nearest_so_far(passes, key, ef, about, best));
            assert(weighs(
                index,
                passes,
                key,
                eligible,
                ef,
                met,
                w,
                met,
                about,
                from,
                best,
                bridge,
            ));
            assert(was_weighed(
                index,
                passes,
                key,
                promises,
                eligible,
                ef,
                met,
                w,
                promises(bridge),
            ));
            assert(!few.contains(w));
        }
        assert forall|p: u32| #[trigger] more.contains(p) implies done.contains(p) || points_now.contains(
            (key(p), p),
        ) by {
            if p != w {
                assert(few.contains(p));
            }
        }
        more
    }
}

/// Where a walk ends, the points in `crossed` were continued from, or the walk
/// halted at a point that is no farther away.
proof fn pursuit_ends(
    row: spec_fn(u32) -> Seq<u32>,
    passes: spec_fn(u32) -> bool,
    key: spec_fn(u32) -> u64,
    halts: spec_fn(u64, u64) -> bool,
    ef: int,
    front: Seq<Scored>,
    met: Set<u32>,
    done: Set<u32>,
    best: Seq<Scored>,
    crossed: Set<u32>,
)
    requires
        under_way(passes, key, true, ef, front, met, done, best),
        all_met(row, done, met),
        pursued(key, front, done, crossed),
        front.len() == 0 || (best.len() >= ef && best.len() > 0 && halts(
            front[0].0,
            best.last().0,
        )),
    ensures
        forall|p: u32, i: int|
            #![trigger crossed.contains(p), row(p)[i]]
            crossed.contains(p) && 0 <= i < row(p).len() ==> met.contains(row(p)[i])
                || left_aside(key, halts, ef, best, met, key(p)),
{
    assert forall|p: u32, i: int|
        #![trigger crossed.contains(p), row(p)[i]]
        crossed.contains(p) && 0 <= i < row(p).len() implies met.contains(row(p)[i]) || left_aside(
        key,
        halts,
        ef,
        best,
        met,
        key(p),
    ) by {
        if !done.contains(p) {
            let j = choose|j: int| 0 <= j < front.len() && front[j] == (key(p), p);
            assert(front[0].rank() <= front[j].rank());
            assert(met.contains(front[0].1));
        }
    }
}

/// Continuing from the first point keeps the others in sight.
proof fn pursuit_steps(
    key: spec_fn(u32) -> u64,
    front: Seq<Scored>,
    done: Set<u32>,
    crossed: Set<u32>,
)
    requires
        pursued(key, front, done, crossed),
        front.len() > 0,
    ensures
        pursued(key, front.skip(1), done.insert(front[0].1), crossed),
{
    let rest = front.skip(1);
    assert forall|p: u32| #[trigger] crossed.contains(p) implies done.insert(front[0].1).contains(p)
        || rest.contains((key(p), p)) by {
        if !done.contains(p) {
            let j = choose|j: int| 0 <= j < front.len() && front[j] == (key(p), p);
            if j > 0 {
                assert(rest[j - 1] == (key(p), p));
            }
        }
    }
}

/// Once the neighbours of one more point were met.
proof fn meeting_steps(
    row: spec_fn(u32) -> Seq<u32>,
    done: Set<u32>,
    met: Set<u32>,
    now: Set<u32>,
    at: u32,
)
    requires
        all_met(row, done, met),
        met.subset_of(now),
        forall|i: int| 0 <= i < row(at).len() ==> now.contains(#[trigger] row(at)[i]),
    ensures
        all_met(row, done.insert(at), now),
{
    let more = done.insert(at);
    assert forall|p: u32, i: int|
        #![trigger more.contains(p), row(p)[i]]
        more.contains(p) && 0 <= i < row(p).len() implies now.contains(row(p)[i]) by {
        if p != at {
            assert(done.contains(p));
            assert(met.contains(row(p)[i]));
        }
    }
}

proof fn crossing_explores(
    index: &PrismIndex,
    passing: Seq<bool>,
    passes: spec_fn(u32) -> bool,
    seen: Seq<bool>,
    front: Front,
    done: Set<u32>,
    crossed: Set<u32>,
    key: spec_fn(u32) -> u64,
    too_far: spec_fn(u32, u32) -> bool,
    promises: spec_fn(Bridge) -> bool,
    budget: int,
    eligible: int,
    entry: u32,
    ef: int,
    fuel: int,
) -> (found: (Set<u32>, Set<u32>))
    requires
        index.graph.wf(),
        index.graph.n == seen.len(),
        ef > 0,
        front.1.len() > 0,
        forall|p: u32| p < seen.len() ==> #[trigger] passes(p) == passes_cell(index, passing, p),
        under_way(passes, key, true, ef, front.0, marked(seen, 0), done, front.1),
        all_met(|p: u32| index.graph.row(p as int), done, marked(seen, 0)),
        bridged(
            index,
            passes,
            key,
            promises,
            budget,
            eligible,
            ef,
            marked(seen, 0),
            marked(seen, 0),
            crossed,
        ),
        pursued(key, front.0, done, crossed),
        crossed.len() == front.2,
        marked(seen, 0).contains(entry),
        fuel >= front.0.len() + unseen(seen),
    ensures
        ({
            let best = crossed_over(
                index,
                passing,
                seen,
                front,
                key,
                too_far,
                promises,
                budget,
                eligible,
                ef,
                fuel,
            );
            let rows = |p: u32| index.graph.row(p as int);
            let halts = |d: u64, worst: u64|
                too_far(pattern_of(d as u32), pattern_of(worst as u32));
            &&& explored(rows, passes, key, halts, entry, ef, best, found.0)
            &&& bridged(
                index,
                passes,
                key,
                promises,
                budget,
                eligible,
                ef,
                found.0,
                found.0,
                found.1,
            )
            &&& forall|p: u32, i: int|
                #![trigger found.1.contains(p), rows(p)[i]]
                found.1.contains(p) && 0 <= i < rows(p).len() ==> found.0.contains(rows(p)[i])
                    || left_aside(key, halts, ef, best, found.0, key(p))
        }),
    decreases fuel,
{
    let rows = |p: u32| index.graph.row(p as int);
    let halts = |d: u64, worst: u64| too_far(pattern_of(d as u32), pattern_of(worst as u32));
    let (points, best, count) = front;
    let met = marked(seen, 0);
    if fuel <= 0 || points.len() == 0 || (best.len() >= ef && best.len() > 0 && too_far(
        pattern_of(points[0].0 as u32),
        pattern_of(best.last().0 as u32),
    )) {
        walk_ends(rows, passes, key, halts, true, entry, ef, points, met, done, best);
        pursuit_ends(rows, passes, key, halts, ef, points, met, done, best, crossed);
        (met, crossed)
    } else {
        let at = points[0].1;
        assert(met.contains(at));
        let row = index.graph.row(at as int);
        index.graph.row_within(at as int);
        let (fresh, now) = discovered(row, seen, row.len() as int);
        discoveries_mark(row, seen, row.len() as int);
        walk_steps(passes, key, true, ef, points, met, done, best);
        let more = done.insert(at);
        let rest = (points.skip(1), best, count);
        let met_now = marked(now, 0);
        weighing_stays(
            index,
            passes,
            key,
            promises,
            budget,
            eligible,
            ef,
            met,
            met,
            met_now,
            crossed,
        );
        pursuit_steps(key, points, done, crossed);
        let further = advancing_keeps_way(
            index,
            passing,
            passes,
            now,
            met,
            rest,
            more,
            crossed,
            at,
            fresh,
            key,
            promises,
            budget,
            eligible,
            ef,
            fresh.len() as int,
        );
        assert(fresh.take(fresh.len() as int) =~= fresh);
        let next = advanced(
            index,
            passing,
            now,
            rest,
            fresh,
            key,
            promises,
            budget,
            eligible,
            ef,
            fresh.len() as int,
        );
        meeting_steps(rows, done, met, met_now, at);
        crossing_explores(
            index,
            passing,
            passes,
            now,
            next,
            more,
            further,
            key,
            too_far,
            promises,
            budget,
            eligible,
            entry,
            ef,
            fuel - 1,
        )
    }
}

/// Where a walk through the whole index starts.
pub open spec fn starts_at(
    index: &PrismIndex,
    key: spec_fn(u32) -> u64,
    indices: Seq<usize>,
    entry: u32,
) -> bool {
    if indices.len() == index.tree.cells@.len() {
        entry == index.global_medoid
    } else {
        exists|i: int|
            0 <= i < indices.len() && entry == index.medoids@[#[trigger] indices[i] as int]
                && forall|j: int|
                0 <= j < indices.len() ==> key(entry) <= key(
                    index.medoids@[#[trigger] indices[j] as int],
                )
    }
}

proof fn entry_is_nearest(index: &PrismIndex, key: spec_fn(u32) -> u64, indices: Seq<usize>)
    requires
        index.wf(),
        indices.len() > 0,
        indices.no_duplicates(),
        names_cells(indices, index.tree.cells@.len() as int),
    ensures
        starts_at(index, key, indices, crossing_entry(index, key, indices)),
        crossing_entry(index, key, indices) < index.store.len,
        indices.contains(
            index.point_cell@[crossing_entry(index, key, indices) as int] as usize,
        ),
{
    let cells = index.tree.cells@;
    let entry = crossing_entry(index, key, indices);
    layout_is_catalog(
        &index.store,
        &index.tree,
        index.medoids@,
        index.global_medoid,
        index.point_cell@,
        index.original_ids@,
        &index.config,
    );
    if indices.len() == cells.len() {
        assert(point_placed(cells, index.point_cell@, index.global_medoid as int));
        crate::crossing::all_named(
            indices,
            cells.len() as int,
            index.point_cell@[index.global_medoid as int] as usize,
        );
    } else {
        let distance = |i: int| key(index.medoids@[indices[i] as int]) as int;
        let top = 0x1_0000_0000_0000_0000int;
        let at = crate::kmeans::closest(distance, top, indices.len() as int).0;
        crate::kmeans::closest_is_first(distance, top, indices.len() as int);
        assert(distance(0) < top);
        assert(entry == index.medoids@[indices[at] as int]);
        assert forall|j: int| 0 <= j < indices.len() implies key(entry) <= key(
            index.medoids@[#[trigger] indices[j] as int],
        ) by {
            assert(distance(at) <= distance(j));
        }
        let c = indices[at] as int;
        assert(c < cells.len());
        cell_facts(index, c);
        assert(cells[c].point_ids@.contains(entry));
        assert(index.point_cell@[entry as int] == c);
        assert(indices.contains(indices[at]));
    }
}

/// What a walk through the whole index keeps cannot be bettered by a step.
///
/// It starts in the middle of the index, or at the nearest entry of a cell that
/// passes.  It ends with a point left to continue from only where `ef` points
/// are kept and the nearest such point is too far beyond the worst of them.
/// Points that do not pass are crossed while the budget lasts, each because it
/// promised to lead on; one that promised nothing is not.
pub proof fn crossing_walks_explore(
    index: &PrismIndex,
    key: spec_fn(u32) -> u64,
    too_far: spec_fn(u32, u32) -> bool,
    promises: spec_fn(Bridge) -> bool,
    budget: int,
    indices: Seq<usize>,
    ef: int,
) -> (found: (u32, Set<u32>, Set<u32>))
    requires
        index.wf(),
        indices.len() > 0,
        indices.no_duplicates(),
        names_cells(indices, index.tree.cells@.len() as int),
        ef > 0,
        budget >= 0,
    ensures
        ({
            let best = crossing_found(index, key, too_far, promises, budget, indices, ef);
            let passes = |p: u32|
                p < index.store.len && indices.contains(index.point_cell@[p as int] as usize);
            let rows = |p: u32| index.graph.row(p as int);
            let halts = |d: u64, worst: u64|
                too_far(pattern_of(d as u32), pattern_of(worst as u32));
            let eligible = gathered(index.tree.cells@, indices).len() as int;
            let (entry, met, crossed) = found;
            &&& starts_at(index, key, indices, entry)
            &&& explored(rows, passes, key, halts, entry, ef, best, met)
            &&& bridged(index, passes, key, promises, budget, eligible, ef, met, met, crossed)
            &&& forall|p: u32, i: int|
                #![trigger crossed.contains(p), rows(p)[i]]
                crossed.contains(p) && 0 <= i < rows(p).len() ==> met.contains(rows(p)[i])
                    || left_aside(key, halts, ef, best, met, key(p))
        }),
{
    let n = index.store.len as int;
    let passing = passing_flags(indices, index.tree.cells@.len() as int);
    let passes = |p: u32|
        p < index.store.len && indices.contains(index.point_cell@[p as int] as usize);
    let eligible = gathered(index.tree.cells@, indices).len() as int;
    let entry = crossing_entry(index, key, indices);
    entry_is_nearest(index, key, indices);
    let start: Seq<Scored> = seq![(key(entry), entry)];
    let seen = Seq::new(n as nat, |i: int| i == entry);
    assert(seen =~= Seq::new(n as nat, |i: int| i == entry - 0));
    first_mark(n, 0, entry);
    walk_begins(passes, key, true, ef, entry);
    assert forall|p: u32| p < seen.len() implies #[trigger] passes(p) == passes_cell(index, passing, p) by {
        assert(point_placed(index.tree.cells@, index.point_cell@, p as int));
    }
    let none = Set::<u32>::empty();
    assert(bridged(
        index,
        passes,
        key,
        promises,
        budget,
        eligible,
        ef,
        marked(seen, 0),
        marked(seen, 0),
        none,
    ));
    let (met, crossed) = crossing_explores(
        index,
        passing,
        passes,
        seen,
        (start, start, 0),
        none,
        none,
        key,
        too_far,
        promises,
        budget,
        eligible,
        entry,
        ef,
        n,
    );
    (entry, met, crossed)
}

} // verus!
