//! Best-first walks through a graph.

use vstd::prelude::*;
use crate::distance::ord_key;
use crate::graph::Graph;
use crate::order::{insert_sorted, place, place_keeps_order, sorted, Ranked};
use crate::pure::{codes_value, compares_codes};
use crate::quantize::SQ8Store;
use crate::select::{keep, kept, offered, Scored};
use crate::single::order_of;

verus! {

/// A walk: the points to continue from by distance, which points were seen,
/// and the best points so far.
pub type Walk = (Seq<Scored>, Seq<bool>, Seq<Scored>);

/// The walk after the first `upto` neighbours were looked at: those not seen
/// before are added to the points to continue from, and kept if they are among
/// the best `beam`.
pub open spec fn looked_at(
    walk: Walk,
    neighbors: Seq<u32>,
    key: spec_fn(u32) -> u64,
    beam: int,
    upto: int,
) -> Walk
    decreases upto,
{
    if upto <= 0 {
        walk
    } else {
        let (frontier, seen, best) = looked_at(walk, neighbors, key, beam, upto - 1);
        let w = neighbors[upto - 1];
        if seen[w as int] {
            (frontier, seen, best)
        } else {
            (
                place(frontier, (key(w), w)),
                seen.update(w as int, true),
                kept(best, (key(w), w), beam),
            )
        }
    }
}

/// The best points of a walk that continues from the nearest point until that
/// is farther away than `beam` others, at most `fuel` times.
pub open spec fn walked(
    graph: &Graph,
    walk: Walk,
    key: spec_fn(u32) -> u64,
    beam: int,
    fuel: int,
) -> Seq<Scored>
    decreases fuel,
{
    let (frontier, seen, best) = walk;
    if fuel <= 0 || frontier.len() == 0 || (best.len() >= beam && frontier[0].0 > best.last().0) {
        best
    } else {
        let neighbors = graph.row(frontier[0].1 as int);
        walked(
            graph,
            looked_at(
                (frontier.skip(1), seen, best),
                neighbors,
                key,
                beam,
                neighbors.len() as int,
            ),
            key,
            beam,
            fuel - 1,
        )
    }
}

/// The walk that begins at `entry`.
pub open spec fn entered(n: int, entry: u32, key: spec_fn(u32) -> u64) -> Walk {
    (
        seq![(key(entry), entry)],
        Seq::new(n as nat, |i: int| i == entry),
        seq![(key(entry), entry)],
    )
}

/// Distance key of two quantized points.
pub open spec fn code_key<Q: Fn(&[u8], &[u8], &[u32]) -> u32>(
    sq8: &SQ8Store,
    compare: Q,
    a: u32,
    b: u32,
) -> u64 {
    order_of(codes_value(compare, sq8.code_of(a as int), sq8.code_of(b as int), sq8.scales@)) as u64
}

/// The points that a walk for `query` from `entry` finds.
pub open spec fn beam_found<Q: Fn(&[u8], &[u8], &[u32]) -> u32>(
    sq8: &SQ8Store,
    compare: Q,
    graph: &Graph,
    query: u32,
    entry: u32,
    beam: int,
) -> Seq<Scored> {
    let key = |w: u32| code_key(sq8, compare, query, w);
    walked(graph, entered(graph.n as int, entry, key), key, beam, graph.n as int)
}

/// Distance key of two quantized points.
pub fn compare_codes<Q: Fn(&[u8], &[u8], &[u32]) -> u32>(sq8: &SQ8Store, compare: &Q, a: u32, b: u32) -> (key:
    u64)
    requires
        sq8.wf(),
        a < sq8.count(),
        b < sq8.count(),
        compares_codes(*compare, sq8.dim as int),
    ensures
        key == code_key(sq8, *compare, a, b),
{
    ord_key(compare(sq8.code_unchecked(a), sq8.code_unchecked(b), sq8.scales())) as u64
}

/// Number of points not seen yet.
pub open spec fn unseen(seen: Seq<bool>) -> nat
    decreases seen.len(),
{
    if seen.len() == 0 {
        0
    } else {
        unseen(seen.drop_last()) + (if seen.last() {
            0nat
        } else {
            1nat
        })
    }
}

/// Marking an unseen node leaves one fewer.
pub proof fn one_fewer_unseen(seen: Seq<bool>, i: int)
    requires
        0 <= i < seen.len(),
        !seen[i],
    ensures
        unseen(seen.update(i, true)) == unseen(seen) - 1,
    decreases seen.len(),
{
    let last = seen.len() - 1;
    let after = seen.update(i, true);
    if i == last {
        assert(after.drop_last() =~= seen.drop_last());
    } else {
        assert(after.drop_last() =~= seen.drop_last().update(i, true));
        one_fewer_unseen(seen.drop_last(), i);
    }
}

/// At the start every node is unseen.
pub proof fn all_unseen(seen: Seq<bool>)
    requires
        forall|i: int| 0 <= i < seen.len() ==> !#[trigger] seen[i],
    ensures
        unseen(seen) == seen.len(),
    decreases seen.len(),
{
    if seen.len() > 0 {
        all_unseen(seen.drop_last());
    }
}

/// Every listed identifier is below `n`.
pub open spec fn ids_below(list: Seq<Scored>, n: int) -> bool {
    forall|i: int| 0 <= i < list.len() ==> (#[trigger] list[i]).1 < n
}

/// Placing an entry keeps identifiers in range.
pub proof fn placed_ids(list: Seq<Scored>, entry: Scored, n: int)
    requires
        sorted(list),
        ids_below(list, n),
        entry.1 < n,
    ensures
        ids_below(place(list, entry), n),
{
    crate::order::slot_splits(list, entry);
}

/// `count` flags, none set.
pub fn clear_flags(count: usize) -> (flags: Vec<bool>)
    ensures
        flags@.len() == count,
        forall|i: int| 0 <= i < count ==> !#[trigger] flags@[i],
{
    let mut flags: Vec<bool> = Vec::new();
    while flags.len() < count
        invariant
            flags@.len() <= count,
            forall|i: int| 0 <= i < flags@.len() ==> !#[trigger] flags@[i],
        decreases count - flags@.len(),
    {
        flags.push(false);
    }
    flags
}

/// The points that a walk for `query` from `entry` finds, by distance.
pub fn beam_search_sq8<Q: Fn(&[u8], &[u8], &[u32]) -> u32>(
    sq8: &SQ8Store,
    compare: &Q,
    graph: &Graph,
    query: u32,
    entry: u32,
    beam: usize,
) -> (best: Vec<Scored>)
    requires
        sq8.wf(),
        graph.wf(),
        sq8.count() == graph.n,
        query < graph.n,
        entry < graph.n,
        beam > 0,
        compares_codes(*compare, sq8.dim as int),
    ensures
        best@ == beam_found(sq8, *compare, graph, query, entry, beam as int),
        sorted(best@),
        best@.len() <= beam,
        ids_below(best@, graph.n as int),
{
    let n: usize = graph.n;
    let ghost key = |w: u32| code_key(sq8, *compare, query, w);
    let mut seen = clear_flags(n);
    proof {
        all_unseen(seen@);
        one_fewer_unseen(seen@, entry as int);
    }
    seen.set(entry as usize, true);
    let start: Scored = (compare_codes(sq8, compare, query, entry), entry);
    let mut frontier: Vec<Scored> = Vec::new();
    frontier.push(start);
    let mut best: Vec<Scored> = Vec::new();
    best.push(start);
    let mut fuel: usize = n;
    let ghost goal = beam_found(sq8, *compare, graph, query, entry, beam as int);
    proof {
        let walk = entered(n as int, entry, key);
        assert(frontier@ =~= walk.0);
        assert(seen@ =~= walk.1);
        assert(best@ =~= walk.2);
    }
    loop
        invariant_except_break
            goal == walked(graph, (frontier@, seen@, best@), key, beam as int, fuel as int),
        invariant
            n == graph.n,
            sq8.wf(),
            graph.wf(),
            sq8.count() == n,
            query < n,
            beam > 0,
            compares_codes(*compare, sq8.dim as int),
            key == (|w: u32| code_key(sq8, *compare, query, w)),
            seen@.len() == n,
            sorted(frontier@),
            ids_below(frontier@, n as int),
            sorted(best@),
            best@.len() <= beam,
            ids_below(best@, n as int),
            fuel == frontier@.len() + unseen(seen@),
        ensures
            best@ == goal,
        decreases fuel,
    {
        if frontier.len() == 0 {
            break;
        }
        let (distance, point) = frontier[0];
        if best.len() >= beam && distance > best[best.len() - 1].0 {
            break;
        }
        let ghost before = frontier@;
        assert(before[0].1 < n);
        let _ = frontier.remove(0);
        assert(frontier@ =~= before.skip(1));
        proof {
            skip_keeps(before, n as int);
            graph.row_within(point as int);
        }
        let ghost walk: Walk = (frontier@, seen@, best@);
        let neighbors = graph.neighbors_unchecked(point);
        let mut j: usize = 0;
        while j < neighbors.len()
            invariant
                j <= neighbors@.len(),
                n == graph.n,
                sq8.wf(),
                sq8.count() == n,
                query < n,
                beam > 0,
                compares_codes(*compare, sq8.dim as int),
                key == (|w: u32| code_key(sq8, *compare, query, w)),
                forall|i: int| 0 <= i < neighbors@.len() ==> #[trigger] neighbors@[i] < n,
                seen@.len() == n,
                sorted(frontier@),
                ids_below(frontier@, n as int),
                sorted(best@),
                best@.len() <= beam,
                ids_below(best@, n as int),
                fuel == frontier@.len() + unseen(seen@) + 1,
                (frontier@, seen@, best@) == looked_at(walk, neighbors@, key, beam as int, j as int),
            decreases neighbors@.len() - j,
        {
            let w: u32 = neighbors[j];
            assert(neighbors@[j as int] < n);
            if !seen[w as usize] {
                let entry: Scored = (compare_codes(sq8, compare, query, w), w);
                proof {
                    one_fewer_unseen(seen@, w as int);
                    placed_ids(frontier@, entry, n as int);
                    kept_ids(best@, entry, beam as int, n as int);
                    place_keeps_order(frontier@, entry);
                }
                seen.set(w as usize, true);
                insert_sorted(&mut frontier, entry);
                keep(&mut best, entry, beam);
            }
            j = j + 1;
        }
        fuel = fuel - 1;
    }
    best
}

/// The rest of a list keeps identifiers in range.
pub proof fn skip_keeps(list: Seq<Scored>, n: int)
    requires
        sorted(list),
        ids_below(list, n),
        list.len() > 0,
    ensures
        sorted(list.skip(1)),
        ids_below(list.skip(1), n),
{
    assert forall|i: int, j: int| 0 <= i <= j < list.skip(1).len() implies list.skip(1)[i].rank()
        <= list.skip(1)[j].rank() by {
        assert(list[i + 1].rank() <= list[j + 1].rank());
    }
    assert forall|i: int| 0 <= i < list.skip(1).len() implies (#[trigger] list.skip(1)[i]).1 < n by {
        assert(list[i + 1].1 < n);
    }
}

/// Keeping an entry keeps identifiers in range.
pub proof fn kept_ids(list: Seq<Scored>, entry: Scored, cap: int, n: int)
    requires
        sorted(list),
        ids_below(list, n),
        entry.1 < n,
    ensures
        ids_below(kept(list, entry, cap), n),
{
    crate::order::slot_splits(list, entry);
    if list.len() > 0 {
        crate::select::take_is_sorted(list, list.len() - 1);
        assert(list.take(list.len() - 1) =~= list.drop_last());
        crate::order::slot_splits(list.drop_last(), entry);
    }
}

/// Every listed identifier is between `low` and `high`.
pub open spec fn ids_within(list: Seq<Scored>, low: int, high: int) -> bool {
    forall|i: int| 0 <= i < list.len() ==> low <= (#[trigger] list[i]).1 <= high
}

/// A slot lies within the list or at its end.
pub proof fn slot_in_range(list: Seq<Scored>, entry: Scored)
    ensures
        0 <= crate::order::slot(list, entry) <= list.len(),
    decreases list.len(),
{
    if list.len() > 0 {
        slot_in_range(list.drop_last(), entry);
    }
}

proof fn placed_within(list: Seq<Scored>, entry: Scored, low: int, high: int)
    requires
        ids_within(list, low, high),
        low <= entry.1 <= high,
    ensures
        ids_within(place(list, entry), low, high),
{
    slot_in_range(list, entry);
}

proof fn kept_within(list: Seq<Scored>, entry: Scored, cap: int, low: int, high: int)
    requires
        ids_within(list, low, high),
        low <= entry.1 <= high,
    ensures
        ids_within(kept(list, entry, cap), low, high),
{
    placed_within(list, entry, low, high);
    if list.len() > 0 {
        assert(ids_within(list.drop_last(), low, high));
        placed_within(list.drop_last(), entry, low, high);
    }
}

proof fn looked_at_within(
    walk: Walk,
    neighbors: Seq<u32>,
    key: spec_fn(u32) -> u64,
    beam: int,
    upto: int,
    low: int,
    high: int,
)
    requires
        upto <= neighbors.len(),
        ids_within(walk.0, low, high),
        ids_within(walk.2, low, high),
        forall|i: int| 0 <= i < neighbors.len() ==> low <= #[trigger] neighbors[i] <= high,
    ensures
        ids_within(looked_at(walk, neighbors, key, beam, upto).0, low, high),
        ids_within(looked_at(walk, neighbors, key, beam, upto).2, low, high),
    decreases upto,
{
    if upto > 0 {
        looked_at_within(walk, neighbors, key, beam, upto - 1, low, high);
        let (frontier, seen, best) = looked_at(walk, neighbors, key, beam, upto - 1);
        let w = neighbors[upto - 1];
        placed_within(frontier, (key(w), w), low, high);
        kept_within(best, (key(w), w), beam, low, high);
    }
}

proof fn walked_within(
    graph: &Graph,
    walk: Walk,
    key: spec_fn(u32) -> u64,
    beam: int,
    fuel: int,
    low: int,
    high: int,
)
    requires
        ids_within(walk.0, low, high),
        ids_within(walk.2, low, high),
        forall|a: int, b: u32| low <= a <= high && #[trigger] graph.edge(a, b) ==> low <= b <= high,
    ensures
        ids_within(walked(graph, walk, key, beam, fuel), low, high),
    decreases fuel,
{
    let (frontier, seen, best) = walk;
    if !(fuel <= 0 || frontier.len() == 0 || (best.len() >= beam && frontier[0].0 > best.last().0)) {
        let at = frontier[0].1 as int;
        let neighbors = graph.row(at);
        assert forall|i: int| 0 <= i < neighbors.len() implies low <= #[trigger] neighbors[i] <= high by {
            assert(graph.edge(at, neighbors[i]));
        }
        assert(ids_within(frontier.skip(1), low, high));
        looked_at_within(
            (frontier.skip(1), seen, best),
            neighbors,
            key,
            beam,
            neighbors.len() as int,
            low,
            high,
        );
        walked_within(
            graph,
            looked_at(
                (frontier.skip(1), seen, best),
                neighbors,
                key,
                beam,
                neighbors.len() as int,
            ),
            key,
            beam,
            fuel - 1,
            low,
            high,
        );
    }
}

/// A walk that begins between `low` and `high` finds only points between them,
/// where no edge leads out.
pub proof fn found_within<Q: Fn(&[u8], &[u8], &[u32]) -> u32>(
    sq8: &SQ8Store,
    compare: Q,
    graph: &Graph,
    query: u32,
    entry: u32,
    beam: int,
    low: int,
    high: int,
)
    requires
        low <= entry <= high,
        forall|a: int, b: u32| low <= a <= high && #[trigger] graph.edge(a, b) ==> low <= b <= high,
    ensures
        ids_within(beam_found(sq8, compare, graph, query, entry, beam), low, high),
{
    let key = |w: u32| code_key(sq8, compare, query, w);
    walked_within(
        graph,
        entered(graph.n as int, entry, key),
        key,
        beam,
        graph.n as int,
        low,
        high,
    );
}

/// Walks on graphs with the same rows below `n` go the same way.
proof fn walked_agrees(
    one: &Graph,
    two: &Graph,
    walk: Walk,
    key: spec_fn(u32) -> u64,
    beam: int,
    fuel: int,
    n: int,
)
    requires
        ids_within(walk.0, 0, n - 1),
        ids_within(walk.2, 0, n - 1),
        forall|a: int| 0 <= a < n ==> #[trigger] one.row(a) == two.row(a),
        forall|a: int, b: u32| 0 <= a < n && #[trigger] one.edge(a, b) ==> b < n,
    ensures
        walked(one, walk, key, beam, fuel) == walked(two, walk, key, beam, fuel),
    decreases fuel,
{
    let (frontier, seen, best) = walk;
    if !(fuel <= 0 || frontier.len() == 0 || (best.len() >= beam && frontier[0].0 > best.last().0)) {
        let at = frontier[0].1 as int;
        let neighbors = one.row(at);
        assert(neighbors == two.row(at));
        assert forall|i: int| 0 <= i < neighbors.len() implies 0 <= #[trigger] neighbors[i] <= n - 1 by {
            assert(one.edge(at, neighbors[i]));
        }
        assert(ids_within(frontier.skip(1), 0, n - 1));
        let rest = (frontier.skip(1), seen, best);
        looked_at_within(rest, neighbors, key, beam, neighbors.len() as int, 0, n - 1);
        walked_agrees(
            one,
            two,
            looked_at(rest, neighbors, key, beam, neighbors.len() as int),
            key,
            beam,
            fuel - 1,
            n,
        );
    }
}

/// Walks on graphs with the same rows find the same points.
pub proof fn found_agrees<Q: Fn(&[u8], &[u8], &[u32]) -> u32>(
    sq8: &SQ8Store,
    compare: Q,
    one: &Graph,
    two: &Graph,
    query: u32,
    entry: u32,
    beam: int,
)
    requires
        one.n == two.n,
        entry < one.n,
        forall|a: int| 0 <= a < one.n ==> #[trigger] one.row(a) == two.row(a),
        forall|a: int, b: u32| 0 <= a < one.n && #[trigger] one.edge(a, b) ==> b < one.n,
    ensures
        beam_found(sq8, compare, one, query, entry, beam) == beam_found(
            sq8,
            compare,
            two,
            query,
            entry,
            beam,
        ),
{
    let key = |w: u32| code_key(sq8, compare, query, w);
    let n = one.n as int;
    walked_agrees(one, two, entered(n, entry, key), key, beam, n, n);
}

/// No identifier is listed twice.
pub open spec fn ids_distinct(list: Seq<Scored>) -> bool {
    forall|i: int, j: int|
        0 <= i < j < list.len() ==> (#[trigger] list[i]).1 != (#[trigger] list[j]).1
}

/// Every listed identifier satisfies `good`.
pub open spec fn ids_are(list: Seq<Scored>, good: spec_fn(u32) -> bool) -> bool {
    forall|i: int| 0 <= i < list.len() ==> good((#[trigger] list[i]).1)
}

/// An entry for a good, new identifier keeps a list good and distinct.
pub proof fn placing_keeps(
    list: Seq<Scored>,
    entry: Scored,
    good: spec_fn(u32) -> bool,
)
    requires
        ids_are(list, good),
        good(entry.1),
    ensures
        ids_are(place(list, entry), good),
        place(list, entry).len() == list.len() + 1,
        ids_distinct(list) && (forall|i: int| 0 <= i < list.len() ==> (#[trigger] list[i]).1 != entry.1)
            ==> ids_distinct(place(list, entry)),
{
    slot_in_range(list, entry);
}

/// Offering an entry for a good, new identifier keeps a list good and
/// distinct.
pub proof fn offering_keeps(
    list: Seq<Scored>,
    entry: Scored,
    cap: int,
    good: spec_fn(u32) -> bool,
)
    requires
        ids_are(list, good),
        good(entry.1),
    ensures
        ids_are(offered(list, entry, cap), good),
        ids_distinct(list) && (forall|i: int| 0 <= i < list.len() ==> (#[trigger] list[i]).1 != entry.1)
            ==> ids_distinct(offered(list, entry, cap)),
{
    placing_keeps(list, entry, good);
    if list.len() > 0 {
        let few = list.drop_last();
        assert forall|i: int| 0 <= i < few.len() implies good((#[trigger] few[i]).1) by {
            assert(good(list[i].1));
        }
        placing_keeps(few, entry, good);
        if ids_distinct(list) && (forall|i: int|
            0 <= i < list.len() ==> (#[trigger] list[i]).1 != entry.1) {
            assert forall|i: int, j: int| 0 <= i < j < few.len() implies (#[trigger] few[i]).1 != (
            #[trigger] few[j]).1 by {
                assert(list[i].1 != list[j].1);
            }
            assert forall|i: int| 0 <= i < few.len() implies (#[trigger] few[i]).1 != entry.1 by {
                assert(list[i].1 != entry.1);
            }
        }
    }
}

} // verus!
