//! Which points of a graph can be reached from an entry.

use vstd::prelude::*;
use crate::error::{invalid_format, refused_format, PrismResult};
use crate::graph::Graph;
use crate::order::{ascending, ascending_is_sorted, lower_bound, sorted, Ranked};
use crate::partition::Cell;
use crate::walk::{clear_flags, one_fewer_unseen, unseen};

verus! {

/// Every list ascends and no point lists itself.
pub open spec fn is_canonical(graph: &Graph) -> bool {
    forall|i: int|
        0 <= i < graph.n ==> ascending(#[trigger] graph.row(i)) && !graph.row(i).contains(i as u32)
}

/// Point `i + 1` of the path is a neighbour of point `i`.
pub open spec fn steps(graph: &Graph, path: Seq<u32>, i: int) -> bool {
    graph.edge(path[i] as int, path[i + 1])
}

/// A path along edges that stays between `low` and `high`.
pub open spec fn is_path(graph: &Graph, low: int, high: int, path: Seq<u32>) -> bool {
    &&& path.len() > 0
    &&& forall|i: int| 0 <= i < path.len() ==> low <= #[trigger] path[i] <= high
    &&& forall|i: int| 0 <= i < path.len() - 1 ==> #[trigger] steps(graph, path, i)
}

/// A path leads from `a` to `b`.
pub open spec fn leads(graph: &Graph, low: int, high: int, a: u32, b: u32, path: Seq<u32>) -> bool {
    is_path(graph, low, high, path) && path[0] == a && path.last() == b
}

/// Some path between `low` and `high` leads from `a` to `b`.
pub open spec fn connected(graph: &Graph, low: int, high: int, a: u32, b: u32) -> bool {
    exists|path: Seq<u32>| #[trigger] leads(graph, low, high, a, b, path)
}

/// Every point between `low` and `high` is reached from `entry`.
pub open spec fn spans(graph: &Graph, low: int, high: int, entry: u32) -> bool {
    forall|b: u32| low <= b <= high ==> #[trigger] connected(graph, low, high, entry, b)
}

/// Every node reaches itself.
pub proof fn connected_to_itself(graph: &Graph, low: int, high: int, a: u32)
    requires
        low <= a <= high,
    ensures
        connected(graph, low, high, a, a),
{
    assert(leads(graph, low, high, a, a, seq![a]));
}

/// What is reached reaches its neighbours.
pub proof fn one_step_further(graph: &Graph, low: int, high: int, a: u32, b: u32, c: u32)
    requires
        connected(graph, low, high, a, b),
        low <= c <= high,
        graph.edge(b as int, c),
    ensures
        connected(graph, low, high, a, c),
{
    let path = choose|path: Seq<u32>| #[trigger] leads(graph, low, high, a, b, path);
    let longer = path.push(c);
    assert forall|i: int| 0 <= i < longer.len() - 1 implies #[trigger] steps(graph, longer, i) by {
        if i < path.len() - 1 {
            assert(steps(graph, path, i));
        }
    }
    assert(leads(graph, low, high, a, c, longer));
}

/// Reaching is transitive.
pub proof fn connected_through(graph: &Graph, low: int, high: int, a: u32, b: u32, c: u32)
    requires
        connected(graph, low, high, a, b),
        connected(graph, low, high, b, c),
    ensures
        connected(graph, low, high, a, c),
{
    let path = choose|path: Seq<u32>| #[trigger] leads(graph, low, high, b, c, path);
    connected_along(graph, low, high, a, b, path);
}

proof fn connected_along(graph: &Graph, low: int, high: int, a: u32, b: u32, path: Seq<u32>)
    requires
        connected(graph, low, high, a, b),
        is_path(graph, low, high, path),
        path[0] == b,
    ensures
        connected(graph, low, high, a, path.last()),
    decreases path.len(),
{
    if path.len() > 1 {
        let shorter = path.drop_last();
        assert forall|i: int| 0 <= i < shorter.len() - 1 implies #[trigger] steps(graph, shorter, i) by {
            assert(steps(graph, path, i));
        }
        connected_along(graph, low, high, a, b, shorter);
        assert(steps(graph, path, path.len() - 2));
        one_step_further(graph, low, high, a, shorter.last(), path.last());
    }
}

/// A path within a range is one within a larger range, and in a graph with
/// more edges.
pub proof fn connected_in_more(
    graph: &Graph,
    low: int,
    high: int,
    more: &Graph,
    low2: int,
    high2: int,
    a: u32,
    b: u32,
)
    requires
        connected(graph, low, high, a, b),
        low2 <= low,
        high <= high2,
        forall|x: int, y: u32|
            low <= x <= high && low <= y <= high && #[trigger] graph.edge(x, y) ==> more.edge(x, y),
    ensures
        connected(more, low2, high2, a, b),
{
    let path = choose|path: Seq<u32>| #[trigger] leads(graph, low, high, a, b, path);
    assert forall|i: int| 0 <= i < path.len() - 1 implies #[trigger] steps(more, path, i) by {
        assert(steps(graph, path, i));
        assert(low <= path[i] <= high && low <= path[i + 1] <= high);
    }
    assert(leads(more, low2, high2, a, b, path));
}

/// Every point that is seen has been reached.
spec fn only_reached(graph: &Graph, low: int, high: int, entry: u32, seen: Seq<bool>) -> bool {
    forall|i: int|
        0 <= i < seen.len() && #[trigger] seen[i] ==> connected(graph, low, high, entry, (low + i) as u32)
}

/// The neighbours between `low` and `high` of point `x` are seen.
spec fn explored(graph: &Graph, low: int, high: int, seen: Seq<bool>, x: int) -> bool {
    forall|y: u32| low <= y <= high && #[trigger] graph.edge(x, y) ==> seen[y - low]
}

/// What is seen is explored or pending.
spec fn closed_but(graph: &Graph, low: int, high: int, seen: Seq<bool>, pending: Seq<u32>) -> bool {
    forall|i: int|
        0 <= i < seen.len() && #[trigger] seen[i] ==> explored(graph, low, high, seen, low + i)
            || pending.contains((low + i) as u32)
}

/// Where everything that is seen is explored, everything that can be reached is
/// seen.
proof fn closed_is_complete(
    graph: &Graph,
    low: int,
    high: int,
    entry: u32,
    seen: Seq<bool>,
    path: Seq<u32>,
)
    requires
        seen.len() == high - low + 1,
        low <= entry <= high,
        seen[entry - low],
        closed_but(graph, low, high, seen, Seq::empty()),
        is_path(graph, low, high, path),
        path[0] == entry,
    ensures
        seen[path.last() - low],
    decreases path.len(),
{
    if path.len() > 1 {
        let shorter = path.drop_last();
        assert forall|i: int| 0 <= i < shorter.len() - 1 implies #[trigger] steps(graph, shorter, i) by {
            assert(steps(graph, path, i));
        }
        closed_is_complete(graph, low, high, entry, seen, shorter);
        let x = shorter.last();
        assert(low <= path[path.len() - 2] <= high);
        assert(seen[x - low]);
        assert(steps(graph, path, path.len() - 2));
        assert(low <= path[path.len() - 1] <= high);
    } else {
        assert(path.last() == entry);
    }
}

/// The neighbours of a point between `first` and `last`.
pub fn in_cell_neighbors(graph: &Graph, point: u32, first: u32, last: u32) -> (list: &[u32])
    requires
        graph.wf(),
        point < graph.n,
        sorted(graph.row(point as int)),
        first <= last,
    ensures
        sorted(list@),
        forall|y: u32|
            #![trigger list@.contains(y)]
            list@.contains(y) <==> first <= y <= last && graph.edge(point as int, y),
        ascending(graph.row(point as int)) ==> ascending(list@),
{
    let all = graph.neighbors_unchecked(point);
    let start: usize = lower_bound(all, first);
    let end: usize = if last == u32::MAX { all.len() } else { lower_bound(all, last + 1) };
    proof {
        if end < start {
            assert(all@[end as int].rank() >= first.rank());
        }
    }
    let list = vstd::slice::slice_subrange(all, start, end);
    proof {
        assert forall|y: u32|
            #![trigger list@.contains(y)]
            list@.contains(y) <==> first <= y <= last && graph.edge(point as int, y) by {
            if list@.contains(y) {
                let w = choose|w: int| 0 <= w < list@.len() && list@[w] == y;
                assert(all@[start + w] == y);
            }
            if first <= y <= last && graph.edge(point as int, y) {
                let w = choose|w: int| 0 <= w < all@.len() && all@[w] == y;
                assert(all@[w].rank() == y.rank());
                assert(start <= w < end);
                assert(list@[w - start] == y);
            }
        }
        assert forall|i: int, j: int| 0 <= i <= j < list@.len() implies list@[i].rank() <= list@[j].rank() by {
            assert(all@[start + i].rank() <= all@[start + j].rank());
        }
        if ascending(graph.row(point as int)) {
            assert forall|i: int, j: int| 0 <= i < j < list@.len() implies list@[i].rank() < list@[j].rank() by {
                assert(all@[start + i].rank() < all@[start + j].rank());
            }
        }
    }
    list
}

/// Whether every point between `first` and `last` is reached from `entry`
/// without leaving that range.
pub fn reaches_all(graph: &Graph, entry: u32, first: u32, last: u32) -> (answer: bool)
    requires
        graph.wf(),
        first <= entry <= last < graph.n,
        forall|i: int| 0 <= i < graph.n ==> sorted(#[trigger] graph.row(i)),
    ensures
        answer == spans(graph, first as int, last as int, entry),
{
    let count: usize = (last - first) as usize + 1;
    let ghost low = first as int;
    let ghost high = last as int;
    let mut seen = clear_flags(count);
    seen.set((entry - first) as usize, true);
    let mut pending: Vec<u32> = Vec::new();
    pending.push(entry);
    proof {
        connected_to_itself(graph, low, high, entry);
        assert(pending@[0] == entry);
        assert(only_reached(graph, low, high, entry, seen@));
        assert(closed_but(graph, low, high, seen@, pending@)) by {
            assert forall|i: int| 0 <= i < seen@.len() && #[trigger] seen@[i] implies explored(
                graph,
                low,
                high,
                seen@,
                low + i,
            ) || pending@.contains((low + i) as u32) by {
                assert(pending@.contains(entry));
            }
        }
    }
    while pending.len() > 0
        invariant
            graph.wf(),
            forall|i: int| 0 <= i < graph.n ==> sorted(#[trigger] graph.row(i)),
            first <= entry <= last < graph.n,
            low == first,
            high == last,
            seen@.len() == high - low + 1,
            seen@[entry - low],
            forall|j: int| 0 <= j < pending@.len() ==> low <= #[trigger] pending@[j] <= high && seen@[pending@[j] - low],
            only_reached(graph, low, high, entry, seen@),
            closed_but(graph, low, high, seen@, pending@),
        decreases unseen(seen@), pending@.len(),
    {
        let ghost whole = pending@;
        let ghost seen0 = seen@;
        let point: u32 = match pending.pop() {
            Some(point) => point,
            None => entry,
        };
        assert(low <= whole[whole.len() - 1] <= high && seen@[whole[whole.len() - 1] - low]);
        let ghost rest = pending@;
        let list = in_cell_neighbors(graph, point, first, last);
        assert forall|j: int| 0 <= j < list@.len() implies low <= #[trigger] list@[j] <= high by {
            assert(list@.contains(list@[j]));
        }
        let mut i: usize = 0;
        while i < list.len()
            invariant
                i <= list@.len(),
                forall|j: int| 0 <= j < list@.len() ==> low <= #[trigger] list@[j] <= high,
                graph.wf(),
                first <= entry <= last < graph.n,
                first <= point <= last,
                low == first,
                high == last,
                seen@.len() == high - low + 1,
                seen@[entry - low],
                seen@[point - low],
                rest.len() + 1 == whole.len(),
                forall|j: int| 0 <= j < rest.len() ==> rest[j] == whole[j],
                whole[whole.len() - 1] == point,
                rest.len() <= pending@.len(),
                forall|j: int| 0 <= j < rest.len() ==> pending@[j] == rest[j],
                forall|j: int|
                    0 <= j < pending@.len() ==> low <= #[trigger] pending@[j] <= high && seen@[pending@[j]
                        - low],
                forall|y: u32|
                    #![trigger list@.contains(y)]
                    list@.contains(y) <==> first <= y <= last && graph.edge(point as int, y),
                forall|j: int| 0 <= j < seen@.len() && seen0[j] ==> #[trigger] seen@[j],
                forall|j: int|
                    0 <= j < seen@.len() && #[trigger] seen@[j] && !seen0[j] ==> pending@.contains(
                        (low + j) as u32,
                    ),
                forall|j: int| 0 <= j < i ==> seen@[#[trigger] list@[j] - low],
                seen0.len() == seen@.len(),
                only_reached(graph, low, high, entry, seen@),
                closed_but(graph, low, high, seen0, whole),
                unseen(seen@) <= unseen(seen0),
                unseen(seen@) == unseen(seen0) ==> pending@.len() == rest.len(),
            decreases list@.len() - i,
        {
            let next: u32 = list[i];
            assert(list@.contains(next));
            let at: usize = (next - first) as usize;
            if !seen[at] {
                let ghost prior = seen@;
                let ghost waiting = pending@;
                seen.set(at, true);
                pending.push(next);
                proof {
                    one_fewer_unseen(prior, at as int);
                    assert(connected(graph, low, high, entry, (low + (point - low)) as u32));
                    one_step_further(graph, low, high, entry, point, next);
                    assert(only_reached(graph, low, high, entry, seen@)) by {
                        assert forall|j: int| 0 <= j < seen@.len() && #[trigger] seen@[j] implies connected(
                            graph,
                            low,
                            high,
                            entry,
                            (low + j) as u32,
                        ) by {
                            if j != at {
                                assert(prior[j]);
                            }
                        }
                    }
                    assert forall|j: int| 0 <= j < seen@.len() && #[trigger] seen@[j] && !seen0[j] implies pending@.contains(
                        (low + j) as u32,
                    ) by {
                        if j == at {
                            assert(pending@[waiting.len() as int] == next);
                        } else {
                            assert(waiting.contains((low + j) as u32));
                            let w = choose|w: int| 0 <= w < waiting.len() && waiting[w] == (low + j) as u32;
                            assert(pending@[w] == (low + j) as u32);
                        }
                    }
                }
            }
            i = i + 1;
        }
        proof {
            assert(closed_but(graph, low, high, seen@, pending@)) by {
                assert forall|j: int| 0 <= j < seen@.len() && #[trigger] seen@[j] implies explored(
                    graph,
                    low,
                    high,
                    seen@,
                    low + j,
                ) || pending@.contains((low + j) as u32) by {
                    let x = (low + j) as u32;
                    if x == point {
                        assert forall|y: u32| low <= y <= high && #[trigger] graph.edge(low + j, y) implies seen@[y
                            - low] by {
                            assert(list@.contains(y));
                            let w = choose|w: int| 0 <= w < list@.len() && list@[w] == y;
                            assert(seen@[list@[w] - low]);
                        }
                    } else if seen0[j] {
                        if whole.contains(x) {
                            let w = choose|w: int| 0 <= w < whole.len() && whole[w] == x;
                            assert(pending@[w] == x);
                        } else {
                            assert(explored(graph, low, high, seen0, low + j));
                            assert forall|y: u32| low <= y <= high && #[trigger] graph.edge(low + j, y) implies seen@[y
                                - low] by {
                                assert(seen0[y - low]);
                            }
                        }
                    }
                }
            }
        }
    }
    proof {
        assert(pending@ =~= Seq::<u32>::empty());
    }
    let mut i: usize = 0;
    while i < count
        invariant
            i <= count,
            count == seen@.len(),
            low == first,
            high == last,
            count == high - low + 1,
            seen@[entry - low],
            first <= entry <= last,
            only_reached(graph, low, high, entry, seen@),
            closed_but(graph, low, high, seen@, Seq::empty()),
            forall|j: int| 0 <= j < i ==> #[trigger] seen@[j],
        decreases count - i,
    {
        if !seen[i] {
            proof {
                let b = (low + i) as u32;
                if connected(graph, low, high, entry, b) {
                    let path = choose|path: Seq<u32>| #[trigger] leads(graph, low, high, entry, b, path);
                    closed_is_complete(graph, low, high, entry, seen@, path);
                }
            }
            return false;
        }
        i = i + 1;
    }
    proof {
        assert forall|b: u32| low <= b <= high implies #[trigger] connected(graph, low, high, entry, b) by {
            assert(seen@[b - low]);
        }
    }
    true
}

/// Checks that every list ascends and no point lists itself.
pub fn validate_canonical_graph(graph: &Graph) -> (result: PrismResult<()>)
    requires
        graph.wf(),
    ensures
        result is Ok <==> is_canonical(graph),
        result is Err ==> refused_format(result),
{
    let mut point: usize = 0;
    while point < graph.n
        invariant
            point <= graph.n,
            graph.wf(),
            forall|i: int|
                0 <= i < point ==> ascending(#[trigger] graph.row(i)) && !graph.row(i).contains(i as u32),
        decreases graph.n - point,
    {
        let list = graph.neighbors_unchecked(point as u32);
        let mut i: usize = 0;
        while i < list.len()
            invariant
                i <= list@.len(),
                point < graph.n <= u32::MAX,
                list@ == graph.row(point as int),
                forall|a: int, b: int| 0 <= a < b < i ==> list@[a].rank() < list@[b].rank(),
                forall|a: int| 0 <= a < i ==> #[trigger] list@[a] != point,
            decreases list@.len() - i,
        {
            if list[i] == point as u32 {
                proof {
                    assert(graph.row(point as int).contains(list@[i as int]));
                }
                return Err(invalid_format("graph contains a self-edge"));
            }
            if i > 0 && list[i - 1] >= list[i] {
                proof {
                    let row = graph.row(point as int);
                    if ascending(row) {
                        assert(row[i - 1].rank() < row[i as int].rank());
                    }
                }
                return Err(invalid_format("graph neighbors must be strictly increasing"));
            }
            i = i + 1;
        }
        assert(!graph.row(point as int).contains(point as u32));
        point = point + 1;
    }
    Ok(())
}

/// Identifiers that follow each other without a gap.
pub open spec fn is_range(ids: Seq<u32>) -> bool {
    forall|i: int| 0 <= i < ids.len() ==> #[trigger] ids[i] == ids[0] + i
}

/// Every cell is one range of identifiers.
pub open spec fn cells_are_ranges(cells: Seq<Cell>) -> bool {
    forall|c: int| 0 <= c < cells.len() ==> is_range((#[trigger] cells[c]).point_ids@)
}

/// Every point of cell `c` is reached from the cell's entry within the cell.
pub open spec fn cell_spanned(graph: &Graph, cells: Seq<Cell>, medoids: Seq<u32>, c: int) -> bool {
    spans(
        graph,
        cells[c].point_ids@[0] as int,
        cells[c].point_ids@.last() as int,
        medoids[c],
    )
}

/// Checks that every cell is one range of identifiers and, if `required`, that
/// each of its points is reached from its entry within the cell.
pub fn validate_local_reachability(
    graph: &Graph,
    cells: &[Cell],
    medoids: &Vec<u32>,
    required: bool,
) -> (result: PrismResult<()>)
    requires
        graph.wf(),
        is_canonical(graph),
        medoids@.len() == cells@.len(),
        forall|c: int|
            0 <= c < cells@.len() ==> (#[trigger] cells@[c]).point_ids@.len() > 0
                && cells@[c].point_ids@.contains(medoids@[c]),
        forall|c: int, i: int|
            0 <= c < cells@.len() && 0 <= i < cells@[c].point_ids@.len() ==> #[trigger] cells@[c].point_ids@[i]
                < graph.n,
    ensures
        result is Ok <==> cells_are_ranges(cells@) && (required ==> forall|c: int|
            0 <= c < cells@.len() ==> #[trigger] cell_spanned(graph, cells@, medoids@, c)),
        result is Err ==> refused_format(result),
{
    let mut c: usize = 0;
    while c < cells.len()
        invariant
            c <= cells@.len(),
            forall|d: int| 0 <= d < c ==> is_range((#[trigger] cells@[d]).point_ids@),
        decreases cells@.len() - c,
    {
        if !check_range(&cells[c].point_ids) {
            assert(!is_range(cells@[c as int].point_ids@));
            return Err(invalid_format("partition cell point IDs must form one contiguous range"));
        }
        c = c + 1;
    }
    if !required {
        return Ok(());
    }
    proof {
        assert forall|i: int| 0 <= i < graph.n implies sorted(#[trigger] graph.row(i)) by {
            ascending_is_sorted(graph.row(i));
        }
    }
    let mut c: usize = 0;
    while c < cells.len()
        invariant
            c <= cells@.len(),
            required,
            graph.wf(),
            forall|i: int| 0 <= i < graph.n ==> sorted(#[trigger] graph.row(i)),
            medoids@.len() == cells@.len(),
            cells_are_ranges(cells@),
            forall|d: int|
                0 <= d < cells@.len() ==> (#[trigger] cells@[d]).point_ids@.len() > 0
                    && cells@[d].point_ids@.contains(medoids@[d]),
            forall|d: int, i: int|
                0 <= d < cells@.len() && 0 <= i < cells@[d].point_ids@.len()
                    ==> #[trigger] cells@[d].point_ids@[i] < graph.n,
            forall|d: int| 0 <= d < c ==> #[trigger] cell_spanned(graph, cells@, medoids@, d),
        decreases cells@.len() - c,
    {
        let ids = &cells[c].point_ids;
        assert(cells@[c as int].point_ids@.len() > 0 && is_range(cells@[c as int].point_ids@));
        let first: u32 = ids[0];
        let last: u32 = ids[ids.len() - 1];
        let entry: u32 = medoids[c];
        proof {
            let w = choose|w: int| 0 <= w < ids@.len() && ids@[w] == entry;
            assert(ids@[w] == ids@[0] + w);
            assert(ids@[ids@.len() - 1] == ids@[0] + (ids@.len() - 1));
            assert(cells@[c as int].point_ids@[ids@.len() - 1] < graph.n);
        }
        if !reaches_all(graph, entry, first, last) {
            assert(!cell_spanned(graph, cells@, medoids@, c as int));
            return Err(invalid_format("local graph reaches too few points of a cell"));
        }
        c = c + 1;
    }
    Ok(())
}

/// Whether identifiers follow each other without a gap.
fn check_range(ids: &Vec<u32>) -> (answer: bool)
    ensures
        answer == is_range(ids@),
{
    let mut i: usize = 1;
    while i < ids.len()
        invariant
            1 <= i,
            ids@.len() > 0 ==> i <= ids@.len(),
            forall|j: int| 0 <= j < i && j < ids@.len() ==> #[trigger] ids@[j] == ids@[0] + j,
        decreases ids@.len() - i,
    {
        if ids[i - 1] == u32::MAX || ids[i] != ids[i - 1] + 1 {
            proof {
                if is_range(ids@) {
                    assert(ids@[i - 1] == ids@[0] + (i - 1));
                    assert(ids@[i as int] == ids@[0] + i);
                }
            }
            return false;
        }
        i = i + 1;
    }
    true
}

/// No edge leads to another cell.
pub open spec fn stays_in_cells(graph: &Graph, point_cell: Seq<u32>) -> bool {
    forall|a: int, b: u32|
        0 <= a < graph.n && #[trigger] graph.edge(a, b) ==> point_cell[b as int] == point_cell[a]
}

/// Checks that no edge leads to another cell.
pub fn validate_no_cross_cell_edges(graph: &Graph, point_cell: &Vec<u32>) -> (result: PrismResult<()>)
    requires
        graph.wf(),
        point_cell@.len() == graph.n,
    ensures
        result is Ok <==> stays_in_cells(graph, point_cell@),
        result is Err ==> refused_format(result),
{
    let mut point: usize = 0;
    while point < graph.n
        invariant
            point <= graph.n,
            graph.wf(),
            point_cell@.len() == graph.n,
            forall|a: int, b: u32|
                0 <= a < point && #[trigger] graph.edge(a, b) ==> point_cell@[b as int] == point_cell@[a],
        decreases graph.n - point,
    {
        let list = graph.neighbors_unchecked(point as u32);
        proof {
            graph.row_within(point as int);
        }
        let mut i: usize = 0;
        while i < list.len()
            invariant
                i <= list@.len(),
                point < graph.n,
                point_cell@.len() == graph.n,
                list@ == graph.row(point as int),
                forall|j: int| 0 <= j < list@.len() ==> #[trigger] list@[j] < graph.n,
                forall|j: int|
                    0 <= j < i ==> point_cell@[#[trigger] list@[j] as int] == point_cell@[point as int],
            decreases list@.len() - i,
        {
            assert(list@[i as int] < graph.n);
            if point_cell[list[i] as usize] != point_cell[point] {
                proof {
                    assert(list@.contains(list@[i as int]));
                    assert(graph.edge(point as int, list@[i as int]));
                }
                return Err(invalid_format("local-only graph edge crosses partition cells"));
            }
            i = i + 1;
        }
        proof {
            assert forall|a: int, b: u32| 0 <= a < point + 1 && #[trigger] graph.edge(a, b) implies point_cell@[b as int]
                == point_cell@[a] by {
                if a == point {
                    let w = choose|w: int| 0 <= w < list@.len() && list@[w] == b;
                    assert(point_cell@[list@[w] as int] == point_cell@[point as int]);
                }
            }
        }
        point = point + 1;
    }
    Ok(())
}

/// Checks that every point is reached from `entry`.
pub fn validate_reachable(graph: &Graph, entry: u32) -> (result: PrismResult<()>)
    requires
        graph.wf(),
        is_canonical(graph),
        entry < graph.n,
    ensures
        result is Ok <==> spans(graph, 0, graph.n - 1, entry),
        result is Err ==> refused_format(result),
{
    proof {
        assert forall|i: int| 0 <= i < graph.n implies sorted(#[trigger] graph.row(i)) by {
            ascending_is_sorted(graph.row(i));
        }
    }
    if reaches_all(graph, entry, 0, (graph.n - 1) as u32) {
        Ok(())
    } else {
        Err(invalid_format("global graph reaches too few points"))
    }
}

} // verus!
