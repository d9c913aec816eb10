//! The edges of an index: within cells, between cells, at random, and between
//! the entries of the cells.

use vstd::prelude::*;
use crate::chance::{seeded, shuffle_round, shuffle_rounds, started};
use crate::config::{MAX_COVERING_SUBSETS, PrismConfig};
use crate::covering::{
    checked_covering_subset_count, covering_verdict, generate_t_subsets, is_subset, listed,
    subsets_fit, subsets_in_order,
};
use crate::cross::{
    cells_name_points, cross_neighbors, derive_build_seed, find_cross_neighbors, mixed,
    precompute_cross_cell_targets, target_count,
};
use crate::distance::Metric;
use crate::error::{ends, overflow, PrismResult, Verdict};
use crate::graph::{entry_count, AdjBuilder, Graph};
use crate::medoid::medoid_of;
use crate::partition::Cell;
use crate::point::PointStore;
use crate::pure::{compares_codes, gives_means, total3, total4, Measure};
use crate::quantize::SQ8Store;
use crate::reach::is_range;
use crate::vamana::{build_vamana_cell, list_fits, lists_bounded, lists_fit, vamana_lists};
use crate::vecstore::rows_of;
use crate::weave::{apart, covering, linked_twice};

verus! {

/// Mark of the choices within cells.
pub const LOCAL_STREAM: u64 = 0x4c4f_4341_4c00_0000;

/// Mark of the random edges.
pub const OVERLAY_STREAM: u64 = 0x4f56_4552_4c41_5900;

/// The list of `a` holds `b`.
pub open spec fn has_edge(adj: Seq<Vec<u32>>, a: int, b: u32) -> bool {
    adj[a]@.contains(b)
}

/// The lists hold one more edge.
pub open spec fn one_more(before: Seq<Vec<u32>>, after: Seq<Vec<u32>>, src: u32, dst: u32) -> bool {
    &&& after.len() == before.len()
    &&& entry_count(after) == entry_count(before) + 1
    &&& forall|a: int, b: u32|
        0 <= a < before.len() ==> (#[trigger] has_edge(after, a, b) <==> has_edge(before, a, b) || (a
            == src && b == dst))
}

proof fn entry_count_of_update(before: Seq<Vec<u32>>, after: Seq<Vec<u32>>, src: int)
    requires
        0 <= src < before.len(),
        after.len() == before.len(),
        after[src]@.len() == before[src]@.len() + 1,
        forall|i: int| 0 <= i < before.len() && i != src ==> #[trigger] after[i] == before[i],
    ensures
        entry_count(after) == entry_count(before) + 1,
    decreases before.len(),
{
    let last = before.len() - 1;
    if src == last {
        assert(after.drop_last() =~= before.drop_last());
    } else {
        let a = after.drop_last();
        let b = before.drop_last();
        assert(a[src] == after[src]);
        entry_count_of_update(b, a, src);
    }
}

proof fn edge_is_one_more(before: Seq<Vec<u32>>, after: Seq<Vec<u32>>, src: u32, dst: u32)
    requires
        src < before.len(),
        AdjBuilder::with_edge(before, src, dst, after),
    ensures
        one_more(before, after, src, dst),
{
    entry_count_of_update(before, after, src as int);
    assert forall|a: int, b: u32| 0 <= a < before.len() implies (#[trigger] has_edge(after, a, b) <==> has_edge(
        before,
        a,
        b,
    ) || (a == src && b == dst)) by {
        if a == src {
            let list = before[a]@;
            let longer = after[a]@;
            assert(longer[list.len() as int] == dst);
            if list.contains(b) {
                let w = choose|w: int| 0 <= w < list.len() && list[w] == b;
                assert(longer[w] == b);
            }
            if longer.contains(b) && b != dst {
                let w = choose|w: int| 0 <= w < longer.len() && longer[w] == b;
                assert(list[w] == b);
            }
        }
    }
}

/// Adds an edge between points that exist.
fn add_edge(adj: &mut AdjBuilder, src: u32, dst: u32)
    requires
        old(adj).wf(),
        src < old(adj).adj@.len(),
        dst < old(adj).adj@.len(),
    ensures
        final(adj).wf(),
        one_more(old(adj).adj@, final(adj).adj@, src, dst),
{
    let ghost before = adj.adj@;
    let _ = adj.add_edge(src, dst);
    proof {
        edge_is_one_more(before, adj.adj@, src, dst);
    }
}

/// Lists without entries hold none in all.
pub proof fn lists_without_edges(adj: Seq<Vec<u32>>)
    requires
        forall|i: int| 0 <= i < adj.len() ==> (#[trigger] adj[i])@.len() == 0,
    ensures
        entry_count(adj) == 0,
    decreases adj.len(),
{
    if adj.len() > 0 {
        lists_without_edges(adj.drop_last());
        assert(adj[adj.len() - 1]@.len() == 0);
    }
}

/// The cell links all of its points with each other.
pub open spec fn is_small(cells: Seq<Cell>, m_local: int, c: int) -> bool {
    cells[c].point_ids@.len() - 1 <= m_local
}

/// Both points belong to cell `c`.
pub open spec fn both_in(cells: Seq<Cell>, c: int, a: int, b: int) -> bool {
    let ids = cells[c].point_ids@;
    0 <= c < cells.len() && ids[0] <= a < ids[0] + ids.len() && ids[0] <= b < ids[0] + ids.len()
}

/// Within cell `c` there is an edge from `a` to `b`: to every other point of a
/// small cell; in a large cell to the points before and after, and along its
/// neighbour lists.
pub open spec fn linked_in(
    cells: Seq<Cell>,
    m_local: int,
    tables: Seq<Seq<Seq<u32>>>,
    c: int,
    a: int,
    b: int,
) -> bool {
    let first = cells[c].point_ids@[0];
    &&& both_in(cells, c, a, b)
    &&& if is_small(cells, m_local, c) {
        a != b
    } else {
        b == a + 1 || a == b + 1 || tables[c][a - first].contains((b - first) as u32)
    }
}

/// There is an edge within some cell from `a` to `b`.
pub open spec fn local_edge(
    cells: Seq<Cell>,
    m_local: int,
    tables: Seq<Seq<Seq<u32>>>,
    a: int,
    b: int,
) -> bool {
    exists|c: int| #[trigger] linked_in(cells, m_local, tables, c, a, b)
}

/// The neighbour lists of cell `c` come from two passes of search and pruning.
pub open spec fn table_fits<
    D: Fn(Metric, &[u32], &[u32]) -> u32,
    C: Fn(&[u32], usize) -> Vec<u32>,
    P: Fn(u32, u32, u32, u32) -> bool,
>(
    store: &PointStore,
    config: &PrismConfig,
    measure: Measure<D>,
    centroid: C,
    covers: P,
    cells: Seq<Cell>,
    table: Seq<Seq<u32>>,
    c: int,
) -> bool {
    let n = cells[c].point_ids@.len() as int;
    let first = cells[c].point_ids@[0] as int;
    !is_small(cells, config.m_local as int, c) ==> {
        &&& lists_fit(table, n)
        &&& lists_bounded(table, config.m_local as int)
        &&& table == vamana_lists(
            store,
            first,
            n,
            measure,
            covers,
            config.vamana_alpha,
            config.m_local as int,
            if config.beam_width < n {
                config.beam_width as int
            } else {
                n
            },
            medoid_of(store, first, n, measure, centroid) as u32,
            started(mixed(config.build_seed, LOCAL_STREAM ^ (c as u64))),
        )
        &&& linked_twice(
            apart(store, first, measure),
            covering(measure.metric, covers, 0x3f80_0000),
            covering(measure.metric, covers, config.vamana_alpha),
            config.m_local as int,
            if config.beam_width < n {
                config.beam_width as int
            } else {
                n
            },
            medoid_of(store, first, n, measure, centroid) as u32,
            table,
        )
    }
}

/// Cells that hold the points from zero on, each one range and none empty.
pub open spec fn cells_cover(cells: Seq<Cell>, n: int) -> bool {
    &&& forall|c: int|
        0 <= c < cells.len() ==> (#[trigger] cells[c]).point_ids@.len() > 0 && is_range(
            cells[c].point_ids@,
        )
    &&& cells_name_points(cells, n)
    &&& forall|c: int, d: int|
        0 <= c < d < cells.len() ==> (#[trigger] cells[c]).point_ids@[0] + cells[c].point_ids@.len() <= (
        #[trigger] cells[d]).point_ids@[0]
}

/// Adds the edges from one point of a cell.
fn link_point(
    cells: &Vec<Cell>,
    m_local: usize,
    table: &Vec<Vec<u32>>,
    Ghost(tables): Ghost<Seq<Seq<Seq<u32>>>>,
    c: usize,
    i: usize,
    adj: &mut AdjBuilder,
)
    requires
        old(adj).wf(),
        cells_cover(cells@, old(adj).adj@.len() as int),
        c < cells@.len(),
        i < cells@[c as int].point_ids@.len(),
        0 <= c < tables.len(),
        !is_small(cells@, m_local as int, c as int) ==> tables[c as int] == rows_of(table@) && lists_fit(
            rows_of(table@),
            cells@[c as int].point_ids@.len() as int,
        ) && lists_bounded(rows_of(table@), m_local as int),
    ensures
        final(adj).wf(),
        final(adj).adj@.len() == old(adj).adj@.len(),
        entry_count(final(adj).adj@) <= entry_count(old(adj).adj@) + m_local + 2,
        ({
            let from = cells@[c as int].point_ids@[0] + i;
            forall|a: int, b: u32|
                0 <= a < old(adj).adj@.len() ==> (#[trigger] has_edge(final(adj).adj@, a, b) <==> has_edge(
                    old(adj).adj@,
                    a,
                    b,
                ) || (a == from && linked_in(
                    cells@,
                    m_local as int,
                    tables,
                    c as int,
                    a,
                    b as int,
                )))
        }),
{
    let ids = &cells[c].point_ids;
    let size: usize = ids.len();
    let ghost n = adj.adj@.len() as int;
    proof {
        assert(cells@[c as int].point_ids@.len() > 0 && is_range(cells@[c as int].point_ids@));
        assert(cells@[c as int].point_ids@[i as int] < n);
        assert(cells@[c as int].point_ids@[size - 1] < n);
        assert(ids@[i as int] == ids@[0] + i);
        assert(ids@[size - 1] == ids@[0] + (size - 1));
    }
    let first: u32 = ids[0];
    let from: u32 = ids[i];
    let ghost before = adj.adj@;
    let ghost count = entry_count(before);
    if size - 1 <= m_local {
        let mut j: usize = 0;
        while j < size
            invariant
                j <= size,
                i < size,
                size == ids@.len(),
                c < cells@.len(),
                *ids == cells@[c as int].point_ids,
                first == ids@[0],
                from == first + i,
                first + size <= n,
                adj.wf(),
                adj.adj@.len() == n,
                before.len() == n,
                is_range(ids@),
                size - 1 <= m_local,
                count == entry_count(before),
                entry_count(adj.adj@) == count + (if i < j {
                    j - 1
                } else {
                    j as int
                }),
                forall|a: int, b: u32|
                    0 <= a < n ==> (#[trigger] has_edge(adj.adj@, a, b) <==> has_edge(before, a, b) || (a
                        == from && first <= b < first + j && b != from)),
            decreases size - j,
        {
            assert(ids@[j as int] == ids@[0] + j);
            if j != i {
                add_edge(adj, from, ids[j]);
            }
            j = j + 1;
        }
        assert(is_small(cells@, m_local as int, c as int));
    } else {
        let list = &table[i];
        proof {
            assert(!is_small(cells@, m_local as int, c as int));
            assert(rows_of(table@)[i as int] == list@);
            assert(list_fits(rows_of(table@)[i as int], size as int, i as int));
            assert(rows_of(table@)[i as int].len() <= m_local);
        }
        let mut j: usize = 0;
        while j < list.len()
            invariant
                j <= list@.len(),
                i < size,
                first + size <= n,
                from == first + i,
                list_fits(list@, size as int, i as int),
                adj.wf(),
                adj.adj@.len() == n,
                before.len() == n,
                count == entry_count(before),
                entry_count(adj.adj@) == count + j,
                forall|a: int, b: u32|
                    0 <= a < n ==> (#[trigger] has_edge(adj.adj@, a, b) <==> has_edge(before, a, b) || (a
                        == from && first <= b && list@.take(j as int).contains((b - first) as u32))),
            decreases list@.len() - j,
        {
            let to: u32 = list[j];
            assert(list@[j as int] < size);
            let ghost some = adj.adj@;
            add_edge(adj, from, first + to);
            proof {
                let few = list@.take(j as int);
                let more = list@.take(j + 1);
                assert(more =~= few.push(to));
                assert forall|a: int, b: u32| 0 <= a < n implies (#[trigger] has_edge(adj.adj@, a, b) <==> has_edge(
                    before,
                    a,
                    b,
                ) || (a == from && first <= b && more.contains((b - first) as u32))) by {
                    assert(has_edge(some, a, b) <==> has_edge(before, a, b) || (a == from && first <= b
                        && few.contains((b - first) as u32)));
                    assert(more[j as int] == to);
                    if first <= b {
                        let x = (b - first) as u32;
                        if few.contains(x) {
                            let w = choose|w: int| 0 <= w < few.len() && few[w] == x;
                            assert(more[w] == x);
                        }
                        if more.contains(x) && x != to {
                            let w = choose|w: int| 0 <= w < more.len() && more[w] == x;
                            assert(few[w] == x);
                        }
                    }
                }
            }
            j = j + 1;
        }
        assert(list@.take(list@.len() as int) =~= list@);
        if i > 0 {
            add_edge(adj, from, from - 1);
        }
        if i + 1 < size {
            add_edge(adj, from, from + 1);
        }
        proof {
            assert forall|a: int, b: u32| 0 <= a < n implies (#[trigger] has_edge(adj.adj@, a, b) <==> has_edge(
                before,
                a,
                b,
            ) || (a == from && linked_in(cells@, m_local as int, tables, c as int, a, b as int))) by {
                if a == from {
                    assert(tables[c as int][a - first] == list@);
                    if first <= b && list@.contains((b - first) as u32) {
                        let w = choose|w: int| 0 <= w < list@.len() && list@[w] == (b - first) as u32;
                        assert(list@[w] < size);
                    }
                }
            }
        }
    }
}

/// Adds the edges within all cells.
pub fn build_local_edges<
    D: Fn(Metric, &[u32], &[u32]) -> u32,
    C: Fn(&[u32], usize) -> Vec<u32>,
    P: Fn(u32, u32, u32, u32) -> bool,
>(
    store: &PointStore,
    cells: &Vec<Cell>,
    config: &PrismConfig,
    measure: &Measure<D>,
    centroid: &C,
    covers: &P,
    adj: &mut AdjBuilder,
) -> (tables: Ghost<Seq<Seq<Seq<u32>>>>)
    requires
        store.wf(),
        old(adj).wf(),
        old(adj).adj@.len() == store.len,
        forall|i: int| 0 <= i < old(adj).adj@.len() ==> (#[trigger] old(adj).adj@[i])@.len() == 0,
        cells_cover(cells@, store.len as int),
        config.beam_width > 0,
        measure.metric == config.metric,
        measure.fits(store.dim as int),
        gives_means(*centroid, store.dim),
        total4(*covers),
    ensures
        final(adj).wf(),
        final(adj).adj@.len() == store.len,
        tables@.len() == cells@.len(),
        forall|c: int|
            0 <= c < cells@.len() ==> table_fits(
                store,
                config,
                *measure,
                *centroid,
                *covers,
                cells@,
                #[trigger] tables@[c],
                c,
            ),
        forall|a: int, b: u32|
            0 <= a < store.len ==> (#[trigger] has_edge(final(adj).adj@, a, b) <==> local_edge(
                cells@,
                config.m_local as int,
                tables@,
                a,
                b as int,
            )),
        entry_count(final(adj).adj@) <= store.len * (config.m_local + 2),
{
    let ghost mut tables: Seq<Seq<Seq<u32>>> = Seq::new(
        cells@.len(),
        |c: int| Seq::<Seq<u32>>::empty(),
    );
    let ghost m = config.m_local as int;
    let ghost n = store.len as int;
    proof {
        lists_without_edges(adj.adj@);
        assert(0 <= n * (m + 2)) by (nonlinear_arith)
            requires
                n >= 0,
                m >= 0,
        ;
    }
    let mut c: usize = 0;
    let ghost mut done: int = 0;
    assert forall|a: int, b: u32| 0 <= a < n implies (#[trigger] has_edge(adj.adj@, a, b) <==> linked_before(
        cells@,
        m,
        tables,
        0,
        a,
        b as int,
    )) by {
        assert(adj.adj@[a]@.len() == 0);
    }
    while c < cells.len()
        invariant
            c <= cells@.len(),
            store.wf(),
            adj.wf(),
            n == store.len,
            m == config.m_local,
            adj.adj@.len() == n,
            cells_cover(cells@, n),
            config.beam_width > 0,
            measure.fits(store.dim as int),
            gives_means(*centroid, store.dim),
            total4(*covers),
            tables.len() == cells@.len(),
            0 <= done <= n,
            c < cells@.len() ==> done <= cells@[c as int].point_ids@[0],
            forall|d: int|
                0 <= d < c ==> table_fits(
                    store,
                    config,
                    *measure,
                    *centroid,
                    *covers,
                    cells@,
                    #[trigger] tables[d],
                    d,
                ),
            forall|a: int, b: u32|
                0 <= a < n ==> (#[trigger] has_edge(adj.adj@, a, b) <==> linked_before(
                    cells@,
                    m,
                    tables,
                    c as int,
                    a,
                    b as int,
                )),
            entry_count(adj.adj@) <= done * (m + 2),
        decreases cells@.len() - c,
    {
        let size: usize = cells[c].point_ids.len();
        proof {
            let ids = cells@[c as int].point_ids@;
            assert(ids.len() > 0 && is_range(ids));
            assert(cells@[c as int].point_ids@[size - 1] < n);
            assert(ids[size - 1] == ids[0] + (size - 1));
        }
        let first: u32 = cells[c].point_ids[0];
        let mut table: Vec<Vec<u32>> = Vec::new();
        let ghost before_tables = tables;
        if size - 1 > config.m_local {
            let seed: u64 = derive_build_seed(config.build_seed, LOCAL_STREAM ^ (c as u64));
            let mut rng = seeded(seed);
            table = build_vamana_cell(
                store,
                first,
                size,
                measure,
                centroid,
                covers,
                config.vamana_alpha,
                config.m_local,
                config.beam_width,
                &mut rng,
            );
        }
        proof {
            tables = tables.update(c as int, rows_of(table@));
            assert(table_fits(
                store,
                config,
                *measure,
                *centroid,
                *covers,
                cells@,
                tables[c as int],
                c as int,
            ));
        }
        let ghost start = adj.adj@;
        let mut i: usize = 0;
        proof {
            assert forall|a: int, b: u32| 0 <= a < n implies (#[trigger] has_edge(adj.adj@, a, b) <==> linked_before(
                cells@,
                m,
                tables,
                c as int,
                a,
                b as int,
            )) by {
                same_links_before(cells@, m, before_tables, tables, c as int, a, b as int);
            }
        }
        while i < size
            invariant
                i <= size,
                c < cells@.len(),
                size == cells@[c as int].point_ids@.len(),
                first == cells@[c as int].point_ids@[0],
                store.wf(),
                adj.wf(),
                n == store.len,
                m == config.m_local,
                adj.adj@.len() == n,
                cells_cover(cells@, n),
                tables.len() == cells@.len(),
                tables[c as int] == rows_of(table@),
                table_fits(
                    store,
                    config,
                    *measure,
                    *centroid,
                    *covers,
                    cells@,
                    tables[c as int],
                    c as int,
                ),
                forall|a: int, b: u32|
                    0 <= a < n ==> (#[trigger] has_edge(adj.adj@, a, b) <==> linked_before(
                        cells@,
                        m,
                        tables,
                        c as int,
                        a,
                        b as int,
                    ) || (a < first + i && linked_in(cells@, m, tables, c as int, a, b as int))),
                entry_count(adj.adj@) <= (done + i) * (m + 2),
            decreases size - i,
        {
            let ghost some = adj.adj@;
            link_point(cells, config.m_local, &table, Ghost(tables), c, i, adj);
            proof {
                assert((done + i + 1) * (m + 2) == (done + i) * (m + 2) + m + 2) by (nonlinear_arith);
                assert forall|a: int, b: u32| 0 <= a < n implies (#[trigger] has_edge(adj.adj@, a, b) <==> linked_before(
                    cells@,
                    m,
                    tables,
                    c as int,
                    a,
                    b as int,
                ) || (a < first + i + 1 && linked_in(cells@, m, tables, c as int, a, b as int))) by {
                    assert(has_edge(some, a, b) <==> linked_before(
                        cells@,
                        m,
                        tables,
                        c as int,
                        a,
                        b as int,
                    ) || (a < first + i && linked_in(cells@, m, tables, c as int, a, b as int)));
                }
            }
            i = i + 1;
        }
        proof {
            assert forall|a: int, b: u32| 0 <= a < n implies (#[trigger] has_edge(adj.adj@, a, b) <==> linked_before(
                cells@,
                m,
                tables,
                c + 1,
                a,
                b as int,
            )) by {
                one_more_cell(cells@, m, tables, c as int, a, b as int);
            }
            assert forall|d: int| 0 <= d < c + 1 implies table_fits(
                store,
                config,
                *measure,
                *centroid,
                *covers,
                cells@,
                #[trigger] tables[d],
                d,
            ) by {
                if d < c {
                    assert(tables[d] == before_tables[d]);
                }
            }
            assert((done + size) * (m + 2) <= (first + size) * (m + 2)) by (nonlinear_arith)
                requires
                    done <= first,
                    m >= 0,
            ;
            done = first + size;
            if c + 1 < cells@.len() {
                assert(cells@[c as int].point_ids@[0] + cells@[c as int].point_ids@.len()
                    <= cells@[c + 1].point_ids@[0]);
            }
        }
        c = c + 1;
    }
    proof {
        assert(done * (m + 2) <= n * (m + 2)) by (nonlinear_arith)
            requires
                done <= n,
                m >= 0,
        ;
        assert forall|a: int, b: u32| 0 <= a < n implies (#[trigger] has_edge(adj.adj@, a, b) <==> local_edge(
            cells@,
            m,
            tables,
            a,
            b as int,
        )) by {
            if local_edge(cells@, m, tables, a, b as int) {
                let d = choose|d: int| #[trigger] linked_in(cells@, m, tables, d, a, b as int);
                assert(linked_before(cells@, m, tables, cells@.len() as int, a, b as int));
            }
        }
    }
    Ghost(tables)
}

/// There is an edge within one of the first `upto` cells from `a` to `b`.
spec fn linked_before(
    cells: Seq<Cell>,
    m_local: int,
    tables: Seq<Seq<Seq<u32>>>,
    upto: int,
    a: int,
    b: int,
) -> bool {
    exists|c: int| 0 <= c < upto && #[trigger] linked_in(cells, m_local, tables, c, a, b)
}

proof fn same_links_before(
    cells: Seq<Cell>,
    m_local: int,
    tables: Seq<Seq<Seq<u32>>>,
    tables2: Seq<Seq<Seq<u32>>>,
    upto: int,
    a: int,
    b: int,
)
    requires
        forall|c: int| 0 <= c < upto ==> tables[c] == tables2[c],
    ensures
        linked_before(cells, m_local, tables, upto, a, b) == linked_before(
            cells,
            m_local,
            tables2,
            upto,
            a,
            b,
        ),
{
    if linked_before(cells, m_local, tables, upto, a, b) {
        let c = choose|c: int| 0 <= c < upto && #[trigger] linked_in(cells, m_local, tables, c, a, b);
        assert(linked_in(cells, m_local, tables2, c, a, b));
    }
    if linked_before(cells, m_local, tables2, upto, a, b) {
        let c = choose|c: int| 0 <= c < upto && #[trigger] linked_in(cells, m_local, tables2, c, a, b);
        assert(linked_in(cells, m_local, tables, c, a, b));
    }
}

proof fn one_more_cell(
    cells: Seq<Cell>,
    m_local: int,
    tables: Seq<Seq<Seq<u32>>>,
    upto: int,
    a: int,
    b: int,
)
    requires
        0 <= upto,
    ensures
        linked_before(cells, m_local, tables, upto + 1, a, b) <==> linked_before(
            cells,
            m_local,
            tables,
            upto,
            a,
            b,
        ) || linked_in(cells, m_local, tables, upto, a, b),
{
    if linked_before(cells, m_local, tables, upto + 1, a, b) {
        let c = choose|c: int|
            0 <= c < upto + 1 && #[trigger] linked_in(cells, m_local, tables, c, a, b);
        if c < upto {
            assert(linked_before(cells, m_local, tables, upto, a, b));
        }
    }
}

/// The cell of every point.
pub open spec fn cells_told(cells: Seq<Cell>, point_cell: Seq<u32>, n: int) -> bool {
    &&& point_cell.len() == n
    &&& forall|p: int|
        0 <= p < n ==> (#[trigger] point_cell[p]) < cells.len() && cells[point_cell[p] as int].point_ids@.contains(
            p as u32,
        )
}

/// How wide the search for neighbours in other cells is.
pub open spec fn cross_beam(config: &PrismConfig, n: int) -> int {
    if config.beam_width < n {
        config.beam_width as int
    } else {
        n
    }
}

/// Whether the tables for edges between cells fit into memory's numbering.
pub open spec fn cross_verdict(config: &PrismConfig, n: int, cell_count: int) -> Verdict {
    let beam = cross_beam(config, n);
    let targets = target_count(cell_count, config.m_greedy as int, beam);
    if cell_count * targets > usize::MAX || crate::cross::cell_share(beam, targets) * targets
        > usize::MAX {
        Verdict::Overflow
    } else {
        Verdict::Accepted
    }
}

/// Point `a` selects `b` in another cell.
pub open spec fn cross_edge<
    D: Fn(Metric, &[u32], &[u32]) -> u32,
    Q: Fn(&[u8], &[u8], &[u32]) -> u32,
    W: Fn(u32, usize, u32) -> u32,
>(
    store: &PointStore,
    measure: Measure<D>,
    sq8: &SQ8Store,
    compare: Q,
    score: W,
    local: &Graph,
    cells: Seq<Cell>,
    medoids: Seq<u32>,
    config: &PrismConfig,
    subsets: Seq<Vec<usize>>,
    point_cell: Seq<u32>,
    a: int,
    b: u32,
) -> bool {
    cross_neighbors(
        store,
        measure,
        sq8,
        compare,
        score,
        local,
        cells,
        medoids,
        config,
        subsets,
        cross_beam(config, store.len as int),
        point_cell[a] as int,
        a as u32,
    ).contains(b)
}

/// Adds the edges to the neighbours that points select in other cells.
fn link_to_other_cells<
    D: Fn(Metric, &[u32], &[u32]) -> u32,
    Q: Fn(&[u8], &[u8], &[u32]) -> u32,
    W: Fn(u32, usize, u32) -> u32,
>(
    store: &PointStore,
    measure: &Measure<D>,
    sq8: &SQ8Store,
    compare: &Q,
    score: &W,
    local: &Graph,
    cells: &Vec<Cell>,
    medoids: &Vec<u32>,
    config: &PrismConfig,
    subsets: &Vec<Vec<usize>>,
    point_cell: &Vec<u32>,
    adj: &mut AdjBuilder,
) -> (result: PrismResult<()>)
    requires
        store.wf(),
        sq8.wf(),
        local.wf(),
        old(adj).wf(),
        store.len == local.n,
        sq8.count() == local.n,
        old(adj).adj@.len() == local.n,
        medoids@.len() == cells@.len(),
        1 < medoids@.len() <= u32::MAX,
        forall|d: int| 0 <= d < medoids@.len() ==> #[trigger] medoids@[d] < local.n,
        cells_name_points(cells@, local.n as int),
        cells_told(cells@, point_cell@, local.n as int),
        config.beam_width > 0,
        subsets_fit(subsets@, store.attrs@.len() as int),
        subsets@.len() <= MAX_COVERING_SUBSETS,
        measure.fits(store.dim as int),
        compares_codes(*compare, sq8.dim as int),
        total3(*score),
    ensures
        ends(result, cross_verdict(config, store.len as int, cells@.len() as int)),
        final(adj).wf(),
        final(adj).adj@.len() == old(adj).adj@.len(),
        result is Ok ==> {
            &&& forall|a: int, b: u32|
                0 <= a < store.len ==> (#[trigger] has_edge(final(adj).adj@, a, b) <==> has_edge(
                    old(adj).adj@,
                    a,
                    b,
                ) || cross_edge(
                    store,
                    *measure,
                    sq8,
                    *compare,
                    *score,
                    local,
                    cells@,
                    medoids@,
                    config,
                    subsets@,
                    point_cell@,
                    a,
                    b,
                ))
            &&& entry_count(final(adj).adj@) <= entry_count(old(adj).adj@) + store.len
                * config.m_greedy
        },
{
    let n: usize = store.len;
    assert(cells_told(cells@, point_cell@, n as int));
    proof {
        if n == 0 {
            assert(medoids@[0] < local.n);
        }
    }
    let beam: usize = if config.beam_width < n { config.beam_width } else { n };
    let targets: usize = crate::cross::count_targets(medoids.len(), config.m_greedy, beam);
    proof {
        crate::cross::ranked_cells_are_foreign(config, medoids@.len() as int, beam as int, 0);
    }
    let table = match precompute_cross_cell_targets(medoids, sq8, compare, config, beam) {
        Ok(table) => table,
        Err(error) => {
            return Err(error);
        },
    };
    let share: usize = crate::cross::share_of(beam, targets);
    if share.checked_mul(targets).is_none() {
        return Err(overflow("cross-cell candidate capacity overflowed"));
    }
    let ghost before = adj.adj@;
    let ghost m = config.m_greedy as int;
    let mut p: usize = 0;
    while p < n
        invariant
            p <= n,
            n == store.len,
            store.wf(),
            sq8.wf(),
            local.wf(),
            adj.wf(),
            store.len == local.n,
            sq8.count() == local.n,
            adj.adj@.len() == n,
            before.len() == n,
            medoids@.len() == cells@.len(),
            1 < medoids@.len() <= u32::MAX,
            forall|d: int| 0 <= d < medoids@.len() ==> #[trigger] medoids@[d] < local.n,
            cells_name_points(cells@, local.n as int),
            cells_told(cells@, point_cell@, local.n as int),
            0 < beam <= n,
            beam == cross_beam(config, n as int),
            m == config.m_greedy,
            subsets_fit(subsets@, store.attrs@.len() as int),
        subsets@.len() <= MAX_COVERING_SUBSETS,
            measure.fits(store.dim as int),
            compares_codes(*compare, sq8.dim as int),
            total3(*score),
            table@.len() == medoids@.len(),
            forall|c: int|
                0 <= c < medoids@.len() ==> (#[trigger] table@[c])@ == crate::cross::targets_of(
                    sq8,
                    *compare,
                    medoids@,
                    config,
                    beam as int,
                    c,
                ),
            forall|a: int, b: u32|
                0 <= a < n ==> (#[trigger] has_edge(adj.adj@, a, b) <==> has_edge(before, a, b) || (a < p
                    && cross_edge(
                    store,
                    *measure,
                    sq8,
                    *compare,
                    *score,
                    local,
                    cells@,
                    medoids@,
                    config,
                    subsets@,
                    point_cell@,
                    a,
                    b,
                ))),
            entry_count(adj.adj@) <= entry_count(before) + p * m,
        decreases n - p,
    {
        assert(point_cell@[p as int] < cells@.len());
        let cell: usize = point_cell[p] as usize;
        let selected = find_cross_neighbors(
            store,
            measure,
            sq8,
            compare,
            score,
            local,
            cells,
            medoids,
            config,
            subsets,
            beam,
            &table[cell],
            cell,
            p as u32,
        );
        let ghost start = adj.adj@;
        let mut j: usize = 0;
        while j < selected.len()
            invariant
                j <= selected@.len(),
                p < n <= u32::MAX,
                adj.wf(),
                adj.adj@.len() == n,
                start.len() == n,
                forall|i: int| 0 <= i < selected@.len() ==> #[trigger] selected@[i] < n,
                forall|a: int, b: u32|
                    0 <= a < n ==> (#[trigger] has_edge(adj.adj@, a, b) <==> has_edge(start, a, b) || (a
                        == p && selected@.take(j as int).contains(b))),
                entry_count(adj.adj@) == entry_count(start) + j,
            decreases selected@.len() - j,
        {
            let to: u32 = selected[j];
            assert(selected@[j as int] < n);
            let ghost some = adj.adj@;
            add_edge(adj, p as u32, to);
            proof {
                let few = selected@.take(j as int);
                let more = selected@.take(j + 1);
                assert(more =~= few.push(to));
                assert forall|a: int, b: u32| 0 <= a < n implies (#[trigger] has_edge(adj.adj@, a, b) <==> has_edge(
                    start,
                    a,
                    b,
                ) || (a == p && more.contains(b))) by {
                    assert(has_edge(some, a, b) <==> has_edge(start, a, b) || (a == p && few.contains(b)));
                    assert(more[j as int] == to);
                    if few.contains(b) {
                        let w = choose|w: int| 0 <= w < few.len() && few[w] == b;
                        assert(more[w] == b);
                    }
                    if more.contains(b) && b != to {
                        let w = choose|w: int| 0 <= w < more.len() && more[w] == b;
                        assert(few[w] == b);
                    }
                }
            }
            j = j + 1;
        }
        proof {
            assert(selected@.take(selected@.len() as int) =~= selected@);
            assert((p + 1) * m == p * m + m) by (nonlinear_arith);
            assert forall|a: int, b: u32| 0 <= a < n implies (#[trigger] has_edge(adj.adj@, a, b) <==> has_edge(
                before,
                a,
                b,
            ) || (a < p + 1 && cross_edge(
                store,
                *measure,
                sq8,
                *compare,
                *score,
                local,
                cells@,
                medoids@,
                config,
                subsets@,
                point_cell@,
                a,
                b,
            ))) by {
                assert(has_edge(start, a, b) <==> has_edge(before, a, b) || (a < p && cross_edge(
                    store,
                    *measure,
                    sq8,
                    *compare,
                    *score,
                    local,
                    cells@,
                    medoids@,
                    config,
                    subsets@,
                    point_cell@,
                    a,
                    b,
                )));
            }
        }
        p = p + 1;
    }
    Ok(())
}

/// All subsets of `t` of `k` attributes, in order.
pub open spec fn covers_attributes(subsets: Seq<Vec<usize>>, k: int, t: int) -> bool {
    &&& subsets_in_order(subsets, k, t)
    &&& forall|s: Seq<usize>| is_subset(s, k, t) ==> #[trigger] listed(subsets, s)
}

/// How many attributes the covered projections have.
pub open spec fn strength_used(config: &PrismConfig, k: int) -> int {
    if config.t < k {
        config.t as int
    } else {
        k
    }
}

/// Whether the edges between cells can be made.
pub open spec fn greedy_verdict(config: &PrismConfig, n: int, k: int, cell_count: int) -> Verdict {
    if config.m_greedy == 0 || cell_count <= 1 {
        Verdict::Accepted
    } else if !(covering_verdict(k, strength_used(config, k)) is Accepted) {
        covering_verdict(k, strength_used(config, k))
    } else {
        cross_verdict(config, n, cell_count)
    }
}

/// The lists hold the edges to the neighbours that points select as well.
pub open spec fn cross_linked<
    D: Fn(Metric, &[u32], &[u32]) -> u32,
    Q: Fn(&[u8], &[u8], &[u32]) -> u32,
    W: Fn(u32, usize, u32) -> u32,
>(
    before: Seq<Vec<u32>>,
    after: Seq<Vec<u32>>,
    store: &PointStore,
    measure: Measure<D>,
    sq8: &SQ8Store,
    compare: Q,
    score: W,
    local: &Graph,
    cells: Seq<Cell>,
    medoids: Seq<u32>,
    config: &PrismConfig,
    subsets: Seq<Vec<usize>>,
    point_cell: Seq<u32>,
) -> bool {
    forall|a: int, b: u32|
        0 <= a < store.len ==> (#[trigger] has_edge(after, a, b) <==> has_edge(before, a, b)
            || cross_edge(
            store,
            measure,
            sq8,
            compare,
            score,
            local,
            cells,
            medoids,
            config,
            subsets,
            point_cell,
            a,
            b,
        ))
}

/// Adds the edges to the neighbours that points select in other cells, where
/// there are any.
pub fn build_greedy_cross_edges<
    D: Fn(Metric, &[u32], &[u32]) -> u32,
    Q: Fn(&[u8], &[u8], &[u32]) -> u32,
    W: Fn(u32, usize, u32) -> u32,
>(
    store: &PointStore,
    measure: &Measure<D>,
    sq8: &SQ8Store,
    compare: &Q,
    score: &W,
    local: &Graph,
    cells: &Vec<Cell>,
    medoids: &Vec<u32>,
    config: &PrismConfig,
    point_cell: &Vec<u32>,
    adj: &mut AdjBuilder,
) -> (result: PrismResult<()>)
    requires
        store.wf(),
        sq8.wf(),
        local.wf(),
        old(adj).wf(),
        store.len == local.n,
        sq8.count() == local.n,
        old(adj).adj@.len() == local.n,
        medoids@.len() == cells@.len(),
        medoids@.len() <= u32::MAX,
        forall|d: int| 0 <= d < medoids@.len() ==> #[trigger] medoids@[d] < local.n,
        cells_name_points(cells@, local.n as int),
        cells_told(cells@, point_cell@, local.n as int),
        config.beam_width > 0,
        measure.metric == config.metric,
        measure.fits(store.dim as int),
        compares_codes(*compare, sq8.dim as int),
        total3(*score),
    ensures
        ends(
            result,
            greedy_verdict(config, store.len as int, store.arity(), cells@.len() as int),
        ),
        final(adj).wf(),
        final(adj).adj@.len() == old(adj).adj@.len(),
        config.m_greedy == 0 || cells@.len() <= 1 ==> final(adj).adj@ == old(adj).adj@,
        result is Ok && config.m_greedy > 0 && cells@.len() > 1 ==> {
            &&& exists|subsets: Seq<Vec<usize>>|
                covers_attributes(subsets, store.arity(), strength_used(config, store.arity()))
                    && #[trigger] cross_linked(
                    old(adj).adj@,
                    final(adj).adj@,
                    store,
                    *measure,
                    sq8,
                    *compare,
                    *score,
                    local,
                    cells@,
                    medoids@,
                    config,
                    subsets,
                    point_cell@,
                )
            &&& entry_count(final(adj).adj@) <= entry_count(old(adj).adj@) + store.len
                * config.m_greedy
        },
{
    if config.m_greedy == 0 || cells.len() <= 1 {
        return Ok(());
    }
    let k: usize = store.k();
    let t: usize = if config.t < k { config.t } else { k };
    match checked_covering_subset_count(k, t) {
        Ok(_) => {},
        Err(error) => {
            return Err(error);
        },
    }
    let subsets = generate_t_subsets(k, t);
    assert(covers_attributes(subsets@, k as int, t as int));
    let ghost before = adj.adj@;
    let result = link_to_other_cells(
        store,
        measure,
        sq8,
        compare,
        score,
        local,
        cells,
        medoids,
        config,
        &subsets,
        point_cell,
        adj,
    );
    proof {
        if result is Ok {
            assert(cross_linked(
                before,
                adj.adj@,
                store,
                *measure,
                sq8,
                *compare,
                *score,
                local,
                cells@,
                medoids@,
                config,
                subsets@,
                point_cell@,
            ));
        }
    }
    result
}

/// How many rounds of random edges there are.
pub open spec fn overlay_rounds(m_random: int, n: int) -> int {
    if n <= 1 {
        0
    } else if m_random / 2 < n - 1 {
        m_random / 2
    } else {
        n - 1
    }
}

/// Round `r` links `a` and `b`: it maps one of them to the other.
pub open spec fn round_links(seed: u64, n: int, r: int, a: int, b: int) -> bool {
    let order = shuffle_round(mixed(seed, OVERLAY_STREAM), n as u32, r as nat);
    a != b && (order[a] == b || order[b] == a)
}

/// Some of the first `rounds` rounds links `a` and `b`.
pub open spec fn overlay_edge(seed: u64, n: int, rounds: int, a: int, b: int) -> bool {
    exists|r: int| 0 <= r < rounds && #[trigger] round_links(seed, n, r, a, b)
}

/// Adds an edge in both directions between points that exist.
fn add_both(adj: &mut AdjBuilder, a: u32, b: u32)
    requires
        old(adj).wf(),
        a < old(adj).adj@.len(),
        b < old(adj).adj@.len(),
    ensures
        final(adj).wf(),
        final(adj).adj@.len() == old(adj).adj@.len(),
        entry_count(final(adj).adj@) == entry_count(old(adj).adj@) + 2,
        a != b ==> forall|x: int|
            0 <= x < old(adj).adj@.len() ==> (#[trigger] final(adj).adj@[x])@.len()
                == old(adj).adj@[x]@.len() + if x == a || x == b {
                1int
            } else {
                0
            },
        forall|x: int, y: u32|
            0 <= x < old(adj).adj@.len() ==> (#[trigger] has_edge(final(adj).adj@, x, y) <==> has_edge(
                old(adj).adj@,
                x,
                y,
            ) || (x == a && y == b) || (x == b && y == a)),
{
    let ghost before = adj.adj@;
    let _ = adj.add_undirected(a, b);
    proof {
        let mid = choose|mid: Seq<Vec<u32>>|
            #[trigger] AdjBuilder::with_edge(before, a, b, mid) && AdjBuilder::with_edge(
                mid,
                b,
                a,
                adj.adj@,
            );
        edge_is_one_more(before, mid, a, b);
        edge_is_one_more(mid, adj.adj@, b, a);
        if a != b {
            assert forall|x: int| 0 <= x < before.len() implies (#[trigger] adj.adj@[x])@.len()
                == before[x]@.len() + if x == a || x == b {
                1int
            } else {
                0
            } by {
                if x != a {
                    assert(mid[x] == before[x]);
                }
                if x != b {
                    assert(adj.adj@[x] == mid[x]);
                }
            }
        }
        assert forall|x: int, y: u32| 0 <= x < before.len() implies (#[trigger] has_edge(adj.adj@, x, y) <==> has_edge(
            before,
            x,
            y,
        ) || (x == a && y == b) || (x == b && y == a)) by {
            assert(has_edge(mid, x, y) <==> has_edge(before, x, y) || (x == a && y == b));
        }
    }
}

/// One of the first `i` points is mapped to `a`.
pub open spec fn is_image(order: Seq<u32>, i: int, a: int) -> bool {
    exists|j: int| 0 <= j < i && #[trigger] order[j] == a
}

/// Adds random edges: each round links every point with its image under a
/// random rearrangement.
pub fn build_random_overlay_seeded(n: usize, m_random: usize, build_seed: u64, adj: &mut AdjBuilder)
    requires
        old(adj).wf(),
        old(adj).adj@.len() == n,
    ensures
        final(adj).wf(),
        final(adj).adj@.len() == n,
        forall|a: int, b: u32|
            0 <= a < n && b < n ==> (#[trigger] has_edge(final(adj).adj@, a, b) <==> has_edge(
                old(adj).adj@,
                a,
                b,
            ) || overlay_edge(
                build_seed,
                n as int,
                overlay_rounds(m_random as int, n as int),
                a,
                b as int,
            )),
        entry_count(final(adj).adj@) <= entry_count(old(adj).adj@) + n * m_random,
        forall|a: int|
            0 <= a < n ==> (#[trigger] final(adj).adj@[a])@.len() <= old(adj).adj@[a]@.len()
                + m_random,
{
    let ghost before = adj.adj@;
    if m_random == 0 || n <= 1 {
        proof {
            assert(0 <= n * m_random) by (nonlinear_arith);
        }
        return;
    }
    let half: usize = if m_random / 2 < n - 1 { m_random / 2 } else { n - 1 };
    let seed: u64 = derive_build_seed(build_seed, OVERLAY_STREAM);
    let orders = shuffle_rounds(seed, n as u32, half);
    let mut r: usize = 0;
    while r < half
        invariant
            r <= half,
            half == overlay_rounds(m_random as int, n as int),
            1 < n <= u32::MAX,
            adj.wf(),
            adj.adj@.len() == n,
            before.len() == n,
            seed == mixed(build_seed, OVERLAY_STREAM),
            orders@.len() == half,
            forall|q: int|
                0 <= q < half ==> {
                    &&& (#[trigger] orders@[q])@ == shuffle_round(seed, n as u32, q as nat)
                    &&& orders@[q]@.len() == n
                    &&& orders@[q]@.no_duplicates()
                    &&& forall|i: int| 0 <= i < n ==> #[trigger] orders@[q]@[i] < n
                },
            forall|a: int, b: u32|
                0 <= a < n && b < n ==> (#[trigger] has_edge(adj.adj@, a, b) <==> has_edge(before, a, b)
                    || overlay_edge(build_seed, n as int, r as int, a, b as int)),
            entry_count(adj.adj@) <= entry_count(before) + r * (2 * n),
            forall|a: int|
                0 <= a < n ==> (#[trigger] adj.adj@[a])@.len() <= before[a]@.len() + 2 * r,
        decreases half - r,
    {
        let ghost start = adj.adj@;
        let order = &orders[r];
        assert(orders@[r as int]@.len() == n);
        let mut i: usize = 0;
        while i < n
            invariant
                i <= n,
                1 < n <= u32::MAX,
                adj.wf(),
                adj.adj@.len() == n,
                start.len() == n,
                order@.len() == n,
                order@.no_duplicates(),
                forall|j: int| 0 <= j < n ==> #[trigger] order@[j] < n,
                forall|a: int|
                    0 <= a < n ==> (#[trigger] adj.adj@[a])@.len() <= start[a]@.len() + (if a < i {
                        1int
                    } else {
                        0
                    }) + (if is_image(order@, i as int, a) {
                        1int
                    } else {
                        0
                    }),
                forall|a: int, b: u32|
                    0 <= a < n && b < n ==> (#[trigger] has_edge(adj.adj@, a, b) <==> has_edge(
                        start,
                        a,
                        b,
                    ) || (a != b && ((a < i && order@[a] == b) || (b < i && order@[b as int] == a)))),
                entry_count(adj.adj@) <= entry_count(start) + 2 * i,
            decreases n - i,
        {
            let j: u32 = order[i];
            assert(order@[i as int] < n);
            let ghost some = adj.adj@;
            if i as u32 != j {
                add_both(adj, i as u32, j);
            }
            proof {
                assert forall|a: int| 0 <= a < n implies (#[trigger] adj.adj@[a])@.len()
                    <= start[a]@.len() + (if a < i + 1 {
                    1int
                } else {
                    0
                }) + (if is_image(order@, i + 1, a) {
                    1int
                } else {
                    0
                }) by {
                    assert(some[a]@.len() <= start[a]@.len() + (if a < i {
                        1int
                    } else {
                        0
                    }) + (if is_image(order@, i as int, a) {
                        1int
                    } else {
                        0
                    }));
                    if is_image(order@, i as int, a) {
                        let m = choose|m: int| 0 <= m < i && #[trigger] order@[m] == a;
                        assert(order@[m] == a);
                        assert(is_image(order@, i + 1, a));
                    }
                    if a == j {
                        assert(order@[i as int] == a);
                        assert(is_image(order@, i + 1, a));
                        if is_image(order@, i as int, a) {
                            let m = choose|m: int| 0 <= m < i && #[trigger] order@[m] == a;
                            assert(order@[m] != order@[i as int]);
                        }
                    }
                }
            }
            i = i + 1;
        }
        proof {
            assert((r + 1) * (2 * n) == r * (2 * n) + 2 * n) by (nonlinear_arith);
            assert forall|a: int, b: u32| 0 <= a < n && b < n implies (#[trigger] has_edge(adj.adj@, a, b) <==> has_edge(
                before,
                a,
                b,
            ) || overlay_edge(build_seed, n as int, r + 1, a, b as int)) by {
                assert(has_edge(start, a, b) <==> has_edge(before, a, b) || overlay_edge(
                    build_seed,
                    n as int,
                    r as int,
                    a,
                    b as int,
                ));
                assert(order@ == shuffle_round(mixed(build_seed, OVERLAY_STREAM), n as u32, r as nat));
                let here = round_links(build_seed, n as int, r as int, a, b as int);
                if overlay_edge(build_seed, n as int, r + 1, a, b as int) {
                    let q = choose|q: int|
                        0 <= q < r + 1 && #[trigger] round_links(build_seed, n as int, q, a, b as int);
                    if q < r {
                        assert(overlay_edge(build_seed, n as int, r as int, a, b as int));
                    }
                }
                if overlay_edge(build_seed, n as int, r as int, a, b as int) {
                    let q = choose|q: int|
                        0 <= q < r && #[trigger] round_links(build_seed, n as int, q, a, b as int);
                    assert(round_links(build_seed, n as int, q, a, b as int));
                }
            }
        }
        r = r + 1;
    }
    proof {
        assert(half * (2 * n) <= n * m_random) by (nonlinear_arith)
            requires
                2 * half <= m_random,
                n >= 0,
        ;
    }
}

/// `a` and `b` are the entries of two cells that follow each other.
pub open spec fn backbone_edge(medoids: Seq<u32>, a: int, b: int) -> bool {
    exists|i: int| 0 <= i < medoids.len() - 1 && #[trigger] backbone_at(medoids, i, a, b)
}

/// `a` and `b` are the entries of cells `i` and `i + 1`.
pub open spec fn backbone_at(medoids: Seq<u32>, i: int, a: int, b: int) -> bool {
    (medoids[i] == a && medoids[i + 1] == b) || (medoids[i] == b && medoids[i + 1] == a)
}

/// Adds edges between the entries of cells that follow each other.
pub fn add_medoid_backbone(medoids: &Vec<u32>, adj: &mut AdjBuilder)
    requires
        old(adj).wf(),
        forall|c: int| 0 <= c < medoids@.len() ==> #[trigger] medoids@[c] < old(adj).adj@.len(),
    ensures
        final(adj).wf(),
        final(adj).adj@.len() == old(adj).adj@.len(),
        forall|a: int, b: u32|
            0 <= a < old(adj).adj@.len() ==> (#[trigger] has_edge(final(adj).adj@, a, b) <==> has_edge(
                old(adj).adj@,
                a,
                b,
            ) || backbone_edge(medoids@, a, b as int)),
        entry_count(final(adj).adj@) <= entry_count(old(adj).adj@) + 2 * medoids@.len(),
{
    let ghost before = adj.adj@;
    let ghost n = adj.adj@.len() as int;
    if medoids.len() == 0 {
        return;
    }
    let mut i: usize = 1;
    assert(medoids@.take(1).len() == 1);
    while i < medoids.len()
        invariant
            1 <= i <= medoids@.len(),
            adj.wf(),
            adj.adj@.len() == n,
            before.len() == n,
            forall|c: int| 0 <= c < medoids@.len() ==> #[trigger] medoids@[c] < n,
            forall|a: int, b: u32|
                0 <= a < n ==> (#[trigger] has_edge(adj.adj@, a, b) <==> has_edge(before, a, b)
                    || backbone_edge(medoids@.take(i as int), a, b as int)),
            entry_count(adj.adj@) <= entry_count(before) + 2 * (i - 1),
        decreases medoids@.len() - i,
    {
        assert(medoids@[i - 1] < n);
        assert(medoids@[i as int] < n);
        let ghost some = adj.adj@;
        add_both(adj, medoids[i - 1], medoids[i]);
        proof {
            let few = medoids@.take(i as int);
            let more = medoids@.take(i + 1);
            assert forall|a: int, b: u32| 0 <= a < n implies (#[trigger] has_edge(adj.adj@, a, b) <==> has_edge(
                before,
                a,
                b,
            ) || backbone_edge(more, a, b as int)) by {
                assert(has_edge(some, a, b) <==> has_edge(before, a, b) || backbone_edge(
                    few,
                    a,
                    b as int,
                ));
                if backbone_edge(more, a, b as int) {
                    let k = choose|k: int|
                        0 <= k < more.len() - 1 && #[trigger] backbone_at(more, k, a, b as int);
                    if k < i - 1 {
                        assert(backbone_at(few, k, a, b as int));
                    }
                }
                if backbone_edge(few, a, b as int) {
                    let k = choose|k: int|
                        0 <= k < few.len() - 1 && #[trigger] backbone_at(few, k, a, b as int);
                    assert(backbone_at(more, k, a, b as int));
                }
                if (a == medoids@[i - 1] && b == medoids@[i as int]) || (a == medoids@[i as int] && b
                    == medoids@[i - 1]) {
                    assert(backbone_at(more, i - 1, a, b as int));
                }
            }
        }
        i = i + 1;
    }
    assert(medoids@.take(medoids@.len() as int) =~= medoids@);
}

} // verus!
