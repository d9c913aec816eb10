//! What the edges of an index are.

use vstd::prelude::*;
use crate::assemble::{
    backbone_at, backbone_edge, cells_cover, cross_edge, linked_in, local_edge, overlay_edge,
    overlay_rounds, round_links, table_fits,
};
use crate::bridges::{
    cross_neighbors_are_well_chosen, shares_out, well_chosen, well_contributed, well_measured,
    well_targeted,
};
use crate::chance::shuffle_round;
use crate::config::PrismConfig;
use crate::construct::{assembled, due_edge, is_assembled};
use crate::covering::{is_subset, listed};
use crate::cross::{cross_neighbors, mixed};
use crate::descent::cell_facts;
use crate::distance::Metric;
use crate::graph::Graph;
use crate::index::PrismIndex;
use crate::indexing::{is_index_of, is_prepared, laid_out};
use crate::kmeans::{closest, closest_is_first};
use crate::medoid::{mean_row, medoid_of};
use crate::partition::{Cell, PartitionTree};
use crate::point::PointStore;
use crate::pure::{by_metric, mean_of, Measure};
use crate::quantize::SQ8Store;
use crate::single::order_of;
use crate::weave::{apart, covering, linked_twice};

verus! {

/// Of the `n` points from `first` on none is nearer to their mean than the one
/// at position `at`, and those before it are farther away.
pub open spec fn is_central<
    D: Fn(Metric, &[u32], &[u32]) -> u32,
    C: Fn(&[u32], usize) -> Vec<u32>,
>(
    store: &PointStore,
    first: int,
    n: int,
    measure: Measure<D>,
    centroid: C,
    at: int,
) -> bool {
    let mean = mean_of(
        centroid,
        store.vectors@.subrange(first * store.dim, (first + n) * store.dim),
        store.dim,
    );
    &&& 0 <= at < n
    &&& forall|a: int|
        #![trigger store.row(first + a)]
        0 <= a < n ==> order_of(measure.gives(mean, store.row(first + at))) <= order_of(
            measure.gives(mean, store.row(first + a)),
        )
    &&& forall|a: int|
        #![trigger store.row(first + a)]
        0 <= a < at ==> order_of(measure.gives(mean, store.row(first + at))) < order_of(
            measure.gives(mean, store.row(first + a)),
        )
}

/// The point where a walk enters is nearest to the mean.
pub proof fn medoids_are_central<
    D: Fn(Metric, &[u32], &[u32]) -> u32,
    C: Fn(&[u32], usize) -> Vec<u32>,
>(store: &PointStore, first: int, n: int, measure: Measure<D>, centroid: C)
    requires
        n > 0,
    ensures
        is_central(
            store,
            first,
            n,
            measure,
            centroid,
            medoid_of(store, first, n, measure, centroid),
        ),
{
    let mean = mean_row(store, first, n, centroid);
    let key = |a: int| order_of(measure.gives(mean, store.row(first + a))) as int;
    closest_is_first(key, 0x1_0000_0000, n);
    let (best, least) = closest(key, 0x1_0000_0000, n);
    assert(key(0) < 0x1_0000_0000);
    assert forall|a: int|
        #![trigger store.row(first + a)]
        0 <= a < n implies order_of(measure.gives(mean, store.row(first + best))) <= order_of(
        measure.gives(mean, store.row(first + a)),
    ) by {
        assert(least <= key(a));
        assert(key(best) == least);
    }
    assert forall|a: int|
        #![trigger store.row(first + a)]
        0 <= a < best implies order_of(measure.gives(mean, store.row(first + best))) < order_of(
        measure.gives(mean, store.row(first + a)),
    ) by {
        assert(least < key(a));
        assert(key(best) == least);
    }
}

/// A large cell is linked by two passes over its points, entered at the point
/// nearest to the mean, the second one with the strictness of the index; besides
/// every point is linked with the ones before and after it.
pub proof fn large_cells_are_linked_twice<
    D: Fn(Metric, &[u32], &[u32]) -> u32,
    C: Fn(&[u32], usize) -> Vec<u32>,
    P: Fn(u32, u32, u32, u32) -> bool,
    Q: Fn(&[u8], &[u8], &[u32]) -> u32,
    W: Fn(u32, usize, u32) -> u32,
>(
    graph: &Graph,
    store: &PointStore,
    measure: Measure<D>,
    centroid: C,
    covers: P,
    sq8: &SQ8Store,
    compare: Q,
    score: W,
    cells: Seq<Cell>,
    medoids: Seq<u32>,
    config: &PrismConfig,
    point_cell: Seq<u32>,
    c: int,
) -> (woven: (u32, Seq<Seq<u32>>))
    requires
        is_assembled(
            graph,
            store,
            measure,
            centroid,
            covers,
            sq8,
            compare,
            score,
            cells,
            medoids,
            config,
            point_cell,
        ),
        store.len <= u32::MAX,
        cells_cover(cells, store.len as int),
        config.local_built(store.len as int),
        0 <= c < cells.len(),
        cells[c].point_ids@.len() > config.m_local + 1,
    ensures
        ({
            let (entry, table) = woven;
            let n = cells[c].point_ids@.len() as int;
            let first = cells[c].point_ids@[0] as int;
            &&& table.len() == n
            &&& is_central(store, first, n, measure, centroid, entry as int)
            &&& linked_twice(
                apart(store, first, measure),
                covering(measure.metric, covers, 0x3f80_0000),
                covering(measure.metric, covers, config.vamana_alpha),
                config.m_local as int,
                if config.beam_width < n {
                    config.beam_width as int
                } else {
                    n
                },
                entry,
                table,
            )
            &&& forall|a: int, j: int|
                #![trigger table[a][j]]
                0 <= a < n && 0 <= j < table[a].len() ==> graph.edge(
                    first + a,
                    (first + table[a][j]) as u32,
                )
            &&& forall|a: int|
                0 <= a < n - 1 ==> #[trigger] graph.edge(first + a, (first + a + 1) as u32)
                    && graph.edge(first + a + 1, (first + a) as u32)
        }),
{
    let (tables, local, subsets) = choose|
        tables: Seq<Seq<Seq<u32>>>,
        local: Graph,
        subsets: Seq<Vec<usize>>,
    | #[trigger]
        assembled(
            graph,
            store,
            measure,
            centroid,
            covers,
            sq8,
            compare,
            score,
            cells,
            medoids,
            config,
            point_cell,
            tables,
            &local,
            subsets,
        );
    let n = cells[c].point_ids@.len() as int;
    let first = cells[c].point_ids@[0] as int;
    let m = config.m_local as int;
    let table = tables[c];
    assert(table_fits(store, config, measure, centroid, covers, cells, tables[c], c));
    medoids_are_central(store, first, n, measure, centroid);
    let entry = medoid_of(store, first, n, measure, centroid) as u32;
    assert(cells[c].point_ids@.len() > 0);
    assert(cells[c].point_ids@[n - 1] == first + n - 1);
    assert(cells[c].point_ids@[n - 1] < store.len);
    assert forall|a: int, j: int|
        #![trigger table[a][j]]
        0 <= a < n && 0 <= j < table[a].len() implies graph.edge(
        first + a,
        (first + table[a][j]) as u32,
    ) by {
        let b = table[a][j];
        assert(crate::vamana::list_fits(table[a], n, a));
        assert(b < n);
        assert(table[a].contains(b));
        assert(linked_in(cells, m, tables, c, first + a, first + b));
        assert(local_edge(cells, m, tables, first + a, first + b));
        assert(due_edge(
            store,
            measure,
            sq8,
            compare,
            score,
            cells,
            medoids,
            config,
            point_cell,
            tables,
            &local,
            subsets,
            first + a,
            (first + b) as u32,
        ));
    }
    assert forall|a: int| 0 <= a < n - 1 implies #[trigger] graph.edge(
        first + a,
        (first + a + 1) as u32,
    ) && graph.edge(first + a + 1, (first + a) as u32) by {
        assert(linked_in(cells, m, tables, c, first + a, first + a + 1));
        assert(linked_in(cells, m, tables, c, first + a + 1, first + a));
        assert(due_edge(
            store,
            measure,
            sq8,
            compare,
            score,
            cells,
            medoids,
            config,
            point_cell,
            tables,
            &local,
            subsets,
            first + a,
            (first + a + 1) as u32,
        ));
        assert(due_edge(
            store,
            measure,
            sq8,
            compare,
            score,
            cells,
            medoids,
            config,
            point_cell,
            tables,
            &local,
            subsets,
            first + a + 1,
            (first + a) as u32,
        ));
    }
    (entry, table)
}

/// A small cell links all of its points with each other.
pub proof fn small_cells_link_all<
    D: Fn(Metric, &[u32], &[u32]) -> u32,
    C: Fn(&[u32], usize) -> Vec<u32>,
    P: Fn(u32, u32, u32, u32) -> bool,
    Q: Fn(&[u8], &[u8], &[u32]) -> u32,
    W: Fn(u32, usize, u32) -> u32,
>(
    graph: &Graph,
    store: &PointStore,
    measure: Measure<D>,
    centroid: C,
    covers: P,
    sq8: &SQ8Store,
    compare: Q,
    score: W,
    cells: Seq<Cell>,
    medoids: Seq<u32>,
    config: &PrismConfig,
    point_cell: Seq<u32>,
    c: int,
    a: int,
    b: u32,
)
    requires
        is_assembled(
            graph,
            store,
            measure,
            centroid,
            covers,
            sq8,
            compare,
            score,
            cells,
            medoids,
            config,
            point_cell,
        ),
        store.len <= u32::MAX,
        cells_cover(cells, store.len as int),
        config.local_built(store.len as int),
        0 <= c < cells.len(),
        cells[c].point_ids@.len() <= config.m_local + 1,
        0 <= a,
        cells[c].point_ids@.contains(a as u32),
        a <= u32::MAX,
        cells[c].point_ids@.contains(b),
        a != b,
    ensures
        graph.edge(a, b),
{
    let (tables, local, subsets) = choose|
        tables: Seq<Seq<Seq<u32>>>,
        local: Graph,
        subsets: Seq<Vec<usize>>,
    | #[trigger]
        assembled(
            graph,
            store,
            measure,
            centroid,
            covers,
            sq8,
            compare,
            score,
            cells,
            medoids,
            config,
            point_cell,
            tables,
            &local,
            subsets,
        );
    let ids = cells[c].point_ids@;
    let i = choose|i: int| 0 <= i < ids.len() && ids[i] == a as u32;
    let j = choose|j: int| 0 <= j < ids.len() && ids[j] == b;
    assert(cells[c].point_ids@.len() > 0);
    assert(ids[i] == ids[0] + i && ids[j] == ids[0] + j);
    assert(cells[c].point_ids@[i] < store.len);
    assert(cells[c].point_ids@[j] < store.len);
    assert(linked_in(cells, config.m_local as int, tables, c, a, b as int));
    assert(due_edge(
            store,
            measure,
            sq8,
            compare,
            score,
            cells,
            medoids,
            config,
            point_cell,
            tables,
            &local,
            subsets,
            a,
            b,
        ));
}

/// Where searches cross cells, every point is linked to the neighbours that it
/// chose in other cells.
pub proof fn points_are_linked_across_cells<
    D: Fn(Metric, &[u32], &[u32]) -> u32,
    C: Fn(&[u32], usize) -> Vec<u32>,
    P: Fn(u32, u32, u32, u32) -> bool,
    Q: Fn(&[u8], &[u8], &[u32]) -> u32,
    W: Fn(u32, usize, u32) -> u32,
>(
    graph: &Graph,
    store: &PointStore,
    measure: Measure<D>,
    centroid: C,
    covers: P,
    sq8: &SQ8Store,
    compare: Q,
    score: W,
    cells: Seq<Cell>,
    medoids: Seq<u32>,
    config: &PrismConfig,
    point_cell: Seq<u32>,
    a: int,
) -> (way: (
    Graph,
    Seq<Vec<usize>>,
    (Seq<u32>, Seq<u32>, int, Seq<Seq<u32>>, Seq<(u32, u32)>, Seq<int>),
))
    requires
        is_assembled(
            graph,
            store,
            measure,
            centroid,
            covers,
            sq8,
            compare,
            score,
            cells,
            medoids,
            config,
            point_cell,
        ),
        store.wf(),
        store.len <= u32::MAX,
        cells_cover(cells, store.len as int),
        cells.len() <= store.len,
        medoids.len() == cells.len(),
        forall|c: int| 0 <= c < medoids.len() ==> #[trigger] medoids[c] < store.len,
        config.global_built(store.len as int, cells.len() as int),
        config.m_greedy > 0,
        config.m_local > 0,
        config.beam_width > 0,
        0 <= a < store.len,
        0 <= point_cell[a] < cells.len(),
    ensures
        ({
            let (local, subsets, (pool, targets, share, lists, near, taken)) = way;
            let beam = if config.beam_width < store.len {
                config.beam_width as int
            } else {
                store.len as int
            };
            let wanted = if share > config.m_local {
                share
            } else {
                config.m_local as int
            };
            let width = if wanted < beam {
                wanted
            } else {
                beam
            };
            let strength = if config.t < store.arity() {
                config.t as int
            } else {
                store.arity()
            };
            let p = a as u32;
            &&& forall|s: Seq<usize>| is_subset(s, store.arity(), strength) ==> #[trigger] listed(
                subsets,
                s,
            )
            &&& local.wf() && local.n == store.len
            &&& forall|x: int, b: u32|
                0 <= x < store.len && b < store.len && #[trigger] local.edge(x, b) ==> graph.edge(
                    x,
                    b,
                )
            &&& well_targeted(
                sq8,
                compare,
                medoids,
                config,
                beam,
                point_cell[a] as int,
                pool,
                targets,
            )
            &&& shares_out(beam, targets.len() as int, share)
            &&& lists.len() == targets.len()
            &&& forall|t: int|
                0 <= t < targets.len() ==> well_contributed(
                    store,
                    measure,
                    sq8,
                    compare,
                    &local,
                    cells,
                    medoids,
                    p,
                    targets[t] as int,
                    share,
                    width,
                    #[trigger] lists[t],
                )
            &&& well_measured(store, measure, p, lists, beam, near)
            &&& well_chosen(
                store,
                near,
                subsets,
                config.alpha,
                score,
                if config.m_greedy < near.len() {
                    config.m_greedy as int
                } else {
                    near.len() as int
                },
                taken,
            )
            &&& forall|i: int|
                0 <= i < taken.len() && near[#[trigger] taken[i]].0 < store.len ==> graph.edge(
                    a,
                    near[taken[i]].0,
                )
        }),
{
    let (tables, local, subsets) = choose|
        tables: Seq<Seq<Seq<u32>>>,
        local: Graph,
        subsets: Seq<Vec<usize>>,
    | #[trigger]
        assembled(
            graph,
            store,
            measure,
            centroid,
            covers,
            sq8,
            compare,
            score,
            cells,
            medoids,
            config,
            point_cell,
            tables,
            &local,
            subsets,
        );
    let n = store.len as int;
    let beam = if config.beam_width < n {
        config.beam_width as int
    } else {
        n
    };
    let cell = point_cell[a] as int;
    let p = a as u32;
    assert forall|c: int| 0 <= c < cells.len() implies #[trigger] medoids[c] < local.n
        && cells[c].point_ids@.no_duplicates() && cells[c].point_ids@.len() <= u32::MAX by {
        let ids = cells[c].point_ids@;
        assert(cells[c].point_ids@.len() > 0);
        assert forall|i: int, j: int| 0 <= i < ids.len() && 0 <= j < ids.len() && i != j implies ids[i]
            != ids[j] by {
            assert(ids[i] == ids[0] + i && ids[j] == ids[0] + j);
        }
        assert(ids[ids.len() - 1] == ids[0] + ids.len() - 1);
        assert(cells[c].point_ids@[ids.len() - 1] < n);
    }
    let way = cross_neighbors_are_well_chosen(
        store,
        measure,
        sq8,
        compare,
        score,
        &local,
        cells,
        medoids,
        config,
        subsets,
        beam,
        cell,
        p,
    );
    let (pool, targets, share, lists, near, taken) = way;
    let selected = cross_neighbors(
        store,
        measure,
        sq8,
        compare,
        score,
        &local,
        cells,
        medoids,
        config,
        subsets,
        beam,
        cell,
        p,
    );
    assert forall|i: int| 0 <= i < taken.len() && near[#[trigger] taken[i]].0 < store.len implies graph.edge(
        a,
        near[taken[i]].0,
    ) by {
        let b = near[taken[i]].0;
        assert(selected[i] == b);
        assert(cross_edge(
            store,
            measure,
            sq8,
            compare,
            score,
            &local,
            cells,
            medoids,
            config,
            subsets,
            point_cell,
            a,
            b,
        ));
        assert(due_edge(
            store,
            measure,
            sq8,
            compare,
            score,
            cells,
            medoids,
            config,
            point_cell,
            tables,
            &local,
            subsets,
            a,
            b,
        ));
    }
    assert forall|x: int, b: u32| 0 <= x < store.len && b < store.len && #[trigger] local.edge(
        x,
        b,
    ) implies graph.edge(x, b) by {
        assert(local_edge(cells, config.m_local as int, tables, x, b as int));
        assert(due_edge(
            store,
            measure,
            sq8,
            compare,
            score,
            cells,
            medoids,
            config,
            point_cell,
            tables,
            &local,
            subsets,
            x,
            b,
        ));
    }
    (local, subsets, way)
}

/// Where searches cross cells, the entries of cells that follow each other are
/// linked, and every point with the one that a random order puts in its place,
/// in as many orders as half the degree that these edges may have.
pub proof fn points_are_linked_at_random<
    D: Fn(Metric, &[u32], &[u32]) -> u32,
    C: Fn(&[u32], usize) -> Vec<u32>,
    P: Fn(u32, u32, u32, u32) -> bool,
    Q: Fn(&[u8], &[u8], &[u32]) -> u32,
    W: Fn(u32, usize, u32) -> u32,
>(
    graph: &Graph,
    store: &PointStore,
    measure: Measure<D>,
    centroid: C,
    covers: P,
    sq8: &SQ8Store,
    compare: Q,
    score: W,
    cells: Seq<Cell>,
    medoids: Seq<u32>,
    config: &PrismConfig,
    point_cell: Seq<u32>,
    rounds: int,
)
    requires
        is_assembled(
            graph,
            store,
            measure,
            centroid,
            covers,
            sq8,
            compare,
            score,
            cells,
            medoids,
            config,
            point_cell,
        ),
        store.len <= u32::MAX,
        config.global_built(store.len as int, cells.len() as int),
        medoids.len() == cells.len(),
        forall|c: int| 0 <= c < medoids.len() ==> #[trigger] medoids[c] < store.len,
        rounds == store.len - 1 || rounds == config.m_random as int / 2,
        rounds <= store.len - 1,
        2 * rounds <= config.m_random,
    ensures
        forall|c: int|
            0 <= c < medoids.len() - 1 ==> graph.edge(
                #[trigger] medoids[c] as int,
                medoids[c + 1],
            ) && graph.edge(medoids[c + 1] as int, medoids[c]),
        forall|r: int, a: int|
            #![trigger shuffle_round(mixed(config.build_seed, 0x4f56_4552_4c41_5900), store.len as u32, r as nat)[a]]
            0 <= r < rounds && 0 <= a < store.len ==> {
                let b = shuffle_round(
                    mixed(config.build_seed, 0x4f56_4552_4c41_5900),
                    store.len as u32,
                    r as nat,
                )[a];
                a != b && b < store.len ==> graph.edge(a, b) && graph.edge(b as int, a as u32)
            },
{
    let (tables, local, subsets) = choose|
        tables: Seq<Seq<Seq<u32>>>,
        local: Graph,
        subsets: Seq<Vec<usize>>,
    | #[trigger]
        assembled(
            graph,
            store,
            measure,
            centroid,
            covers,
            sq8,
            compare,
            score,
            cells,
            medoids,
            config,
            point_cell,
            tables,
            &local,
            subsets,
        );
    let n = store.len as int;
    assert forall|c: int| 0 <= c < medoids.len() - 1 implies graph.edge(
        #[trigger] medoids[c] as int,
        medoids[c + 1],
    ) && graph.edge(medoids[c + 1] as int, medoids[c]) by {
        let a = medoids[c];
        let b = medoids[c + 1];
        assert(backbone_at(medoids, c, a as int, b as int));
        assert(backbone_at(medoids, c, b as int, a as int));
        assert(backbone_edge(medoids, a as int, b as int));
        assert(backbone_edge(medoids, b as int, a as int));
        assert(due_edge(
            store,
            measure,
            sq8,
            compare,
            score,
            cells,
            medoids,
            config,
            point_cell,
            tables,
            &local,
            subsets,
            a as int,
            b,
        ));
        assert(due_edge(
            store,
            measure,
            sq8,
            compare,
            score,
            cells,
            medoids,
            config,
            point_cell,
            tables,
            &local,
            subsets,
            b as int,
            a,
        ));
    }
    let m = config.m_random as int;
    assert(rounds <= overlay_rounds(m, n));
    let seed = mixed(config.build_seed, 0x4f56_4552_4c41_5900);
    assert forall|r: int, a: int|
        #![trigger shuffle_round(seed, store.len as u32, r as nat)[a]]
        0 <= r < rounds && 0 <= a < n implies {
        let b = shuffle_round(seed, store.len as u32, r as nat)[a];
        a != b && b < store.len ==> graph.edge(a, b) && graph.edge(b as int, a as u32)
    } by {
        let b = shuffle_round(seed, store.len as u32, r as nat)[a];
        if a != b && b < store.len {
            assert(round_links(config.build_seed, n, r, a, b as int));
            assert(round_links(config.build_seed, n, r, b as int, a));
            assert(overlay_edge(config.build_seed, n, overlay_rounds(m, n), a, b as int));
            assert(overlay_edge(config.build_seed, n, overlay_rounds(m, n), b as int, a));
            assert(due_edge(
            store,
            measure,
            sq8,
            compare,
            score,
            cells,
            medoids,
            config,
            point_cell,
            tables,
            &local,
            subsets,
            a,
            b,
        ));
            assert(due_edge(
            store,
            measure,
            sq8,
            compare,
            score,
            cells,
            medoids,
            config,
            point_cell,
            tables,
            &local,
            subsets,
            b as int,
            a as u32,
        ));
        }
    }
}

/// A new index is entered at central points: each cell at the point nearest to
/// its mean, the whole index at the point nearest to the mean of all points; and
/// its edges are those that its settings ask for.
pub proof fn indexes_enter_at_central_points<
    A: Fn(&[u32]) -> Vec<u32>,
    D: Fn(Metric, &[u32], &[u32]) -> u32,
    C: Fn(&[u32], usize) -> Vec<u32>,
    P: Fn(u32, u32, u32, u32) -> bool,
    Q: Fn(&[u8], &[u8], &[u32]) -> u32,
    W: Fn(u32, usize, u32) -> u32,
    S: Fn(u32, u32) -> u32,
    E: Fn(u32, u32, u32) -> u8,
    F: Fn(&[u32], &[u32], usize) -> Vec<bool>,
    N: Fn(&[u32]) -> u64,
    R: Fn(u64) -> u64,
>(
    index: &PrismIndex,
    store: &PointStore,
    config: &PrismConfig,
    normalize: A,
    distance: D,
    centroid: C,
    covers: P,
    compare: Q,
    score: W,
    step: S,
    encode: E,
    rotate: F,
    squared: N,
    root: R,
)
    requires
        is_index_of(
            index,
            store,
            config,
            normalize,
            distance,
            centroid,
            covers,
            compare,
            score,
            step,
            encode,
            rotate,
            squared,
            root,
        ),
        index.wf(),
    ensures
        ({
            let cells = index.tree.cells@;
            let measure = by_metric(distance, config.metric);
            let n = index.store.len as int;
            &&& config.local_built(n) ==> forall|c: int|
                0 <= c < cells.len() ==> is_central(
                    &index.store,
                    cells[c].point_ids@[0] as int,
                    cells[c].point_ids@.len() as int,
                    measure,
                    centroid,
                    #[trigger] index.medoids@[c] - cells[c].point_ids@[0],
                )
            &&& config.global_built(n, cells.len() as int) ==> is_central(
                &index.store,
                0,
                n,
                measure,
                centroid,
                index.global_medoid as int,
            )
            &&& is_assembled(
                &index.graph,
                &index.store,
                measure,
                centroid,
                covers,
                &index.sq8,
                compare,
                score,
                cells,
                index.medoids@,
                config,
                index.point_cell@,
            )
        }),
{
    let cells = index.tree.cells@;
    let measure = by_metric(distance, config.metric);
    let n = index.store.len as int;
    assert(n == store.len) by {
        let (prepared, found) = choose|prepared: PointStore, found: PartitionTree|
            is_prepared(store, &prepared, config.metric, normalize) && #[trigger] laid_out(
                &prepared,
                &found,
                index,
            );
    }
    if config.local_built(n) {
        assert forall|c: int| 0 <= c < cells.len() implies is_central(
            &index.store,
            cells[c].point_ids@[0] as int,
            cells[c].point_ids@.len() as int,
            measure,
            centroid,
            #[trigger] index.medoids@[c] - cells[c].point_ids@[0],
        ) by {
            cell_facts(index, c);
            let ids = cells[c].point_ids@;
            medoids_are_central(
                &index.store,
                ids[0] as int,
                ids.len() as int,
                measure,
                centroid,
            );
        }
    }
    if config.global_built(n, cells.len() as int) {
        cell_facts(index, 0);
        medoids_are_central(&index.store, 0, n, measure, centroid);
    }
}

} // verus!
