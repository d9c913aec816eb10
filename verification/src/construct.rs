//! Construction of the index: all edges together, and what they lead to.

use vstd::prelude::*;
use crate::assemble::{
    add_medoid_backbone, backbone_at, backbone_edge, both_in, build_greedy_cross_edges,
    build_local_edges, build_random_overlay_seeded, cells_cover, cells_told, covers_attributes,
    cross_beam, cross_edge, cross_linked, cross_verdict, greedy_verdict, has_edge, is_small,
    linked_in, local_edge, overlay_edge, overlay_rounds, round_links, strength_used, table_fits,
};
use crate::config::PrismConfig;
use crate::covering::covering_verdict;
use crate::cross::{
    cell_is_closed, cell_share, cells_are_closed, cross_neighbors_are_foreign,
    ranked_cells_are_foreign, target_count,
};
use crate::distance::Metric;
use crate::error::{refused_size, PrismResult};
use crate::graph::{
    countable, distinct_count, distinct_is_fewer, entry_count, frozen_lists_are_few, AdjBuilder,
    Graph,
};
use crate::index::graph_fits;
use crate::order::ascending;
use crate::partition::Cell;
use crate::point::PointStore;
use crate::pure::{compares_codes, gives_means, total3, total4, Measure};
use crate::quantize::SQ8Store;
use crate::reach::{
    cell_spanned, connected, connected_in_more, connected_through, connected_to_itself,
    is_canonical, is_range, one_step_further,
};
use crate::reproduce::{due_edges_agree, local_edges_agree};
use crate::vamana::list_fits;

verus! {

/// The edges within cells, as a graph.
pub open spec fn is_local(
    local: &Graph,
    cells: Seq<Cell>,
    m_local: int,
    tables: Seq<Seq<Seq<u32>>>,
    n: int,
) -> bool {
    &&& local.wf()
    &&& local.n == n
    &&& forall|i: int| 0 <= i < n ==> ascending(#[trigger] local.row(i))
    &&& forall|a: int, b: u32|
        0 <= a < n ==> (#[trigger] local.edge(a, b) <==> local_edge(cells, m_local, tables, a, b as int))
}

/// Whether an index with these settings has an edge from `a` to `b`: within
/// their cell by proximity, or, where searches cross cells, because `a`
/// selects `b`, at random, or to link the entries of the cells.
pub open spec fn due_edge<
    D: Fn(Metric, &[u32], &[u32]) -> u32,
    Q: Fn(&[u8], &[u8], &[u32]) -> u32,
    W: Fn(u32, usize, u32) -> u32,
>(
    store: &PointStore,
    measure: Measure<D>,
    sq8: &SQ8Store,
    compare: Q,
    score: W,
    cells: Seq<Cell>,
    medoids: Seq<u32>,
    config: &PrismConfig,
    point_cell: Seq<u32>,
    tables: Seq<Seq<Seq<u32>>>,
    local: &Graph,
    subsets: Seq<Vec<usize>>,
    a: int,
    b: u32,
) -> bool {
    let n = store.len as int;
    &&& config.local_built(n)
    &&& b < n
    &&& {
        ||| local_edge(cells, config.m_local as int, tables, a, b as int)
        ||| config.global_built(n, cells.len() as int) && {
            ||| config.m_greedy > 0 && cross_edge(
                store,
                measure,
                sq8,
                compare,
                score,
                local,
                cells,
                medoids,
                config,
                subsets,
                point_cell,
                a,
                b,
            )
            ||| overlay_edge(
                config.build_seed,
                n,
                overlay_rounds(config.m_random as int, n),
                a,
                b as int,
            )
            ||| backbone_edge(medoids, a, b as int)
        }
    }
}

/// What the edges are made from: the neighbours within large cells, the edges
/// within cells and the covered projections.
pub open spec fn links_fit<
    D: Fn(Metric, &[u32], &[u32]) -> u32,
    C: Fn(&[u32], usize) -> Vec<u32>,
    P: Fn(u32, u32, u32, u32) -> bool,
>(
    store: &PointStore,
    measure: Measure<D>,
    centroid: C,
    covers: P,
    cells: Seq<Cell>,
    config: &PrismConfig,
    tables: Seq<Seq<Seq<u32>>>,
    local: &Graph,
    subsets: Seq<Vec<usize>>,
) -> bool {
    let n = store.len as int;
    &&& config.local_built(n) ==> tables.len() == cells.len() && forall|c: int|
        0 <= c < cells.len() ==> table_fits(
            store,
            config,
            measure,
            centroid,
            covers,
            cells,
            #[trigger] tables[c],
            c,
        )
    &&& config.global_built(n, cells.len() as int) ==> is_local(
        local,
        cells,
        config.m_local as int,
        tables,
        n,
    )
    &&& config.global_built(n, cells.len() as int) && config.m_greedy > 0 ==> covers_attributes(
        subsets,
        store.arity(),
        strength_used(config, store.arity()),
    )
}

/// The graph holds exactly the edges that an index with these settings has,
/// given the neighbours within large cells, the edges within cells and the
/// covered projections.
pub open spec fn assembled<
    D: Fn(Metric, &[u32], &[u32]) -> u32,
    C: Fn(&[u32], usize) -> Vec<u32>,
    P: Fn(u32, u32, u32, u32) -> bool,
    Q: Fn(&[u8], &[u8], &[u32]) -> u32,
    W: Fn(u32, usize, u32) -> u32,
>(
    graph: &Graph,
    store: &PointStore,
    measure: Measure<D>,
    centroid: C,
    covers: P,
    sq8: &SQ8Store,
    compare: Q,
    score: W,
    cells: Seq<Cell>,
    medoids: Seq<u32>,
    config: &PrismConfig,
    point_cell: Seq<u32>,
    tables: Seq<Seq<Seq<u32>>>,
    local: &Graph,
    subsets: Seq<Vec<usize>>,
) -> bool {
    let n = store.len as int;
    &&& graph.wf()
    &&& graph.n == n
    &&& forall|i: int| 0 <= i < n ==> ascending(#[trigger] graph.row(i))
    &&& links_fit(store, measure, centroid, covers, cells, config, tables, local, subsets)
    &&& forall|a: int, b: u32|
        0 <= a < n ==> (#[trigger] graph.edge(a, b) <==> due_edge(
            store,
            measure,
            sq8,
            compare,
            score,
            cells,
            medoids,
            config,
            point_cell,
            tables,
            local,
            subsets,
            a,
            b,
        ))
}

/// The graph holds exactly the edges that an index with these settings has.
pub open spec fn is_assembled<
    D: Fn(Metric, &[u32], &[u32]) -> u32,
    C: Fn(&[u32], usize) -> Vec<u32>,
    P: Fn(u32, u32, u32, u32) -> bool,
    Q: Fn(&[u8], &[u8], &[u32]) -> u32,
    W: Fn(u32, usize, u32) -> u32,
>(
    graph: &Graph,
    store: &PointStore,
    measure: Measure<D>,
    centroid: C,
    covers: P,
    sq8: &SQ8Store,
    compare: Q,
    score: W,
    cells: Seq<Cell>,
    medoids: Seq<u32>,
    config: &PrismConfig,
    point_cell: Seq<u32>,
) -> bool {
    exists|tables: Seq<Seq<Seq<u32>>>, local: Graph, subsets: Seq<Vec<usize>>|
        #[trigger] assembled(
            graph,
            store,
            measure,
            centroid,
            covers,
            sq8,
            compare,
            score,
            cells,
            medoids,
            config,
            point_cell,
            tables,
            &local,
            subsets,
        )
}

/// The edges of an index with these settings can be found and held: tables of
/// candidates are small enough, and there is a graph that has the edges.
pub open spec fn can_be_linked<
    D: Fn(Metric, &[u32], &[u32]) -> u32,
    C: Fn(&[u32], usize) -> Vec<u32>,
    P: Fn(u32, u32, u32, u32) -> bool,
    Q: Fn(&[u8], &[u8], &[u32]) -> u32,
    W: Fn(u32, usize, u32) -> u32,
>(
    store: &PointStore,
    measure: Measure<D>,
    centroid: C,
    covers: P,
    sq8: &SQ8Store,
    compare: Q,
    score: W,
    cells: Seq<Cell>,
    medoids: Seq<u32>,
    config: &PrismConfig,
    point_cell: Seq<u32>,
) -> bool {
    let n = store.len as int;
    &&& countable(n)
    &&& config.global_built(n, cells.len() as int) ==> greedy_verdict(
        config,
        n,
        store.arity(),
        cells.len() as int,
    ) is Accepted
    &&& exists|graph: Graph|
        #[trigger] is_assembled(
            &graph,
            store,
            measure,
            centroid,
            covers,
            sq8,
            compare,
            score,
            cells,
            medoids,
            config,
            point_cell,
        )
}

/// Where some graph has the edges, the edges within cells are not too many.
proof fn local_lists_are_held<
    D: Fn(Metric, &[u32], &[u32]) -> u32,
    C: Fn(&[u32], usize) -> Vec<u32>,
    P: Fn(u32, u32, u32, u32) -> bool,
    Q: Fn(&[u8], &[u8], &[u32]) -> u32,
    W: Fn(u32, usize, u32) -> u32,
>(
    store: &PointStore,
    measure: Measure<D>,
    centroid: C,
    covers: P,
    sq8: &SQ8Store,
    compare: Q,
    score: W,
    cells: Seq<Cell>,
    medoids: Seq<u32>,
    config: &PrismConfig,
    point_cell: Seq<u32>,
    tables: Seq<Seq<Seq<u32>>>,
    lists: Seq<Vec<u32>>,
)
    requires
        config.local_built(store.len as int),
        config.global_built(store.len as int, cells.len() as int),
        can_be_linked(
            store,
            measure,
            centroid,
            covers,
            sq8,
            compare,
            score,
            cells,
            medoids,
            config,
            point_cell,
        ),
        forall|c: int|
            0 <= c < cells.len() ==> table_fits(
                store,
                config,
                measure,
                centroid,
                covers,
                cells,
                #[trigger] tables[c],
                c,
            ),
        lists.len() == store.len,
        forall|a: int, b: u32|
            0 <= a < store.len ==> (#[trigger] has_edge(lists, a, b) <==> local_edge(
                cells,
                config.m_local as int,
                tables,
                a,
                b as int,
            )),
    ensures
        distinct_count(lists) <= u32::MAX,
{
    let m = config.m_local as int;
    let graph = choose|graph: Graph|
        #[trigger] is_assembled(
            &graph,
            store,
            measure,
            centroid,
            covers,
            sq8,
            compare,
            score,
            cells,
            medoids,
            config,
            point_cell,
        );
    let (others, local, subsets) = choose|
        tables: Seq<Seq<Seq<u32>>>,
        local: Graph,
        subsets: Seq<Vec<usize>>,
    |
        #[trigger] assembled(
            &graph,
            store,
            measure,
            centroid,
            covers,
            sq8,
            compare,
            score,
            cells,
            medoids,
            config,
            point_cell,
            tables,
            &local,
            subsets,
        );
    assert forall|a: int| 0 <= a < lists.len() implies ascending(#[trigger] local.row(a)) && forall|b: u32|
        local.row(a).contains(b) <==> lists[a]@.contains(b) by {
        assert forall|b: u32| local.row(a).contains(b) <==> lists[a]@.contains(b) by {
            assert(local.edge(a, b) <==> local_edge(cells, m, others, a, b as int));
            assert(has_edge(lists, a, b) <==> local_edge(cells, m, tables, a, b as int));
            if local_edge(cells, m, others, a, b as int) {
                local_edges_agree(
                    store,
                    measure,
                    centroid,
                    covers,
                    cells,
                    config,
                    others,
                    tables,
                    a,
                    b as int,
                );
            }
            if local_edge(cells, m, tables, a, b as int) {
                local_edges_agree(
                    store,
                    measure,
                    centroid,
                    covers,
                    cells,
                    config,
                    tables,
                    others,
                    a,
                    b as int,
                );
            }
        }
    }
    frozen_lists_are_few(&local, lists);
}

/// Where some graph has the edges, they are not too many.
proof fn lists_are_held<
    D: Fn(Metric, &[u32], &[u32]) -> u32,
    C: Fn(&[u32], usize) -> Vec<u32>,
    P: Fn(u32, u32, u32, u32) -> bool,
    Q: Fn(&[u8], &[u8], &[u32]) -> u32,
    W: Fn(u32, usize, u32) -> u32,
>(
    store: &PointStore,
    measure: Measure<D>,
    centroid: C,
    covers: P,
    sq8: &SQ8Store,
    compare: Q,
    score: W,
    cells: Seq<Cell>,
    medoids: Seq<u32>,
    config: &PrismConfig,
    point_cell: Seq<u32>,
    tables: Seq<Seq<Seq<u32>>>,
    local: &Graph,
    subsets: Seq<Vec<usize>>,
    lists: Seq<Vec<u32>>,
)
    requires
        store.wf(),
        cells.len() <= store.len,
        cells_told(cells, point_cell, store.len as int),
        medoids.len() == cells.len(),
        forall|c: int| 0 <= c < medoids.len() ==> #[trigger] medoids[c] < store.len,
        config.beam_width > 0,
        can_be_linked(
            store,
            measure,
            centroid,
            covers,
            sq8,
            compare,
            score,
            cells,
            medoids,
            config,
            point_cell,
        ),
        links_fit(store, measure, centroid, covers, cells, config, tables, local, subsets),
        lists.len() == store.len,
        forall|a: int, b: u32| 0 <= a < store.len && #[trigger] has_edge(lists, a, b) ==> b < store.len,
        forall|a: int, b: u32|
            0 <= a < store.len && b < store.len ==> (#[trigger] has_edge(lists, a, b) <==> due_edge(
                store,
                measure,
                sq8,
                compare,
                score,
                cells,
                medoids,
                config,
                point_cell,
                tables,
                local,
                subsets,
                a,
                b,
            )),
    ensures
        distinct_count(lists) <= u32::MAX,
{
    let graph = choose|graph: Graph|
        #[trigger] is_assembled(
            &graph,
            store,
            measure,
            centroid,
            covers,
            sq8,
            compare,
            score,
            cells,
            medoids,
            config,
            point_cell,
        );
    let (ta, la, sa) = choose|tables: Seq<Seq<Seq<u32>>>, local: Graph, subsets: Seq<Vec<usize>>|
        #[trigger] assembled(
            &graph,
            store,
            measure,
            centroid,
            covers,
            sq8,
            compare,
            score,
            cells,
            medoids,
            config,
            point_cell,
            tables,
            &local,
            subsets,
        );
    assert forall|a: int| 0 <= a < lists.len() implies ascending(#[trigger] graph.row(a)) && forall|b: u32|
        graph.row(a).contains(b) <==> lists[a]@.contains(b) by {
        assert forall|b: u32| graph.row(a).contains(b) <==> lists[a]@.contains(b) by {
            assert(graph.edge(a, b) <==> due_edge(
                store,
                measure,
                sq8,
                compare,
                score,
                cells,
                medoids,
                config,
                point_cell,
                ta,
                &la,
                sa,
                a,
                b,
            ));
            due_edges_agree(
                store,
                measure,
                centroid,
                covers,
                sq8,
                compare,
                score,
                cells,
                medoids,
                config,
                point_cell,
                ta,
                &la,
                sa,
                tables,
                local,
                subsets,
                a,
                b,
            );
            assert(has_edge(lists, a, b) == lists[a]@.contains(b));
        }
    }
    frozen_lists_are_few(&graph, lists);
}

/// More edges than an index with these settings can have.
pub open spec fn edge_budget(config: &PrismConfig, n: int) -> int {
    n * (config.m_local + config.m_greedy + config.m_random + 4)
}

/// Small tables fit.
proof fn budget_is_enough(config: &PrismConfig, n: int, cell_count: int)
    requires
        0 < n,
        0 <= cell_count <= n,
        edge_budget(config, n) <= u32::MAX,
        config.beam_width > 0,
    ensures
        countable(n),
        cell_count > 1 ==> cross_verdict(config, n, cell_count) is Accepted,
{
    assert(4 * n <= edge_budget(config, n)) by (nonlinear_arith)
        requires
            n > 0,
            edge_budget(config, n) == n * (config.m_local + config.m_greedy + config.m_random + 4),
    ;
    if cell_count > 1 {
        let beam = cross_beam(config, n);
        ranked_cells_are_foreign(config, cell_count, beam, 0);
        let targets = target_count(cell_count, config.m_greedy as int, beam);
        assert(targets <= config.m_greedy + 4);
        assert(cell_count * targets <= edge_budget(config, n)) by (nonlinear_arith)
            requires
                0 <= cell_count <= n,
                0 <= targets <= config.m_greedy + 4,
                edge_budget(config, n) == n * (config.m_local + config.m_greedy + config.m_random
                    + 4),
        ;
        let share = cell_share(beam, targets);
        assert(share * targets <= 2 * n) by (nonlinear_arith)
            requires
                share <= beam / targets + 1,
                0 < targets <= beam <= n,
        ;
    }
}

/// All edges of an index.
pub fn assemble_edges<
    D: Fn(Metric, &[u32], &[u32]) -> u32,
    C: Fn(&[u32], usize) -> Vec<u32>,
    P: Fn(u32, u32, u32, u32) -> bool,
    Q: Fn(&[u8], &[u8], &[u32]) -> u32,
    W: Fn(u32, usize, u32) -> u32,
>(
    store: &PointStore,
    measure: &Measure<D>,
    centroid: &C,
    covers: &P,
    sq8: &SQ8Store,
    compare: &Q,
    score: &W,
    cells: &Vec<Cell>,
    medoids: &Vec<u32>,
    config: &PrismConfig,
    point_cell: &Vec<u32>,
) -> (result: PrismResult<Graph>)
    requires
        store.wf(),
        store.len > 0,
        sq8.wf(),
        sq8.dim == store.dim,
        config.local_built(store.len as int) ==> sq8.count() == store.len,
        cells_cover(cells@, store.len as int),
        cells_told(cells@, point_cell@, store.len as int),
        medoids@.len() == cells@.len(),
        cells@.len() <= store.len,
        forall|c: int| 0 <= c < medoids@.len() ==> #[trigger] medoids@[c] < store.len,
        config.beam_width > 0,
        config.global_built(store.len as int, cells@.len() as int) && config.m_greedy > 0
            ==> covering_verdict(store.arity(), strength_used(config, store.arity())) is Accepted,
        measure.metric == config.metric,
        measure.fits(store.dim as int),
        gives_means(*centroid, store.dim),
        total4(*covers),
        compares_codes(*compare, sq8.dim as int),
        total3(*score),
    ensures
        result is Err ==> refused_size(result),
        result is Ok <==> can_be_linked(
            store,
            *measure,
            *centroid,
            *covers,
            sq8,
            *compare,
            *score,
            cells@,
            medoids@,
            config,
            point_cell@,
        ),
        edge_budget(config, store.len as int) <= u32::MAX ==> result is Ok,
        result matches Ok(graph) ==> is_assembled(
            &graph,
            store,
            *measure,
            *centroid,
            *covers,
            sq8,
            *compare,
            *score,
            cells@,
            medoids@,
            config,
            point_cell@,
        ),
{
    let n: usize = store.len();
    let ghost m = config.m_local as int;
    let ghost g = config.m_greedy as int;
    let ghost r = config.m_random as int;
    proof {
        if edge_budget(config, n as int) <= u32::MAX {
            budget_is_enough(config, n as int, cells@.len() as int);
        }
        assert(n * (m + 2) + n * g + n * r + 2 * n == edge_budget(config, n as int))
            by (nonlinear_arith)
            requires
                edge_budget(config, n as int) == n * (m + g + r + 4),
        ;
        assert(n * (m + 2) >= 0 && n * g >= 0 && n * r >= 0) by (nonlinear_arith)
            requires
                n >= 0,
                m >= 0,
                g >= 0,
                r >= 0,
        ;
    }
    let mut adj = match AdjBuilder::new(n) {
        Ok(adj) => adj,
        Err(error) => {
            return Err(error);
        },
    };
    let ghost mut tables: Seq<Seq<Seq<u32>>> = Seq::empty();
    let ghost mut subsets: Seq<Vec<usize>> = Seq::empty();
    let ghost mut local_used: Graph = arbitrary();
    if config.builds_local_graph(n) {
        let Ghost(made) = build_local_edges(
            store,
            cells,
            config,
            measure,
            centroid,
            covers,
            &mut adj,
        );
        proof {
            tables = made;
            distinct_is_fewer(adj.adj@);
        }
    } else {
        proof {
            assert(entry_count(adj.adj@) == 0) by {
                crate::assemble::lists_without_edges(adj.adj@);
            }
        }
    }
    let ghost first = adj.adj@;
    if config.builds_global_graph(n, cells.len()) {
        let local = match adj.snapshot() {
            Ok(local) => local,
            Err(error) => {
                proof {
                    if can_be_linked(
                        store,
                        *measure,
                        *centroid,
                        *covers,
                        sq8,
                        *compare,
                        *score,
                        cells@,
                        medoids@,
                        config,
                        point_cell@,
                    ) {
                        local_lists_are_held(
                            store,
                            *measure,
                            *centroid,
                            *covers,
                            sq8,
                            *compare,
                            *score,
                            cells@,
                            medoids@,
                            config,
                            point_cell@,
                            tables,
                            first,
                        );
                    }
                }
                return Err(error);
            },
        };
        proof {
            local_used = local;
            assert forall|a: int, b: u32| 0 <= a < n implies (#[trigger] local.edge(a, b) <==> local_edge(
                cells@,
                m,
                tables,
                a,
                b as int,
            )) by {
                assert(ascending(local.row(a)));
                assert(has_edge(first, a, b) <==> local_edge(cells@, m, tables, a, b as int));
            }
        }
        match build_greedy_cross_edges(
            store,
            measure,
            sq8,
            compare,
            score,
            &local,
            cells,
            medoids,
            config,
            point_cell,
            &mut adj,
        ) {
            Ok(()) => {},
            Err(error) => {
                return Err(error);
            },
        }
        let ghost second = adj.adj@;
        proof {
            if config.m_greedy > 0 {
                subsets = choose|some: Seq<Vec<usize>>|
                    covers_attributes(
                        some,
                        store.arity(),
                        strength_used(config, store.arity()),
                    ) && #[trigger] cross_linked(
                        first,
                        second,
                        store,
                        *measure,
                        sq8,
                        *compare,
                        *score,
                        &local,
                        cells@,
                        medoids@,
                        config,
                        some,
                        point_cell@,
                    );
            }
            assert(entry_count(second) <= n * (m + 2) + n * g);
        }
        build_random_overlay_seeded(n, config.m_random, config.build_seed, &mut adj);
        let ghost third = adj.adj@;
        add_medoid_backbone(medoids, &mut adj);
        proof {
            assert forall|a: int, b: u32| 0 <= a < n && b < n implies (#[trigger] has_edge(adj.adj@, a, b)
                <==> due_edge(
                store,
                *measure,
                sq8,
                *compare,
                *score,
                cells@,
                medoids@,
                config,
                point_cell@,
                tables,
                &local_used,
                subsets,
                a,
                b,
            )) by {
                assert(has_edge(third, a, b) || true);
                assert(has_edge(second, a, b) || true);
                assert(has_edge(first, a, b) || true);
            }
        }
    } else {
        proof {
            assert forall|a: int, b: u32| 0 <= a < n && b < n implies (#[trigger] has_edge(adj.adj@, a, b)
                <==> due_edge(
                store,
                *measure,
                sq8,
                *compare,
                *score,
                cells@,
                medoids@,
                config,
                point_cell@,
                tables,
                &local_used,
                subsets,
                a,
                b,
            )) by {
                if !config.local_built(n as int) {
                    assert(adj.adj@[a]@.len() == 0);
                }
            }
        }
    }
    let ghost last = adj.adj@;
    proof {
        distinct_is_fewer(last);
        assert(entry_count(last) <= edge_budget(config, n as int));
    }
    assert forall|a: int, b: u32| 0 <= a < n && #[trigger] has_edge(last, a, b) implies b < n by {
        let at = choose|at: int| 0 <= at < last[a]@.len() && last[a]@[at] == b;
        assert(crate::graph::names_nodes(last[a]@, n as int));
        assert(last[a]@[at] < n);
    }
    match adj.build() {
        Ok(graph) => {
            proof {
                assert forall|a: int, b: u32| 0 <= a < n implies (#[trigger] graph.edge(a, b) <==> due_edge(
                    store,
                    *measure,
                    sq8,
                    *compare,
                    *score,
                    cells@,
                    medoids@,
                    config,
                    point_cell@,
                    tables,
                    &local_used,
                    subsets,
                    a,
                    b,
                )) by {
                    assert(ascending(graph.row(a)));
                    assert(graph.row(a).contains(b) <==> last[a]@.contains(b));
                    assert(has_edge(last, a, b) <==> graph.edge(a, b));
                }
                assert(assembled(
                    &graph,
                    store,
                    *measure,
                    *centroid,
                    *covers,
                    sq8,
                    *compare,
                    *score,
                    cells@,
                    medoids@,
                    config,
                    point_cell@,
                    tables,
                    &local_used,
                    subsets,
                ));
                assert(is_assembled(
                    &graph,
                    store,
                    *measure,
                    *centroid,
                    *covers,
                    sq8,
                    *compare,
                    *score,
                    cells@,
                    medoids@,
                    config,
                    point_cell@,
                ));
            }
            Ok(graph)
        },
        Err(error) => {
            proof {
                if can_be_linked(
                    store,
                    *measure,
                    *centroid,
                    *covers,
                    sq8,
                    *compare,
                    *score,
                    cells@,
                    medoids@,
                    config,
                    point_cell@,
                ) {
                    lists_are_held(
                        store,
                        *measure,
                        *centroid,
                        *covers,
                        sq8,
                        *compare,
                        *score,
                        cells@,
                        medoids@,
                        config,
                        point_cell@,
                        tables,
                        &local_used,
                        subsets,
                        last,
                    );
                }
            }
            Err(error)
        },
    }
}

/// Point `p` is in cell `c`.
pub open spec fn in_cell(cells: Seq<Cell>, c: int, p: int) -> bool {
    let ids = cells[c].point_ids@;
    0 <= c < cells.len() && ids[0] <= p < ids[0] + ids.len()
}

proof fn in_cell_is_listed(cells: Seq<Cell>, n: int, c: int, p: int)
    requires
        cells_cover(cells, n),
        n <= u32::MAX,
        0 <= c < cells.len(),
    ensures
        in_cell(cells, c, p) ==> 0 <= p < n && cells[c].point_ids@.contains(p as u32),
        0 <= p <= u32::MAX && cells[c].point_ids@.contains(p as u32) ==> in_cell(cells, c, p),
        cells[c].point_ids@.last() == cells[c].point_ids@[0] + cells[c].point_ids@.len() - 1,
{
    let ids = cells[c].point_ids@;
    assert(is_range(ids) && ids.len() > 0);
    assert(ids[ids.len() - 1] == ids[0] + (ids.len() - 1));
    if in_cell(cells, c, p) {
        assert(ids[p - ids[0]] == ids[0] + (p - ids[0]));
        assert(cells[c].point_ids@[p - ids[0]] < n);
    }
    if 0 <= p <= u32::MAX && ids.contains(p as u32) {
        let i = choose|i: int| 0 <= i < ids.len() && ids[i] == p as u32;
        assert(ids[i] == ids[0] + i);
    }
}

/// A point is in one cell only.
proof fn one_cell(cells: Seq<Cell>, n: int, c: int, d: int, p: int)
    requires
        cells_cover(cells, n),
        in_cell(cells, c, p),
        in_cell(cells, d, p),
    ensures
        c == d,
{
    if c < d {
        assert(cells[c].point_ids@[0] + cells[c].point_ids@.len() <= cells[d].point_ids@[0]);
    }
    if d < c {
        assert(cells[d].point_ids@[0] + cells[d].point_ids@.len() <= cells[c].point_ids@[0]);
    }
}

/// The graph has the edges within cell `c`.
pub open spec fn holds_cell(
    graph: &Graph,
    cells: Seq<Cell>,
    m_local: int,
    tables: Seq<Seq<Seq<u32>>>,
    c: int,
) -> bool {
    forall|a: int, b: u32|
        #[trigger] linked_in(cells, m_local, tables, c, a, b as int) ==> graph.edge(a, b)
}

/// Within a cell every point leads to every other.
proof fn cell_is_connected(
    graph: &Graph,
    cells: Seq<Cell>,
    m_local: int,
    tables: Seq<Seq<Seq<u32>>>,
    n: int,
    c: int,
    a: u32,
    b: u32,
)
    requires
        cells_cover(cells, n),
        n <= u32::MAX,
        in_cell(cells, c, a as int),
        in_cell(cells, c, b as int),
        holds_cell(graph, cells, m_local, tables, c),
    ensures
        connected(
            graph,
            cells[c].point_ids@[0] as int,
            cells[c].point_ids@.last() as int,
            a,
            b,
        ),
    decreases if a < b {
        b - a
    } else {
        a - b
    },
{
    let ids = cells[c].point_ids@;
    let low = ids[0] as int;
    let high = ids.last() as int;
    in_cell_is_listed(cells, n, c, a as int);
    in_cell_is_listed(cells, n, c, b as int);
    connected_to_itself(graph, low, high, a);
    if a != b {
        if is_small(cells, m_local, c) {
            assert(both_in(cells, c, a as int, b as int));
            assert(linked_in(cells, m_local, tables, c, a as int, b as int));
            one_step_further(graph, low, high, a, a, b);
        } else if a < b {
            let near = (b - 1) as u32;
            cell_is_connected(graph, cells, m_local, tables, n, c, a, near);
            assert(both_in(cells, c, near as int, b as int));
            assert(linked_in(cells, m_local, tables, c, near as int, b as int));
            one_step_further(graph, low, high, a, near, b);
        } else {
            let near = (b + 1) as u32;
            cell_is_connected(graph, cells, m_local, tables, n, c, a, near);
            assert(both_in(cells, c, near as int, b as int));
            assert(linked_in(cells, m_local, tables, c, near as int, b as int));
            one_step_further(graph, low, high, a, near, b);
        }
    }
}

/// Where the entries of neighbouring cells are linked, each leads to every
/// other.
proof fn entries_are_connected(graph: &Graph, medoids: Seq<u32>, n: int, c: int, d: int)
    requires
        0 <= c < medoids.len(),
        0 <= d < medoids.len(),
        forall|i: int| 0 <= i < medoids.len() ==> #[trigger] medoids[i] < n,
        forall|a: int, b: u32|
            0 <= a < n && #[trigger] backbone_edge(medoids, a, b as int) ==> graph.edge(a, b),
    ensures
        connected(graph, 0, n - 1, medoids[c], medoids[d]),
    decreases if c < d {
        d - c
    } else {
        c - d
    },
{
    connected_to_itself(graph, 0, n - 1, medoids[c]);
    if c < d {
        entries_are_connected(graph, medoids, n, c, d - 1);
        assert(backbone_at(medoids, d - 1, medoids[d - 1] as int, medoids[d] as int));
        assert(backbone_edge(medoids, medoids[d - 1] as int, medoids[d] as int));
        one_step_further(graph, 0, n - 1, medoids[c], medoids[d - 1], medoids[d]);
    } else if d < c {
        entries_are_connected(graph, medoids, n, c, d + 1);
        assert(backbone_at(medoids, d, medoids[d + 1] as int, medoids[d] as int));
        assert(backbone_edge(medoids, medoids[d + 1] as int, medoids[d] as int));
        one_step_further(graph, 0, n - 1, medoids[c], medoids[d + 1], medoids[d]);
    }
}

/// A graph without edges has no entries.
proof fn no_edges_no_entries(graph: &Graph, i: int)
    requires
        graph.wf(),
        0 <= i <= graph.n,
        forall|a: int, b: u32| 0 <= a < graph.n ==> !#[trigger] graph.edge(a, b),
    ensures
        graph.offsets@[i] == 0,
    decreases i,
{
    if i > 0 {
        no_edges_no_entries(graph, i - 1);
        assert(graph.offsets@[i] <= graph.offsets@[graph.n as int]);
        if graph.offsets@[i] > 0 {
            let row = graph.row(i - 1);
            assert(row.len() > 0);
            assert(row.contains(row[0]));
            assert(graph.edge(i - 1, row[0]));
        }
    }
}

/// The entries of the cells are where they belong.
pub open spec fn entries_fit(cells: Seq<Cell>, medoids: Seq<u32>) -> bool {
    &&& medoids.len() == cells.len()
    &&& forall|c: int| 0 <= c < cells.len() ==> (#[trigger] cells[c]).point_ids@.contains(medoids[c])
}

/// An edge within cells joins two different points of one cell.
proof fn local_edge_stays(
    cells: Seq<Cell>,
    m_local: int,
    tables: Seq<Seq<Seq<u32>>>,
    n: int,
    a: int,
    b: int,
    c: int,
)
    requires
        cells_cover(cells, n),
        local_edge(cells, m_local, tables, a, b),
        in_cell(cells, c, a),
    ensures
        in_cell(cells, c, b),
{
    let d = choose|d: int| #[trigger] linked_in(cells, m_local, tables, d, a, b);
    assert(both_in(cells, d, a, b));
    one_cell(cells, n, c, d, a);
}

/// The assembled edges serve the searches of the index.
pub proof fn assembled_edges_serve<
    D: Fn(Metric, &[u32], &[u32]) -> u32,
    C: Fn(&[u32], usize) -> Vec<u32>,
    P: Fn(u32, u32, u32, u32) -> bool,
    Q: Fn(&[u8], &[u8], &[u32]) -> u32,
    W: Fn(u32, usize, u32) -> u32,
>(
    graph: &Graph,
    store: &PointStore,
    measure: Measure<D>,
    centroid: C,
    covers: P,
    sq8: &SQ8Store,
    compare: Q,
    score: W,
    cells: Seq<Cell>,
    medoids: Seq<u32>,
    global_medoid: u32,
    config: &PrismConfig,
    point_cell: Seq<u32>,
)
    requires
        store.wf(),
        store.len > 0,
        cells_cover(cells, store.len as int),
        cells.len() <= store.len,
        cells_told(cells, point_cell, store.len as int),
        entries_fit(cells, medoids),
        global_medoid < store.len,
        config.beam_width > 0,
        is_assembled(
            graph,
            store,
            measure,
            centroid,
            covers,
            sq8,
            compare,
            score,
            cells,
            medoids,
            config,
            point_cell,
        ),
    ensures
        graph_fits(
            graph,
            cells,
            medoids,
            global_medoid,
            point_cell,
            config,
            store.len as int,
        ),
{
    let n = store.len as int;
    let m = config.m_local as int;
    let (tables, local, subsets) = choose|
        tables: Seq<Seq<Seq<u32>>>,
        local: Graph,
        subsets: Seq<Vec<usize>>,
    |
        #[trigger] assembled(
            graph,
            store,
            measure,
            centroid,
            covers,
            sq8,
            compare,
            score,
            cells,
            medoids,
            config,
            point_cell,
            tables,
            &local,
            subsets,
        );
    assert forall|p: int| 0 <= p < n implies in_cell(cells, #[trigger] point_cell[p] as int, p) by {
        in_cell_is_listed(cells, n, point_cell[p] as int, p);
    }
    assert forall|c: int| 0 <= c < medoids.len() implies in_cell(cells, c, #[trigger] medoids[c] as int)
        && medoids[c] < n by {
        assert(cells[c].point_ids@.contains(medoids[c]));
        in_cell_is_listed(cells, n, c, medoids[c] as int);
    }
    let global = config.global_built(n, cells.len() as int);
    if config.local_built(n) && global {
        assert forall|c: int| 0 <= c < cells.len() implies is_range(
            (#[trigger] cells[c]).point_ids@,
        ) && cells[c].point_ids@.contains(medoids[c]) && cell_is_closed(&local, cells, c) by {
            let first = cells[c].point_ids@[0] as int;
            let end = first + cells[c].point_ids@.len();
            assert forall|a: int, b: u32|
                first <= a < end && #[trigger] local.edge(a, b) implies first <= b < end by {
                assert(in_cell(cells, c, a));
                in_cell_is_listed(cells, n, c, a);
                local_edge_stays(cells, m, tables, n, a, b as int, c);
            }
        }
        assert(cells_are_closed(&local, cells, medoids));
    }
    assert(is_canonical(graph)) by {
        assert forall|i: int| 0 <= i < graph.n implies ascending(#[trigger] graph.row(i))
            && !graph.row(i).contains(i as u32) by {
            if graph.row(i).contains(i as u32) {
                assert(graph.edge(i, i as u32));
                self_edge_is_absurd(
                    store,
                    measure,
                    centroid,
                    covers,
                    sq8,
                    compare,
                    score,
                    cells,
                    medoids,
                    config,
                    point_cell,
                    tables,
                    &local,
                    subsets,
                    i,
                );
            }
        }
    }
    if !config.local_built(n) {
        assert forall|a: int, b: u32| 0 <= a < graph.n implies !#[trigger] graph.edge(a, b) by {}
        no_edges_no_entries(graph, n);
    } else {
        assert forall|c: int| 0 <= c < cells.len() implies holds_cell(graph, cells, m, tables, c)
            && #[trigger] cell_spanned(graph, cells, medoids, c) by {
            assert forall|a: int, b: u32|
                #[trigger] linked_in(cells, m, tables, c, a, b as int) implies graph.edge(a, b) by {
                assert(both_in(cells, c, a, b as int));
                in_cell_is_listed(cells, n, c, a);
                in_cell_is_listed(cells, n, c, b as int);
                assert(local_edge(cells, m, tables, a, b as int));
            }
            let low = cells[c].point_ids@[0] as int;
            let high = cells[c].point_ids@.last() as int;
            in_cell_is_listed(cells, n, c, medoids[c] as int);
            assert forall|b: u32| low <= b <= high implies #[trigger] connected(
                graph,
                low,
                high,
                medoids[c],
                b,
            ) by {
                assert(in_cell(cells, c, medoids[c] as int));
                cell_is_connected(graph, cells, m, tables, n, c, medoids[c], b);
            }
        }
        if global {
            assert forall|b: u32| 0 <= b <= n - 1 implies #[trigger] connected(
                graph,
                0,
                n - 1,
                global_medoid,
                b,
            ) by {
                let c = point_cell[global_medoid as int] as int;
                let d = point_cell[b as int] as int;
                assert(cell_spanned(graph, cells, medoids, c));
                assert(cell_spanned(graph, cells, medoids, d));
                assert(in_cell(cells, c, medoids[c] as int));
                in_cell_is_listed(cells, n, c, global_medoid as int);
                in_cell_is_listed(cells, n, d, b as int);
                let low = cells[c].point_ids@[0] as int;
                let high = cells[c].point_ids@.last() as int;
                in_cell_is_listed(cells, n, c, high);
                cell_is_connected(graph, cells, m, tables, n, c, global_medoid, medoids[c]);
                connected_in_more(graph, low, high, graph, 0, n - 1, global_medoid, medoids[c]);
                assert forall|x: int, y: u32|
                    0 <= x < n && #[trigger] backbone_edge(medoids, x, y as int) implies graph.edge(
                    x,
                    y,
                ) by {
                    let i = choose|i: int|
                        0 <= i < medoids.len() - 1 && #[trigger] backbone_at(medoids, i, x, y as int);
                    assert(medoids[i] < n && medoids[i + 1] < n);
                }
                entries_are_connected(graph, medoids, n, c, d);
                connected_through(graph, 0, n - 1, global_medoid, medoids[c], medoids[d]);
                let low = cells[d].point_ids@[0] as int;
                let high = cells[d].point_ids@.last() as int;
                in_cell_is_listed(cells, n, d, high);
                assert(connected(graph, low, high, medoids[d], b));
                connected_in_more(graph, low, high, graph, 0, n - 1, medoids[d], b);
                connected_through(graph, 0, n - 1, global_medoid, medoids[d], b);
            }
        } else {
            assert forall|a: int, b: u32| 0 <= a < graph.n && #[trigger] graph.edge(a, b) implies point_cell[b as int]
                == point_cell[a] by {
                let c = point_cell[a] as int;
                assert(in_cell(cells, c, a));
                local_edge_stays(cells, m, tables, n, a, b as int, c);
                assert(in_cell(cells, point_cell[b as int] as int, b as int));
                one_cell(cells, n, c, point_cell[b as int] as int, b as int);
            }
        }
    }
}

/// No point is due an edge to itself.
proof fn self_edge_is_absurd<
    D: Fn(Metric, &[u32], &[u32]) -> u32,
    C: Fn(&[u32], usize) -> Vec<u32>,
    P: Fn(u32, u32, u32, u32) -> bool,
    Q: Fn(&[u8], &[u8], &[u32]) -> u32,
    W: Fn(u32, usize, u32) -> u32,
>(
    store: &PointStore,
    measure: Measure<D>,
    centroid: C,
    covers: P,
    sq8: &SQ8Store,
    compare: Q,
    score: W,
    cells: Seq<Cell>,
    medoids: Seq<u32>,
    config: &PrismConfig,
    point_cell: Seq<u32>,
    tables: Seq<Seq<Seq<u32>>>,
    local: &Graph,
    subsets: Seq<Vec<usize>>,
    a: int,
)
    requires
        store.wf(),
        0 <= a < store.len,
        cells_cover(cells, store.len as int),
        cells.len() <= store.len,
        cells_told(cells, point_cell, store.len as int),
        entries_fit(cells, medoids),
        config.beam_width > 0,
        config.local_built(store.len as int) ==> tables.len() == cells.len() && forall|c: int|
            0 <= c < cells.len() ==> table_fits(
                store,
                config,
                measure,
                centroid,
                covers,
                cells,
                #[trigger] tables[c],
                c,
            ),
        config.global_built(store.len as int, cells.len() as int) ==> cells_are_closed(
            local,
            cells,
            medoids,
        ),
    ensures
        !due_edge(
            store,
            measure,
            sq8,
            compare,
            score,
            cells,
            medoids,
            config,
            point_cell,
            tables,
            local,
            subsets,
            a,
            a as u32,
        ),
{
    let n = store.len as int;
    let m = config.m_local as int;
    if config.local_built(n) && local_edge(cells, m, tables, a, a) {
        let c = choose|c: int| #[trigger] linked_in(cells, m, tables, c, a, a);
        assert(both_in(cells, c, a, a));
        let first = cells[c].point_ids@[0] as int;
        if !is_small(cells, m, c) {
            assert(table_fits(store, config, measure, centroid, covers, cells, tables[c], c));
            let list = tables[c][a - first];
            assert(list_fits(list, cells[c].point_ids@.len() as int, a - first));
            let j = choose|j: int| 0 <= j < list.len() && list[j] == (a - first) as u32;
            assert(list[j] != a - first);
        }
    }
    if config.global_built(n, cells.len() as int) {
        let own = point_cell[a] as int;
        in_cell_is_listed(cells, n, own, a);
        if cross_edge(
            store,
            measure,
            sq8,
            compare,
            score,
            local,
            cells,
            medoids,
            config,
            subsets,
            point_cell,
            a,
            a as u32,
        ) {
            cross_neighbors_are_foreign(
                store,
                measure,
                sq8,
                compare,
                score,
                local,
                cells,
                medoids,
                config,
                subsets,
                cross_beam(config, n),
                own,
                a as u32,
                a as u32,
            );
            let c = choose|c: int|
                0 <= c < cells.len() && c != own && #[trigger] cells[c].point_ids@.contains(
                    a as u32,
                );
            in_cell_is_listed(cells, n, c, a);
            one_cell(cells, n, c, own, a);
        }
        if backbone_edge(medoids, a, a) {
            let i = choose|i: int|
                0 <= i < medoids.len() - 1 && #[trigger] backbone_at(medoids, i, a, a);
            assert(cells[i].point_ids@.contains(medoids[i]));
            assert(cells[i + 1].point_ids@.contains(medoids[i + 1]));
            in_cell_is_listed(cells, n, i, a);
            in_cell_is_listed(cells, n, i + 1, a);
            one_cell(cells, n, i, i + 1, a);
        }
        let rounds = overlay_rounds(config.m_random as int, n);
        if overlay_edge(config.build_seed, n, rounds, a, a) {
            let r = choose|r: int|
                0 <= r < rounds && #[trigger] round_links(config.build_seed, n, r, a, a);
        }
    }
}

/// Where searches stay within cells, no point has more than two neighbours
/// beyond the number that pruning aims at.
pub proof fn local_degree_is_bounded<
    D: Fn(Metric, &[u32], &[u32]) -> u32,
    C: Fn(&[u32], usize) -> Vec<u32>,
    P: Fn(u32, u32, u32, u32) -> bool,
    Q: Fn(&[u8], &[u8], &[u32]) -> u32,
    W: Fn(u32, usize, u32) -> u32,
>(
    graph: &Graph,
    store: &PointStore,
    measure: Measure<D>,
    centroid: C,
    covers: P,
    sq8: &SQ8Store,
    compare: Q,
    score: W,
    cells: Seq<Cell>,
    medoids: Seq<u32>,
    config: &PrismConfig,
    point_cell: Seq<u32>,
    a: int,
)
    requires
        store.wf(),
        0 <= a < store.len,
        cells_cover(cells, store.len as int),
        !config.global_built(store.len as int, cells.len() as int),
        is_assembled(
            graph,
            store,
            measure,
            centroid,
            covers,
            sq8,
            compare,
            score,
            cells,
            medoids,
            config,
            point_cell,
        ),
    ensures
        graph.row(a).len() <= config.m_local + 2,
{
    let n = store.len as int;
    let m = config.m_local as int;
    let (tables, local, subsets) = choose|
        tables: Seq<Seq<Seq<u32>>>,
        local: Graph,
        subsets: Seq<Vec<usize>>,
    |
        #[trigger] assembled(
            graph,
            store,
            measure,
            centroid,
            covers,
            sq8,
            compare,
            score,
            cells,
            medoids,
            config,
            point_cell,
            tables,
            &local,
            subsets,
        );
    let row = graph.row(a);
    if row.len() > 0 {
        assert(ascending(row));
        crate::order::ascending_is_sorted(row);
        row.unique_seq_to_set();
        assert(graph.edge(a, row[0])) by {
            assert(row.contains(row[0]));
        }
        let c = choose|c: int| #[trigger] linked_in(cells, m, tables, c, a, row[0] as int);
        assert(both_in(cells, c, a, row[0] as int));
        let ids = cells[c].point_ids@;
        let first = ids[0] as int;
        assert forall|b: u32| row.contains(b) implies #[trigger] linked_in(
            cells,
            m,
            tables,
            c,
            a,
            b as int,
        ) by {
            assert(graph.edge(a, b));
            let d = choose|d: int| #[trigger] linked_in(cells, m, tables, d, a, b as int);
            assert(both_in(cells, d, a, b as int));
            one_cell(cells, n, c, d, a);
        }
        if is_small(cells, m, c) {
            vstd::set_lib::lemma_int_range(first, first + ids.len());
            let others = vstd::set_lib::set_int_range(first, first + ids.len()).remove(a);
            let used = row.map_values(|b: u32| b as int);
            assert(used.no_duplicates());
            used.unique_seq_to_set();
            assert(used.to_set().subset_of(others)) by {
                assert forall|x: int| used.to_set().contains(x) implies others.contains(x) by {
                    let i = choose|i: int| 0 <= i < used.len() && used[i] == x;
                    assert(row.contains(row[i]));
                    assert(linked_in(cells, m, tables, c, a, row[i] as int));
                    assert(both_in(cells, c, a, row[i] as int));
                }
            }
            vstd::set_lib::lemma_len_subset(used.to_set(), others);
        } else {
            assert(table_fits(store, config, measure, centroid, covers, cells, tables[c], c));
            let list = tables[c][a - first];
            assert(list.len() <= m);
            let near = list.map_values(|x: u32| first + x);
            near.lemma_cardinality_of_set();
            let all = near.to_set().insert(a - 1).insert(a + 1);
            let used = row.map_values(|b: u32| b as int);
            assert(used.no_duplicates());
            used.unique_seq_to_set();
            assert(used.to_set().subset_of(all)) by {
                assert forall|x: int| used.to_set().contains(x) implies all.contains(x) by {
                    let i = choose|i: int| 0 <= i < used.len() && used[i] == x;
                    assert(row.contains(row[i]));
                    assert(linked_in(cells, m, tables, c, a, row[i] as int));
                    assert(both_in(cells, c, a, row[i] as int));
                    if x != a - 1 && x != a + 1 {
                        assert(list.contains((x - first) as u32));
                        let j = choose|j: int| 0 <= j < list.len() && list[j] == (x - first) as u32;
                        assert(near[j] == x);
                    }
                }
            }
            vstd::set_lib::lemma_len_subset(used.to_set(), all);
        }
    }
}

} // verus!
