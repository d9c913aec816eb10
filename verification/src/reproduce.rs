//! The same points, settings and seed give the same layout and neighbour lists.

use vstd::prelude::*;
use crate::assemble::{
    both_in, cells_cover, cells_told, cross_beam, is_small, linked_in, local_edge, strength_used,
    table_fits,
};
use crate::binary::{equal_codes_make_equal_sketches, sketches_alike, standard_sketches_agree};
use crate::config::PrismConfig;
use crate::construct::{assembled, due_edge, entries_fit, is_assembled, links_fit};
use crate::covering::{choice_rounds, choices_agree, same_views, subset_list_is_unique};
use crate::cross::{
    all_contributed, cell_share, cell_width, contributed, cross_neighbors, exactly_nearest,
    target_count, targets_are_cells, targets_of,
};
use crate::distance::Metric;
use crate::graph::Graph;
use crate::index::{cell_fits, due_codes, layout_is_catalog, point_placed, PrismIndex};
use crate::indexing::{consecutive_cells_cover, entry_of, is_index_of, is_prepared, laid_out};
use crate::likeness::{
    assembly_depends_on_contents, codes_alike, medoids_agree, ranges_agree, same_cells, same_points,
};
use crate::order::ascending_is_unique;
use crate::partition::{
    catalogs, consecutive, holds_tuple, in_order, point_total, populated, Cell, PartitionTree,
};
use crate::point::{row_bounds, PointStore};
use crate::pure::{by_metric, Measure};
use crate::quantize::SQ8Store;
use crate::relayout::{spread, spread_is_a_permutation, spread_length};
use crate::tuples::{lex_less, lex_less_is_asymmetric};
use crate::walk::found_agrees;

verus! {

/// The graphs have the same nodes with the same neighbours.
pub open spec fn same_rows(one: &Graph, two: &Graph) -> bool {
    one.n == two.n && forall|a: int| 0 <= a < one.n ==> #[trigger] one.row(a) == two.row(a)
}

proof fn contributions_agree<
    D: Fn(Metric, &[u32], &[u32]) -> u32,
    Q: Fn(&[u8], &[u8], &[u32]) -> u32,
>(
    store: &PointStore,
    measure: Measure<D>,
    sq8: &SQ8Store,
    compare: Q,
    one: &Graph,
    two: &Graph,
    cells: Seq<Cell>,
    medoids: Seq<u32>,
    p: u32,
    targets: Seq<u32>,
    share: int,
    width: int,
    upto: int,
)
    requires
        same_rows(one, two),
        forall|a: int, b: u32| 0 <= a < one.n && #[trigger] one.edge(a, b) ==> b < one.n,
        forall|c: int| 0 <= c < medoids.len() ==> #[trigger] medoids[c] < one.n,
        forall|i: int| 0 <= i < targets.len() ==> #[trigger] targets[i] < medoids.len(),
        upto <= targets.len(),
    ensures
        all_contributed(store, measure, sq8, compare, one, cells, medoids, p, targets, share, width, upto)
            == all_contributed(store, measure, sq8, compare, two, cells, medoids, p, targets, share, width, upto),
    decreases upto,
{
    if upto > 0 {
        contributions_agree(
            store,
            measure,
            sq8,
            compare,
            one,
            two,
            cells,
            medoids,
            p,
            targets,
            share,
            width,
            upto - 1,
        );
        let c = targets[upto - 1] as int;
        assert(medoids[c] < one.n);
        found_agrees(sq8, compare, one, two, p, medoids[c], width);
        assert(contributed(store, measure, sq8, compare, one, cells, medoids, p, c, share, width) == contributed(
            store,
            measure,
            sq8,
            compare,
            two,
            cells,
            medoids,
            p,
            c,
            share,
            width,
        ));
    }
}

/// The cross neighbours depend on the rows of the local graph and on the
/// subsets of attributes, not on how these came about.
proof fn cross_neighbors_agree<
    D: Fn(Metric, &[u32], &[u32]) -> u32,
    Q: Fn(&[u8], &[u8], &[u32]) -> u32,
    W: Fn(u32, usize, u32) -> u32,
>(
    store: &PointStore,
    measure: Measure<D>,
    sq8: &SQ8Store,
    compare: Q,
    score: W,
    one: &Graph,
    two: &Graph,
    cells: Seq<Cell>,
    medoids: Seq<u32>,
    config: &PrismConfig,
    first: Seq<Vec<usize>>,
    second: Seq<Vec<usize>>,
    beam: int,
    cell: int,
    p: u32,
)
    requires
        same_rows(one, two),
        same_views(first, second),
        forall|a: int, b: u32| 0 <= a < one.n && #[trigger] one.edge(a, b) ==> b < one.n,
        forall|c: int| 0 <= c < medoids.len() ==> #[trigger] medoids[c] < one.n,
        1 < medoids.len() <= u32::MAX,
        0 < beam,
        0 <= cell < medoids.len(),
    ensures
        cross_neighbors(
            store,
            measure,
            sq8,
            compare,
            score,
            one,
            cells,
            medoids,
            config,
            first,
            beam,
            cell,
            p,
        ) == cross_neighbors(
            store,
            measure,
            sq8,
            compare,
            score,
            two,
            cells,
            medoids,
            config,
            second,
            beam,
            cell,
            p,
        ),
{
    let targets = targets_of(sq8, compare, medoids, config, beam, cell);
    let count = target_count(medoids.len() as int, config.m_greedy as int, beam);
    let share = cell_share(beam, count);
    let width = cell_width(beam, count, config.m_local as int);
    targets_are_cells(sq8, compare, medoids, config, beam, cell);
    contributions_agree(
        store,
        measure,
        sq8,
        compare,
        one,
        two,
        cells,
        medoids,
        p,
        targets,
        share,
        width,
        targets.len() as int,
    );
    let ids = all_contributed(
        store,
        measure,
        sq8,
        compare,
        one,
        cells,
        medoids,
        p,
        targets,
        share,
        width,
        targets.len() as int,
    );
    let candidates = exactly_nearest(store, measure, p, ids, beam);
    choices_agree(
        store,
        candidates,
        first,
        second,
        config.alpha,
        score,
        choice_rounds(candidates, config.m_greedy as int),
    );
}

/// Tables that both fit link the same points.
pub proof fn local_edges_agree<
    D: Fn(Metric, &[u32], &[u32]) -> u32,
    C: Fn(&[u32], usize) -> Vec<u32>,
    P: Fn(u32, u32, u32, u32) -> bool,
>(
    store: &PointStore,
    measure: Measure<D>,
    centroid: C,
    covers: P,
    cells: Seq<Cell>,
    config: &PrismConfig,
    one: Seq<Seq<Seq<u32>>>,
    two: Seq<Seq<Seq<u32>>>,
    a: int,
    b: int,
)
    requires
        forall|c: int|
            0 <= c < cells.len() ==> table_fits(
                store,
                config,
                measure,
                centroid,
                covers,
                cells,
                #[trigger] one[c],
                c,
            ),
        forall|c: int|
            0 <= c < cells.len() ==> table_fits(
                store,
                config,
                measure,
                centroid,
                covers,
                cells,
                #[trigger] two[c],
                c,
            ),
        local_edge(cells, config.m_local as int, one, a, b),
    ensures
        local_edge(cells, config.m_local as int, two, a, b),
{
    let m = config.m_local as int;
    let c = choose|c: int| #[trigger] linked_in(cells, m, one, c, a, b);
    assert(both_in(cells, c, a, b));
    if !is_small(cells, m, c) {
        assert(table_fits(store, config, measure, centroid, covers, cells, one[c], c));
        assert(table_fits(store, config, measure, centroid, covers, cells, two[c], c));
        assert(one[c] == two[c]);
    }
    assert(linked_in(cells, m, two, c, a, b));
}

/// The edges are the same whatever they are made from, as long as it fits.
pub proof fn due_edges_agree<
    D: Fn(Metric, &[u32], &[u32]) -> u32,
    C: Fn(&[u32], usize) -> Vec<u32>,
    P: Fn(u32, u32, u32, u32) -> bool,
    Q: Fn(&[u8], &[u8], &[u32]) -> u32,
    W: Fn(u32, usize, u32) -> u32,
>(
    store: &PointStore,
    measure: Measure<D>,
    centroid: C,
    covers: P,
    sq8: &SQ8Store,
    compare: Q,
    score: W,
    cells: Seq<Cell>,
    medoids: Seq<u32>,
    config: &PrismConfig,
    point_cell: Seq<u32>,
    ta: Seq<Seq<Seq<u32>>>,
    la: &Graph,
    sa: Seq<Vec<usize>>,
    tb: Seq<Seq<Seq<u32>>>,
    lb: &Graph,
    sb: Seq<Vec<usize>>,
    a: int,
    b: u32,
)
    requires
        store.wf(),
        cells.len() <= store.len,
        cells_told(cells, point_cell, store.len as int),
        medoids.len() == cells.len(),
        forall|c: int| 0 <= c < medoids.len() ==> #[trigger] medoids[c] < store.len,
        config.beam_width > 0,
        links_fit(store, measure, centroid, covers, cells, config, ta, la, sa),
        links_fit(store, measure, centroid, covers, cells, config, tb, lb, sb),
        0 <= a < store.len,
    ensures
        due_edge(
            store,
            measure,
            sq8,
            compare,
            score,
            cells,
            medoids,
            config,
            point_cell,
            ta,
            la,
            sa,
            a,
            b,
        ) == due_edge(
            store,
            measure,
            sq8,
            compare,
            score,
            cells,
            medoids,
            config,
            point_cell,
            tb,
            lb,
            sb,
            a,
            b,
        ),
{
    let n = store.len as int;
    let m = config.m_local as int;
    let global = config.global_built(n, cells.len() as int);
    if config.local_built(n) {
        if local_edge(cells, m, ta, a, b as int) {
            local_edges_agree(store, measure, centroid, covers, cells, config, ta, tb, a, b as int);
        }
        if local_edge(cells, m, tb, a, b as int) {
            local_edges_agree(store, measure, centroid, covers, cells, config, tb, ta, a, b as int);
        }
    }
    if global && config.m_greedy > 0 {
        assert forall|p: int| 0 <= p < n implies #[trigger] la.row(p) == lb.row(p) by {
            assert forall|q: u32| la.row(p).contains(q) <==> lb.row(p).contains(q) by {
                assert(la.edge(p, q) <==> local_edge(cells, m, ta, p, q as int));
                assert(lb.edge(p, q) <==> local_edge(cells, m, tb, p, q as int));
                if la.edge(p, q) {
                    local_edges_agree(store, measure, centroid, covers, cells, config, ta, tb, p, q as int);
                }
                if lb.edge(p, q) {
                    local_edges_agree(store, measure, centroid, covers, cells, config, tb, ta, p, q as int);
                }
            }
            ascending_is_unique(la.row(p), lb.row(p));
        }
        assert forall|p: int, q: u32| 0 <= p < n && #[trigger] la.edge(p, q) implies q < n by {
            let i = choose|i: int| 0 <= i < la.row(p).len() && la.row(p)[i] == q;
            assert(la.neighbors@[la.offsets@[p] + i] == q);
        }
        subset_list_is_unique(sa, sb, store.arity(), strength_used(config, store.arity()));
        cross_neighbors_agree(
            store,
            measure,
            sq8,
            compare,
            score,
            la,
            lb,
            cells,
            medoids,
            config,
            sa,
            sb,
            cross_beam(config, n),
            point_cell[a] as int,
            a as u32,
        );
    }
}

/// Points laid out in cells, with their codes and entry points, get the same
/// neighbour lists from the same settings whenever they are linked: the seed
/// fixes the construction.
pub proof fn assembly_is_reproducible<
    D: Fn(Metric, &[u32], &[u32]) -> u32,
    C: Fn(&[u32], usize) -> Vec<u32>,
    P: Fn(u32, u32, u32, u32) -> bool,
    Q: Fn(&[u8], &[u8], &[u32]) -> u32,
    W: Fn(u32, usize, u32) -> u32,
>(
    one: &Graph,
    two: &Graph,
    store: &PointStore,
    measure: Measure<D>,
    centroid: C,
    covers: P,
    sq8: &SQ8Store,
    compare: Q,
    score: W,
    cells: Seq<Cell>,
    medoids: Seq<u32>,
    config: &PrismConfig,
    point_cell: Seq<u32>,
)
    requires
        store.wf(),
        store.len > 0,
        cells_cover(cells, store.len as int),
        cells.len() <= store.len,
        cells_told(cells, point_cell, store.len as int),
        entries_fit(cells, medoids),
        config.beam_width > 0,
        is_assembled(
            one,
            store,
            measure,
            centroid,
            covers,
            sq8,
            compare,
            score,
            cells,
            medoids,
            config,
            point_cell,
        ),
        is_assembled(
            two,
            store,
            measure,
            centroid,
            covers,
            sq8,
            compare,
            score,
            cells,
            medoids,
            config,
            point_cell,
        ),
    ensures
        same_rows(one, two),
{
    let (ta, la, sa) = choose|tables: Seq<Seq<Seq<u32>>>, local: Graph, subsets: Seq<Vec<usize>>|
        #[trigger] assembled(
            one,
            store,
            measure,
            centroid,
            covers,
            sq8,
            compare,
            score,
            cells,
            medoids,
            config,
            point_cell,
            tables,
            &local,
            subsets,
        );
    let (tb, lb, sb) = choose|tables: Seq<Seq<Seq<u32>>>, local: Graph, subsets: Seq<Vec<usize>>|
        #[trigger] assembled(
            two,
            store,
            measure,
            centroid,
            covers,
            sq8,
            compare,
            score,
            cells,
            medoids,
            config,
            point_cell,
            tables,
            &local,
            subsets,
        );
    let n = store.len as int;
    assert forall|c: int| 0 <= c < medoids.len() implies #[trigger] medoids[c] < n by {
        assert(cells[c].point_ids@.contains(medoids[c]));
        let i = choose|i: int| 0 <= i < cells[c].point_ids@.len() && cells[c].point_ids@[i] == medoids[c];
        assert(cells[c].point_ids@[i] < n);
    }
    assert forall|a: int| 0 <= a < n implies #[trigger] one.row(a) == two.row(a) by {
        assert forall|b: u32| one.row(a).contains(b) <==> two.row(a).contains(b) by {
            due_edges_agree(
                store,
                measure,
                centroid,
                covers,
                sq8,
                compare,
                score,
                cells,
                medoids,
                config,
                point_cell,
                ta,
                &la,
                sa,
                tb,
                &lb,
                sb,
                a,
                b,
            );
            assert(one.edge(a, b) == two.edge(a, b));
        }
        ascending_is_unique(one.row(a), two.row(a));
    }
}

/// Two catalogs of the same points list the same cells up to `c`.
proof fn cells_agree(one: &PartitionTree, two: &PartitionTree, a: &PointStore, b: &PointStore, c: int)
    requires
        catalogs(one, a),
        catalogs(two, b),
        in_order(one.cells@),
        in_order(two.cells@),
        a.len == b.len,
        a.attrs == b.attrs,
        0 <= c < one.cells@.len(),
    ensures
        c < two.cells@.len(),
        one.cells@[c].values@ == two.cells@[c].values@,
        one.cells@[c].point_ids@ == two.cells@[c].point_ids@,
    decreases c,
{
    let d = cell_listed(one, two, a, b, c);
    if d < c {
        cells_agree(one, two, a, b, d);
        assert(lex_less(one.cells@[d].values@, one.cells@[c].values@));
        lex_less_is_asymmetric(one.cells@[d].values@, one.cells@[c].values@);
    } else if d > c {
        let e = cell_listed(two, one, b, a, c);
        assert(lex_less(two.cells@[c].values@, two.cells@[d].values@));
        lex_less_is_asymmetric(two.cells@[c].values@, two.cells@[d].values@);
        if e < c {
            cells_agree(one, two, a, b, e);
            assert(lex_less(two.cells@[e].values@, two.cells@[c].values@));
            lex_less_is_asymmetric(two.cells@[e].values@, two.cells@[c].values@);
        } else if e > c {
            assert(lex_less(one.cells@[c].values@, one.cells@[e].values@));
        }
    }
    let x = one.cells@[c].point_ids@;
    let y = two.cells@[c].point_ids@;
    assert forall|p: u32| x.contains(p) <==> y.contains(p) by {
        assert(one.cells@[c].point_ids@.contains(p) <==> p < a.len && a.tuple(p as int)
            == one.cells@[c].values@);
        assert(two.cells@[c].point_ids@.contains(p) <==> p < b.len && b.tuple(p as int)
            == two.cells@[c].values@);
    }
    ascending_is_unique(x, y);
}

/// A cell of one catalog is in the other.
proof fn cell_listed(one: &PartitionTree, two: &PartitionTree, a: &PointStore, b: &PointStore, c: int) -> (d: int)
    requires
        catalogs(one, a),
        catalogs(two, b),
        a.len == b.len,
        a.attrs == b.attrs,
        0 <= c < one.cells@.len(),
    ensures
        0 <= d < two.cells@.len(),
        two.cells@[d].values@ == one.cells@[c].values@,
{
    let ids = one.cells@[c].point_ids@;
    assert(ids.len() > 0);
    let p = ids[0];
    assert(one.cells@[c].point_ids@.contains(p));
    assert(a.tuple(p as int) == b.tuple(p as int));
    assert(holds_tuple(two.cells@, b.tuple(p as int)));
    choose|d: int| 0 <= d < two.cells@.len() && (#[trigger] two.cells@[d]).values@ == b.tuple(p as int)
}

/// Cells with the same points, one after another, list the same points.
proof fn spread_agrees(one: Seq<Cell>, two: Seq<Cell>)
    requires
        one.len() == two.len(),
        forall|c: int|
            0 <= c < one.len() ==> (#[trigger] one[c]).point_ids@ == two[c].point_ids@,
    ensures
        spread(one) == spread(two),
    decreases one.len(),
{
    if one.len() > 0 {
        assert forall|c: int| 0 <= c < one.drop_last().len() implies (#[trigger] one.drop_last()[c]).point_ids@
            == two.drop_last()[c].point_ids@ by {
            assert(one[c].point_ids@ == two[c].point_ids@);
        }
        spread_agrees(one.drop_last(), two.drop_last());
        assert(one[one.len() - 1].point_ids@ == two[two.len() - 1].point_ids@);
    }
}

/// The points stand where their cells put them.
pub open spec fn is_laid_out<A: Fn(&[u32]) -> Vec<u32>>(
    index: &PrismIndex,
    store: &PointStore,
    config: &PrismConfig,
    normalize: A,
) -> bool {
    exists|prepared: PointStore, found: PartitionTree|
        is_prepared(store, &prepared, config.metric, normalize) && #[trigger] laid_out(
            &prepared,
            &found,
            index,
        )
}

/// The same points and settings are laid out in the same way.
proof fn layouts_agree<A: Fn(&[u32]) -> Vec<u32>>(
    one: &PrismIndex,
    two: &PrismIndex,
    store: &PointStore,
    config: &PrismConfig,
    normalize: A,
)
    requires
        is_laid_out(one, store, config, normalize),
        is_laid_out(two, store, config, normalize),
    ensures
        one.original_ids@ == two.original_ids@,
        one.store.len == two.store.len == store.len,
        one.store.dim == two.store.dim,
        one.store.attrs@.len() == two.store.attrs@.len(),
        forall|p: int|
            0 <= p < one.store.len ==> #[trigger] one.store.row(p) == two.store.row(p)
                && one.store.tuple(p) == two.store.tuple(p),
        same_cells(one.tree.cells@, two.tree.cells@),
        forall|c: int|
            0 <= c < one.tree.cells@.len() ==> (#[trigger] one.tree.cells@[c]).values@
                == two.tree.cells@[c].values@,
        consecutive(one.tree.cells@),
        populated(one.tree.cells@),
        point_total(one.tree.cells@) == store.len,
{
    let (a, f) = choose|prepared: PointStore, found: PartitionTree|
        is_prepared(store, &prepared, config.metric, normalize) && #[trigger] laid_out(
            &prepared,
            &found,
            one,
        );
    let (b, g) = choose|prepared: PointStore, found: PartitionTree|
        is_prepared(store, &prepared, config.metric, normalize) && #[trigger] laid_out(
            &prepared,
            &found,
            two,
        );
    assert forall|c: int| 0 <= c < f.cells@.len() implies c < g.cells@.len() && (#[trigger] f.cells@[c]).values@
        == g.cells@[c].values@ && f.cells@[c].point_ids@ == g.cells@[c].point_ids@ by {
        cells_agree(&f, &g, &a, &b, c);
    }
    if f.cells@.len() > 0 {
        cells_agree(&f, &g, &a, &b, f.cells@.len() - 1);
    }
    if g.cells@.len() > 0 {
        cells_agree(&g, &f, &b, &a, g.cells@.len() - 1);
    }
    spread_agrees(f.cells@, g.cells@);
    spread_is_a_permutation(&f, &a);
    assert forall|p: int| 0 <= p < one.store.len implies #[trigger] one.store.row(p) == two.store.row(p)
        && one.store.tuple(p) == two.store.tuple(p) by {
        let from = one.original_ids@[p] as int;
        assert(one.store.row(p) == a.row(from));
        assert(two.store.row(p) == b.row(from));
        assert(a.row(from) == b.row(from));
        assert(one.store.tuple(p) == a.tuple(from));
        assert(two.store.tuple(p) == b.tuple(from));
    }
    let x = one.tree.cells@;
    let y = two.tree.cells@;
    assert forall|c: int| 0 <= c < x.len() implies (#[trigger] x[c]).values@ == y[c].values@
        && x[c].point_ids@.len() == y[c].point_ids@.len() && x[c].point_ids@.len()
        == f.cells@[c].point_ids@.len() by {
        assert(f.cells@[c].values@ == g.cells@[c].values@);
        assert(x[c].values@ == f.cells@[c].values@);
        assert(y[c].values@ == g.cells@[c].values@);
    }
    assert forall|c: int| 0 <= c < x.len() implies (#[trigger] x[c]).point_ids@ == y[c].point_ids@ by {
        totals_agree(x.take(c), y.take(c));
        assert forall|i: int| 0 <= i < x[c].point_ids@.len() implies x[c].point_ids@[i]
            == y[c].point_ids@[i] by {
            assert(x[c].point_ids@[i] == point_total(x.take(c)) + i);
            assert(y[c].point_ids@[i] == point_total(y.take(c)) + i);
        }
        assert(x[c].point_ids@ =~= y[c].point_ids@);
    }
    totals_agree(x, f.cells@);
    spread_length(f.cells@);
}

/// The same points and settings are laid out in the same way: the same point
/// with the same coordinates and attributes stands at every place, and the
/// cells are the same.
pub proof fn layout_is_reproducible<
    A: Fn(&[u32]) -> Vec<u32>,
    D: Fn(Metric, &[u32], &[u32]) -> u32,
    C: Fn(&[u32], usize) -> Vec<u32>,
    P: Fn(u32, u32, u32, u32) -> bool,
    Q: Fn(&[u8], &[u8], &[u32]) -> u32,
    W: Fn(u32, usize, u32) -> u32,
    S: Fn(u32, u32) -> u32,
    E: Fn(u32, u32, u32) -> u8,
    F: Fn(&[u32], &[u32], usize) -> Vec<bool>,
    N: Fn(&[u32]) -> u64,
    R: Fn(u64) -> u64,
>(
    one: &PrismIndex,
    two: &PrismIndex,
    store: &PointStore,
    config: &PrismConfig,
    normalize: A,
    distance: D,
    centroid: C,
    covers: P,
    compare: Q,
    score: W,
    step: S,
    encode: E,
    rotate: F,
    squared: N,
    root: R,
)
    requires
        is_index_of(
            one,
            store,
            config,
            normalize,
            distance,
            centroid,
            covers,
            compare,
            score,
            step,
            encode,
            rotate,
            squared,
            root,
        ),
        is_index_of(
            two,
            store,
            config,
            normalize,
            distance,
            centroid,
            covers,
            compare,
            score,
            step,
            encode,
            rotate,
            squared,
            root,
        ),
    ensures
        one.original_ids@ == two.original_ids@,
        one.store.len == two.store.len == store.len,
        one.store.dim == two.store.dim,
        one.store.attrs@.len() == two.store.attrs@.len(),
        forall|p: int|
            0 <= p < one.store.len ==> #[trigger] one.store.row(p) == two.store.row(p)
                && one.store.tuple(p) == two.store.tuple(p),
        same_cells(one.tree.cells@, two.tree.cells@),
        forall|c: int|
            0 <= c < one.tree.cells@.len() ==> (#[trigger] one.tree.cells@[c]).values@
                == two.tree.cells@[c].values@,
        consecutive(one.tree.cells@),
        populated(one.tree.cells@),
        point_total(one.tree.cells@) == store.len,
{
    layouts_agree(one, two, store, config, normalize);
}

/// Cells of the same sizes hold the same number of points.
proof fn totals_agree(one: Seq<Cell>, two: Seq<Cell>)
    requires
        one.len() == two.len(),
        forall|c: int|
            0 <= c < one.len() ==> (#[trigger] one[c]).point_ids@.len() == two[c].point_ids@.len(),
    ensures
        point_total(one) == point_total(two),
    decreases one.len(),
{
    if one.len() > 0 {
        assert forall|c: int| 0 <= c < one.drop_last().len() implies (
        #[trigger] one.drop_last()[c]).point_ids@.len() == two.drop_last()[c].point_ids@.len() by {
            assert(one[c].point_ids@.len() == two[c].point_ids@.len());
        }
        totals_agree(one.drop_last(), two.drop_last());
        assert(one[one.len() - 1].point_ids@.len() == two[two.len() - 1].point_ids@.len());
    }
}

/// Stores with the same rows and tuples have the same contents.
proof fn rows_make_contents(one: &PointStore, two: &PointStore)
    requires
        one.wf(),
        two.wf(),
        one.len == two.len,
        one.dim == two.dim,
        one.attrs@.len() == two.attrs@.len(),
        forall|p: int|
            0 <= p < one.len ==> #[trigger] one.row(p) == two.row(p) && one.tuple(p) == two.tuple(p),
    ensures
        same_points(one, two),
{
    let dim = one.dim as int;
    let n = one.len as int;
    assert forall|i: int| 0 <= i < one.vectors@.len() implies one.vectors@[i] == two.vectors@[i] by {
        let p = i / dim;
        let d = i % dim;
        vstd::arithmetic::div_mod::lemma_fundamental_div_mod(i, dim);
        assert(dim * p == p * dim) by (nonlinear_arith);
        assert(0 <= p < n) by (nonlinear_arith)
            requires
                0 <= i < n * dim,
                i == dim * p + d,
                0 <= d < dim,
                0 < dim,
        ;
        row_bounds(p, n, dim);
        assert(one.row(p)[d] == one.vectors@[i]);
        assert(two.row(p)[d] == two.vectors@[i]);
    }
    assert(one.vectors@ =~= two.vectors@);
    assert forall|j: int| 0 <= j < one.attrs@.len() implies (#[trigger] one.attrs@[j])@ == two.attrs@[j]@ by {
        assert forall|p: int| 0 <= p < n implies one.attrs@[j]@[p] == two.attrs@[j]@[p] by {
            assert(one.row(p) == two.row(p));
            assert(one.tuple(p)[j] == two.tuple(p)[j]);
        }
        assert(one.attrs@[j]@ =~= two.attrs@[j]@);
    }
}

/// Points with the same contents get the same codes.
proof fn codes_are_due_once<S: Fn(u32, u32) -> u32, E: Fn(u32, u32, u32) -> u8>(
    one: &PointStore,
    two: &PointStore,
    codes: &SQ8Store,
    others: &SQ8Store,
    config: &PrismConfig,
    step: S,
    encode: E,
)
    requires
        one.wf(),
        same_points(one, two),
        due_codes(codes, one, config, step, encode),
        due_codes(others, two, config, step, encode),
    ensures
        codes_alike(codes, others),
{
    assert forall|d: int| 0 <= d < one.dim implies codes.mins@[d] == others.mins@[d] && codes.scales@[d]
        == others.scales@[d] by {
        ranges_agree(one, two, d);
    }
    assert(codes.mins@ =~= others.mins@);
    assert(codes.scales@ =~= others.scales@);
    assert(codes.codes@ =~= others.codes@);
}

/// The parts that edges are made from belong to the points and settings.
pub open spec fn has_parts<
    A: Fn(&[u32]) -> Vec<u32>,
    D: Fn(Metric, &[u32], &[u32]) -> u32,
    C: Fn(&[u32], usize) -> Vec<u32>,
    S: Fn(u32, u32) -> u32,
    E: Fn(u32, u32, u32) -> u8,
>(
    index: &PrismIndex,
    store: &PointStore,
    config: &PrismConfig,
    normalize: A,
    distance: D,
    centroid: C,
    step: S,
    encode: E,
) -> bool {
    let cells = index.tree.cells@;
    let measure = by_metric(distance, config.metric);
    &&& index.store.wf()
    &&& is_laid_out(index, store, config, normalize)
    &&& cells_told(cells, index.point_cell@, store.len as int)
    &&& index.point_cell@.len() == store.len
    &&& index.medoids@.len() == cells.len()
    &&& forall|c: int|
        0 <= c < cells.len() ==> #[trigger] index.medoids@[c] == entry_of(
            &index.store,
            cells,
            measure,
            centroid,
            config,
            c,
        )
    &&& due_codes(&index.sq8, &index.store, config, step, encode)
}

/// The same points and settings lead to the same parts.
pub proof fn parts_agree<
    A: Fn(&[u32]) -> Vec<u32>,
    D: Fn(Metric, &[u32], &[u32]) -> u32,
    C: Fn(&[u32], usize) -> Vec<u32>,
    S: Fn(u32, u32) -> u32,
    E: Fn(u32, u32, u32) -> u8,
>(
    one: &PrismIndex,
    two: &PrismIndex,
    store: &PointStore,
    config: &PrismConfig,
    normalize: A,
    distance: D,
    centroid: C,
    step: S,
    encode: E,
)
    requires
        has_parts(one, store, config, normalize, distance, centroid, step, encode),
        has_parts(two, store, config, normalize, distance, centroid, step, encode),
    ensures
        one.original_ids@ == two.original_ids@,
        same_points(&one.store, &two.store),
        same_cells(one.tree.cells@, two.tree.cells@),
        one.point_cell@ == two.point_cell@,
        one.medoids@ == two.medoids@,
        codes_alike(&one.sq8, &two.sq8),
        cells_cover(one.tree.cells@, store.len as int),
        one.store.len == store.len,
        two.store.len == store.len,
{
    layouts_agree(one, two, store, config, normalize);
    rows_make_contents(&one.store, &two.store);
    codes_are_due_once(&one.store, &two.store, &one.sq8, &two.sq8, config, step, encode);
    let n = store.len as int;
    let measure = by_metric(distance, config.metric);
    let cells = one.tree.cells@;
    let same = two.tree.cells@;
    assert forall|c: int| 0 <= c < cells.len() implies one.medoids@[c] == two.medoids@[c] by {
        let ids = cells[c].point_ids@;
        assert(ids == same[c].point_ids@);
        medoids_agree(
            &one.store,
            &two.store,
            ids[0] as int,
            ids.len() as int,
            measure,
            centroid,
        );
        assert(one.medoids@[c] == entry_of(&one.store, cells, measure, centroid, config, c));
        assert(two.medoids@[c] == entry_of(&two.store, same, measure, centroid, config, c));
    }
    assert(one.medoids@ =~= two.medoids@);
    consecutive_cells_cover(cells, n);
    assert forall|p: int| 0 <= p < n implies one.point_cell@[p] == two.point_cell@[p] by {
        let c = one.point_cell@[p] as int;
        let d = two.point_cell@[p] as int;
        assert(cells[c].point_ids@.contains(p as u32));
        assert(same[d].point_ids@.contains(p as u32));
        assert(cells[d].point_ids@ == same[d].point_ids@);
        holds_in_one_cell(cells, n, c, d, p as u32);
    }
    assert(one.point_cell@ =~= two.point_cell@);
}

/// A point is in one cell only.
proof fn holds_in_one_cell(cells: Seq<Cell>, n: int, c: int, d: int, p: u32)
    requires
        cells_cover(cells, n),
        0 <= c < cells.len(),
        0 <= d < cells.len(),
        cells[c].point_ids@.contains(p),
        cells[d].point_ids@.contains(p),
    ensures
        c == d,
{
    let x = cells[c].point_ids@;
    let y = cells[d].point_ids@;
    let i = choose|i: int| 0 <= i < x.len() && x[i] == p;
    let j = choose|j: int| 0 <= j < y.len() && y[j] == p;
    assert(x[i] == x[0] + i);
    assert(y[j] == y[0] + j);
    if c < d {
        assert(x[0] + x.len() <= y[0]);
    }
    if d < c {
        assert(y[0] + y.len() <= x[0]);
    }
}

/// The same points, settings and seed always give the same index: the same
/// layout, entry points and neighbour lists.
pub proof fn construction_is_reproducible<
    A: Fn(&[u32]) -> Vec<u32>,
    D: Fn(Metric, &[u32], &[u32]) -> u32,
    C: Fn(&[u32], usize) -> Vec<u32>,
    P: Fn(u32, u32, u32, u32) -> bool,
    Q: Fn(&[u8], &[u8], &[u32]) -> u32,
    W: Fn(u32, usize, u32) -> u32,
    S: Fn(u32, u32) -> u32,
    E: Fn(u32, u32, u32) -> u8,
    F: Fn(&[u32], &[u32], usize) -> Vec<bool>,
    N: Fn(&[u32]) -> u64,
    R: Fn(u64) -> u64,
>(
    one: &PrismIndex,
    two: &PrismIndex,
    store: &PointStore,
    config: &PrismConfig,
    normalize: A,
    distance: D,
    centroid: C,
    covers: P,
    compare: Q,
    score: W,
    step: S,
    encode: E,
    rotate: F,
    squared: N,
    root: R,
)
    requires
        one.wf(),
        two.wf(),
        is_index_of(
            one,
            store,
            config,
            normalize,
            distance,
            centroid,
            covers,
            compare,
            score,
            step,
            encode,
            rotate,
            squared,
            root,
        ),
        is_index_of(
            two,
            store,
            config,
            normalize,
            distance,
            centroid,
            covers,
            compare,
            score,
            step,
            encode,
            rotate,
            squared,
            root,
        ),
    ensures
        one.original_ids@ == two.original_ids@,
        same_points(&one.store, &two.store),
        same_cells(one.tree.cells@, two.tree.cells@),
        one.point_cell@ == two.point_cell@,
        one.medoids@ == two.medoids@,
        one.global_medoid == two.global_medoid,
        codes_alike(&one.sq8, &two.sq8),
        sketches_alike(&one.binary, &two.binary),
        one.cosine_norms.values@ == two.cosine_norms.values@,
        same_rows(&one.graph, &two.graph),
{
    index_has_parts(
        one,
        store,
        config,
        normalize,
        distance,
        centroid,
        covers,
        compare,
        score,
        step,
        encode,
        rotate,
        squared,
        root,
    );
    index_has_parts(
        two,
        store,
        config,
        normalize,
        distance,
        centroid,
        covers,
        compare,
        score,
        step,
        encode,
        rotate,
        squared,
        root,
    );
    parts_agree(one, two, store, config, normalize, distance, centroid, step, encode);
    assert forall|p: int| 0 <= p < one.store.len implies #[trigger] one.store.row(p) == two.store.row(
        p,
    ) by {}
    standard_sketches_agree(&one.binary, &two.binary);
    if !config.binary_built() {
        assert(0int / one.binary.code_words as int == 0) by (nonlinear_arith)
            requires
                one.binary.code_words > 0,
        ;
    }
    assert forall|p: int| 0 <= p < one.binary.count() implies #[trigger] one.binary.code_of(p)
        == two.binary.code_of(p) by {
        assert(one.store.row(p) == two.store.row(p));
    }
    equal_codes_make_equal_sketches(&one.binary, &two.binary);
    assert(one.cosine_norms.values@ =~= two.cosine_norms.values@);
    let measure = by_metric(distance, config.metric);
    medoids_agree(&one.store, &two.store, 0, store.len as int, measure, centroid);
    let cells = one.tree.cells@;
    assert(entries_fit(cells, one.medoids@)) by {
        assert forall|c: int| 0 <= c < cells.len() implies (#[trigger] cells[c]).point_ids@.contains(
            one.medoids@[c],
        ) by {
            assert(cell_fits(
                &one.store,
                &one.tree,
                one.medoids@,
                one.point_cell@,
                config,
                c,
            ));
        }
    }
    assembly_depends_on_contents(
        &two.graph,
        &two.store,
        &one.store,
        measure,
        centroid,
        covers,
        &two.sq8,
        &one.sq8,
        compare,
        score,
        two.tree.cells@,
        cells,
        one.medoids@,
        config,
        one.point_cell@,
    );
    assembly_is_reproducible(
        &one.graph,
        &two.graph,
        &one.store,
        measure,
        centroid,
        covers,
        &one.sq8,
        compare,
        score,
        cells,
        one.medoids@,
        config,
        one.point_cell@,
    );
}

/// An index has the parts that its edges are made from.
pub proof fn index_has_parts<
    A: Fn(&[u32]) -> Vec<u32>,
    D: Fn(Metric, &[u32], &[u32]) -> u32,
    C: Fn(&[u32], usize) -> Vec<u32>,
    P: Fn(u32, u32, u32, u32) -> bool,
    Q: Fn(&[u8], &[u8], &[u32]) -> u32,
    W: Fn(u32, usize, u32) -> u32,
    S: Fn(u32, u32) -> u32,
    E: Fn(u32, u32, u32) -> u8,
    F: Fn(&[u32], &[u32], usize) -> Vec<bool>,
    N: Fn(&[u32]) -> u64,
    R: Fn(u64) -> u64,
>(
    index: &PrismIndex,
    store: &PointStore,
    config: &PrismConfig,
    normalize: A,
    distance: D,
    centroid: C,
    covers: P,
    compare: Q,
    score: W,
    step: S,
    encode: E,
    rotate: F,
    squared: N,
    root: R,
)
    requires
        index.wf(),
        is_index_of(
            index,
            store,
            config,
            normalize,
            distance,
            centroid,
            covers,
            compare,
            score,
            step,
            encode,
            rotate,
            squared,
            root,
        ),
    ensures
        has_parts(index, store, config, normalize, distance, centroid, step, encode),
        index.store.len == store.len > 0,
        index.tree.cells@.len() <= store.len,
        config.beam_width > 0,
{
    let n = store.len as int;
    let cells = index.tree.cells@;
    layouts_agree(index, index, store, config, normalize);
    consecutive_cells_cover(cells, n);
    layout_is_catalog(
        &index.store,
        &index.tree,
        index.medoids@,
        index.global_medoid,
        index.point_cell@,
        index.original_ids@,
        config,
    );
    assert(cells_told(cells, index.point_cell@, n)) by {
        assert forall|p: int| 0 <= p < n implies (#[trigger] index.point_cell@[p]) < cells.len()
            && cells[index.point_cell@[p] as int].point_ids@.contains(p as u32) by {
            assert(point_placed(cells, index.point_cell@, p));
        }
    }
}

} // verus!
