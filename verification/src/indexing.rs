//! Building an index from points.

use vstd::prelude::*;
use crate::assemble::{cells_cover, cells_told, greedy_verdict};
use crate::binary::{signs_fit, BinaryStore};
use crate::config::PrismConfig;
use crate::construct::{
    assemble_edges, assembled_edges_serve, can_be_linked, edge_budget, entries_fit, is_assembled,
};
use crate::distance::Metric;
use crate::error::{ends, refused_size, PrismResult, Verdict};
use crate::graph::countable;
use crate::index::{
    build_verdict, cell_fits, codes_fit, derive_cosine_norm_cache, due_codes,
    has_multiple_attribute_tuples, is_renaming, layout_fits, make_codes, normalized, parts_fit,
    point_placed, same_codes, several_tuples, sketches_fit, unit_or_zero,
    validate_build_configuration, PrismIndex,
};
use crate::likeness::assembly_depends_on_contents;
use crate::medoid::{find_medoid, medoid_of};
use crate::partition::{
    by_cardinality, catalogs, consecutive, holds_tuple, in_order, point_total, populated, Cell,
    PartitionTree,
};
use crate::point::PointStore;
use crate::pure::{
    by_metric, compares_codes, gives_flags, gives_means, measures_by, numbers_rows, row_for,
    row_number, total1, total2, total3, total4, Measure,
};
use crate::reach::is_range;
use crate::relayout::{
    cell_start, cell_start_steps, rearranged, renumbered, reorder_by_cell, spread, spread_entry,
    spread_is_a_permutation, spread_length,
};
use crate::reproduce::{has_parts, index_has_parts, parts_agree};
use crate::single::{all_in_domain, in_domain};

verus! {

/// `f` takes any row of `dim`, and for one that a store takes it always gives
/// the same row that a store takes.
pub open spec fn gives_store_rows<F: Fn(&[u32]) -> Vec<u32>>(f: F, dim: int) -> bool {
    &&& forall|x: &[u32]| x@.len() == dim ==> call_requires(f, (x,))
    &&& forall|x: &[u32], row: Vec<u32>|
        x@.len() == dim && all_in_domain(x@, dim) && #[trigger] call_ensures(f, (x,), row) ==> row@
            == row_for(f, x@) && row@.len() == dim && all_in_domain(row@, dim)
}

/// Replaces every vector of a store by its normalized form.
pub fn normalize_rows<F: Fn(&[u32]) -> Vec<u32>>(store: &mut PointStore, normalize: &F)
    requires
        old(store).wf(),
        gives_store_rows(*normalize, old(store).dim as int),
    ensures
        final(store).wf(),
        final(store).len == old(store).len,
        final(store).dim == old(store).dim,
        final(store).attrs == old(store).attrs,
        forall|p: int|
            0 <= p < old(store).len ==> #[trigger] final(store).row(p) == row_for(
                *normalize,
                old(store).row(p),
            ),
{
    let ghost before = *store;
    let n: usize = store.len();
    let dim: usize = store.dim();
    let mut p: usize = 0;
    while p < n
        invariant
            p <= n,
            n == before.len,
            dim == before.dim,
            before.wf(),
            store.wf(),
            store.len == n,
            store.dim == dim,
            store.attrs == before.attrs,
            gives_store_rows(*normalize, dim as int),
            forall|q: int|
                0 <= q < p ==> #[trigger] store.row(q) == row_for(*normalize, before.row(q)),
            forall|q: int| p <= q < n ==> #[trigger] store.row(q) == before.row(q),
        decreases n - p,
    {
        proof {
            crate::point::row_bounds(p as int, n as int, dim as int);
        }
        assert(store.row(p as int) == before.row(p as int));
        assert(all_in_domain(store.row(p as int), dim as int)) by {
            assert forall|i: int| 0 <= i < dim implies in_domain(
                #[trigger] store.row(p as int)[i],
                dim as int,
            ) by {
                assert(in_domain(store.vectors@[p * dim + i], dim as int));
            }
        }
        let row = normalize(store.vector_unchecked(p as u32));
        let ghost start = store.vectors@;
        let ghost earlier = *store;
        let size: usize = store.vectors.len();
        let base: usize = p * dim;
        let mut d: usize = 0;
        while d < dim
            invariant
                d <= dim,
                p < n,
                base == p * dim,
                base + dim <= size,
                size == store.vectors@.len(),
                row@.len() == dim,
                store.len == n,
                store.dim == dim,
                store.attrs == before.attrs,
                store.vectors@.len() == start.len(),
                start.len() == n * dim,
                forall|i: int|
                    0 <= i < start.len() ==> #[trigger] store.vectors@[i] == if base <= i < base + d {
                        row@[i - base]
                    } else {
                        start[i]
                    },
            decreases dim - d,
        {
            store.vectors.set(base + d, row[d]);
            d = d + 1;
        }
        proof {
            assert(all_in_domain(row@, dim as int));
            assert forall|i: int| 0 <= i < store.vectors@.len() implies in_domain(
                #[trigger] store.vectors@[i],
                dim as int,
            ) by {
                if base <= i < base + dim {
                    assert(in_domain(row@[i - base], dim as int));
                } else {
                    assert(in_domain(start[i], dim as int));
                }
            }
            assert forall|q: int| 0 <= q < n implies #[trigger] store.row(q) == if q == p {
                row@
            } else {
                earlier.row(q)
            } by {
                crate::point::row_bounds(q, n as int, dim as int);
                if q < p {
                    crate::point::row_bounds(q, p as int, dim as int);
                }
                if p < q {
                    crate::point::row_bounds(p as int, q, dim as int);
                }
                if q == p {
                    assert(store.row(q) =~= row@);
                } else {
                    assert(store.row(q) =~= earlier.row(q));
                }
            }
        }
        p = p + 1;
    }
}

/// Consecutive cells cover the points, at most one cell per point.
pub proof fn consecutive_cells_cover(cells: Seq<Cell>, n: int)
    requires
        consecutive(cells),
        populated(cells),
        point_total(cells) == n,
    ensures
        cells_cover(cells, n),
        cells.len() <= n,
{
    assert forall|c: int| 0 <= c < cells.len() implies (#[trigger] cells[c]).point_ids@.len() > 0
        && is_range(cells[c].point_ids@) && cells[c].point_ids@[0] == cell_start(cells, c) by {
        let ids = cells[c].point_ids@;
        assert(ids[0] == point_total(cells.take(c)) + 0);
        assert forall|i: int| 0 <= i < ids.len() implies #[trigger] ids[i] == ids[0] + i by {
            assert(cells[c].point_ids@[i] == point_total(cells.take(c)) + i);
        }
    }
    assert forall|c: int, d: int| 0 <= c < d <= cells.len() implies cell_start(cells, c)
        + (#[trigger] cells[c]).point_ids@.len() <= #[trigger] cell_start(cells, d) by {
        starts_rise(cells, c, d);
    }
    assert(cells.take(cells.len() as int) =~= cells);
    assert(cell_start(cells, cells.len() as int) == n);
    assert forall|c: int, i: int| 0 <= c < cells.len() && 0 <= i < cells[c].point_ids@.len() implies #[trigger] cells[c].point_ids@[i]
        < n by {
        assert(cells[c].point_ids@[i] == point_total(cells.take(c)) + i);
        assert(cell_start(cells, c) + cells[c].point_ids@.len() <= cell_start(
            cells,
            cells.len() as int,
        ));
    }
    assert forall|c: int, d: int| 0 <= c < d < cells.len() implies (#[trigger] cells[c]).point_ids@[0]
        + cells[c].point_ids@.len() <= (#[trigger] cells[d]).point_ids@[0] by {
        starts_rise(cells, c, d);
    }
    at_least_one_each(cells);
}

proof fn starts_rise(cells: Seq<Cell>, c: int, d: int)
    requires
        0 <= c < d <= cells.len(),
    ensures
        cell_start(cells, c) + cells[c].point_ids@.len() <= cell_start(cells, d),
    decreases d - c,
{
    cell_start_steps(cells, d - 1);
    if c < d - 1 {
        starts_rise(cells, c, d - 1);
    }
}

proof fn at_least_one_each(cells: Seq<Cell>)
    requires
        populated(cells),
    ensures
        cells.len() <= point_total(cells),
    decreases cells.len(),
{
    if cells.len() > 0 {
        assert forall|c: int| 0 <= c < cells.drop_last().len() implies (#[trigger] cells.drop_last()[c]).point_ids@.len()
            > 0 by {
            assert(cells[c].point_ids@.len() > 0);
        }
        at_least_one_each(cells.drop_last());
        assert(cells[cells.len() - 1].point_ids@.len() > 0);
    }
}

/// For each point, its cell.
fn locate_points(cells: &Vec<Cell>, n: usize) -> (point_cell: Vec<u32>)
    requires
        consecutive(cells@),
        populated(cells@),
        point_total(cells@) == n,
        n <= u32::MAX,
    ensures
        cells_told(cells@, point_cell@, n as int),
{
    let mut point_cell: Vec<u32> = Vec::new();
    proof {
        consecutive_cells_cover(cells@, n as int);
        assert(cells@.take(0) =~= Seq::<Cell>::empty());
        assert(cell_start(cells@, 0) == 0);
    }
    let mut c: usize = 0;
    while c < cells.len()
        invariant
            c <= cells@.len() <= n <= u32::MAX,
            consecutive(cells@),
            populated(cells@),
            point_cell@.len() == cell_start(cells@, c as int),
            forall|p: int|
                0 <= p < point_cell@.len() ==> (#[trigger] point_cell@[p]) < cells@.len()
                    && cells@[point_cell@[p] as int].point_ids@.contains(p as u32),
        decreases cells@.len() - c,
    {
        let count: usize = cells[c].point_ids.len();
        let ghost start = cell_start(cells@, c as int);
        let mut i: usize = 0;
        while i < count
            invariant
                i <= count,
                c < cells@.len() <= u32::MAX,
                count == cells@[c as int].point_ids@.len(),
                start == cell_start(cells@, c as int),
                consecutive(cells@),
                point_cell@.len() == start + i,
                forall|p: int|
                    0 <= p < point_cell@.len() ==> (#[trigger] point_cell@[p]) < cells@.len()
                        && cells@[point_cell@[p] as int].point_ids@.contains(p as u32),
            decreases count - i,
        {
            assert(cells@[c as int].point_ids@[i as int] == start + i);
            point_cell.push(c as u32);
            i = i + 1;
        }
        proof {
            cell_start_steps(cells@, c as int);
        }
        c = c + 1;
    }
    assert(cells@.take(cells@.len() as int) =~= cells@);
    point_cell
}

/// Where searches in cell `c` start.
pub open spec fn entry_of<D: Fn(Metric, &[u32], &[u32]) -> u32, C: Fn(&[u32], usize) -> Vec<u32>>(
    store: &PointStore,
    cells: Seq<Cell>,
    measure: Measure<D>,
    centroid: C,
    config: &PrismConfig,
    c: int,
) -> int {
    let ids = cells[c].point_ids@;
    if config.local_built(store.len as int) {
        ids[0] + medoid_of(store, ids[0] as int, ids.len() as int, measure, centroid)
    } else {
        ids[0] as int
    }
}

/// For each cell, where searches in it start: the point closest to the middle
/// of the cell, or its first point where nothing but scans is needed.
pub fn compute_medoids<D: Fn(Metric, &[u32], &[u32]) -> u32, C: Fn(&[u32], usize) -> Vec<u32>>(
    store: &PointStore,
    cells: &Vec<Cell>,
    measure: &Measure<D>,
    centroid: &C,
    config: &PrismConfig,
) -> (medoids: Vec<u32>)
    requires
        store.wf(),
        cells_cover(cells@, store.len as int),
        measure.fits(store.dim as int),
        gives_means(*centroid, store.dim),
    ensures
        medoids@.len() == cells@.len(),
        forall|c: int|
            0 <= c < cells@.len() ==> #[trigger] medoids@[c] == entry_of(
                store,
                cells@,
                *measure,
                *centroid,
                config,
                c,
            ),
        entries_fit(cells@, medoids@),
        forall|c: int| 0 <= c < medoids@.len() ==> #[trigger] medoids@[c] < store.len,
{
    let n: usize = store.len();
    let local = config.builds_local_graph(n);
    let mut medoids: Vec<u32> = Vec::new();
    while medoids.len() < cells.len()
        invariant
            medoids@.len() <= cells@.len(),
            n == store.len,
            store.wf(),
            local == config.local_built(n as int),
            cells_cover(cells@, n as int),
            measure.fits(store.dim as int),
            gives_means(*centroid, store.dim),
            forall|c: int|
                0 <= c < medoids@.len() ==> #[trigger] medoids@[c] == entry_of(
                    store,
                    cells@,
                    *measure,
                    *centroid,
                    config,
                    c,
                ),
            forall|c: int|
                0 <= c < medoids@.len() ==> (#[trigger] cells@[c]).point_ids@.contains(medoids@[c]),
            forall|c: int| 0 <= c < medoids@.len() ==> #[trigger] medoids@[c] < n,
        decreases cells@.len() - medoids@.len(),
    {
        let c: usize = medoids.len();
        let ids = &cells[c].point_ids;
        assert(cells@[c as int].point_ids@.len() > 0 && is_range(cells@[c as int].point_ids@));
        let count: usize = ids.len();
        let first: u32 = ids[0];
        assert(ids@[count - 1] == ids@[0] + (count - 1));
        assert(cells@[c as int].point_ids@[count - 1] < n);
        if local {
            let at: u32 = find_medoid(store, first, count, measure, centroid);
            assert(ids@[at as int] == ids@[0] + at);
            medoids.push(first + at);
        } else {
            medoids.push(first);
        }
        proof {
            let entry = medoids@[c as int];
            assert(ids@[entry - first] == entry);
            assert(ids@.contains(entry));
        }
    }
    medoids
}

/// Where searches in the whole index start: the point closest to the middle.
pub fn compute_global_medoid<D: Fn(Metric, &[u32], &[u32]) -> u32, C: Fn(&[u32], usize) -> Vec<u32>>(
    store: &PointStore,
    measure: &Measure<D>,
    centroid: &C,
) -> (medoid: u32)
    requires
        store.wf(),
        store.len > 0,
        measure.fits(store.dim as int),
        gives_means(*centroid, store.dim),
    ensures
        medoid == medoid_of(store, 0, store.len as int, *measure, *centroid),
        medoid < store.len,
{
    find_medoid(store, 0, store.len(), measure, centroid)
}

/// The points as the index keeps them, still in the order of the input.
pub open spec fn is_prepared<A: Fn(&[u32]) -> Vec<u32>>(
    store: &PointStore,
    prepared: &PointStore,
    metric: Metric,
    normalize: A,
) -> bool {
    &&& prepared.wf()
    &&& prepared.len == store.len
    &&& prepared.dim == store.dim
    &&& prepared.attrs == store.attrs
    &&& forall|p: int|
        0 <= p < store.len ==> #[trigger] prepared.row(p) == if metric == Metric::Cosine {
            row_for(normalize, store.row(p))
        } else {
            store.row(p)
        }
}

/// The cells of the index are those of the points, in order, with the points
/// renumbered cell after cell.
pub open spec fn laid_out(prepared: &PointStore, found: &PartitionTree, index: &PrismIndex) -> bool {
    &&& catalogs(found, prepared)
    &&& in_order(found.cells@)
    &&& by_cardinality(found.split_order@, prepared)
    &&& index.original_ids@ == spread(found.cells@)
    &&& rearranged(prepared, &index.store, index.original_ids@)
    &&& renumbered(found, &index.tree)
}

/// Several cells come from several tuples.
proof fn several_cells_several_tuples(store: &PointStore, tree: &PartitionTree)
    requires
        store.wf(),
        catalogs(tree, store),
        tree.cells@.len() > 1,
    ensures
        several_tuples(store.attrs@, store.len as int),
{
    let cells = tree.cells@;
    assert(cells[0].point_ids@.len() > 0 && cells[1].point_ids@.len() > 0);
    let p = cells[0].point_ids@[0];
    let q = cells[1].point_ids@[0];
    assert(cells[0].point_ids@.contains(p));
    assert(cells[1].point_ids@.contains(q));
    let x = store.tuple(p as int);
    let y = store.tuple(q as int);
    assert(x != y);
    assert(!(x =~= y));
    let j = choose|j: int| 0 <= j < x.len() && x[j] != y[j];
    assert(store.attrs@[j]@[p as int] != store.attrs@[j]@[q as int]);
    if store.attrs@[j]@[p as int] == store.attrs@[j]@[0] {
        assert(store.attrs@[j]@[q as int] != store.attrs@[j]@[0]);
    }
}

/// The same points are normalized in any order.
proof fn order_keeps_norms<N: Fn(&[u32]) -> u64>(
    prepared: &PointStore,
    found: &PartitionTree,
    after: &PointStore,
    squared: N,
)
    requires
        prepared.wf(),
        catalogs(found, prepared),
        in_order(found.cells@),
        rearranged(prepared, after, spread(found.cells@)),
    ensures
        normalized(after, squared) <==> normalized(prepared, squared),
{
    spread_is_a_permutation(found, prepared);
    let order = spread(found.cells@);
    if normalized(prepared, squared) {
        assert forall|g: int| 0 <= g < after.len implies unit_or_zero(
            row_number(squared, #[trigger] after.row(g)),
        ) by {
            assert(order[g] < prepared.len);
            assert(after.row(g) == prepared.row(order[g] as int));
        }
    }
    if normalized(after, squared) {
        assert forall|p: int| 0 <= p < prepared.len implies unit_or_zero(
            row_number(squared, #[trigger] prepared.row(p)),
        ) by {
            assert(holds_tuple(found.cells@, prepared.tuple(p)));
            let c = choose|c: int|
                0 <= c < found.cells@.len() && (#[trigger] found.cells@[c]).values@ == prepared.tuple(p);
            assert(found.cells@[c].point_ids@.contains(p as u32));
            let ids = found.cells@[c].point_ids@;
            let i = choose|i: int| 0 <= i < ids.len() && ids[i] == p as u32;
            spread_entry(found.cells@, c, i);
            let g = cell_start(found.cells@, c) + i;
            assert(after.row(g) == prepared.row(order[g] as int));
        }
    }
}

/// The parts of a new index belong together.
proof fn new_layout_fits(
    store: &PointStore,
    tree: &PartitionTree,
    medoids: Seq<u32>,
    global_medoid: u32,
    point_cell: Seq<u32>,
    original_ids: Seq<u32>,
    config: &PrismConfig,
)
    requires
        store.wf(),
        store.len > 0,
        catalogs(tree, store),
        cells_cover(tree.cells@, store.len as int),
        cells_told(tree.cells@, point_cell, store.len as int),
        entries_fit(tree.cells@, medoids),
        !config.local_built(store.len as int) ==> forall|c: int|
            0 <= c < tree.cells@.len() ==> #[trigger] medoids[c] == tree.cells@[c].point_ids@[0],
        global_medoid < store.len,
        !config.global_built(store.len as int, tree.cells@.len() as int) ==> global_medoid == 0,
        is_renaming(original_ids, store.len as int),
    ensures
        layout_fits(store, tree, medoids, global_medoid, point_cell, original_ids, config),
{
    let cells = tree.cells@;
    assert forall|c: int| 0 <= c < cells.len() implies #[trigger] cell_fits(
        store,
        tree,
        medoids,
        point_cell,
        config,
        c,
    ) by {
        let ids = cells[c].point_ids@;
        assert(ids.len() > 0 && is_range(ids));
        assert(ids.contains(medoids[c]));
        assert forall|i: int| 0 <= i < ids.len() implies (#[trigger] ids[i]) < store.len
            && point_cell[ids[i] as int] == c && store.tuple(ids[i] as int) == cells[c].values@ by {
            let p = ids[i];
            assert(cells[c].point_ids@.contains(p));
            let d = point_cell[p as int] as int;
            assert(cells[d].point_ids@.contains(p));
            if c != d {
                assert(cells[c].values@ != cells[d].values@);
            }
        }
    }
    assert forall|p: int| 0 <= p < store.len implies #[trigger] point_placed(cells, point_cell, p) by {
        assert(point_cell[p] < cells.len());
    }
}

/// Prepared points are normalized where the unit vectors are.
proof fn preparing_decides_norms<A: Fn(&[u32]) -> Vec<u32>, N: Fn(&[u32]) -> u64>(
    store: &PointStore,
    prepared: &PointStore,
    normalize: A,
    squared: N,
)
    requires
        is_prepared(store, prepared, Metric::Cosine, normalize),
    ensures
        normalized(prepared, squared) <==> !exists|p: int|
            0 <= p < store.len && !unit_or_zero(
                row_number(squared, row_for(normalize, #[trigger] store.row(p))),
            ),
{
    if normalized(prepared, squared) {
        assert forall|p: int| 0 <= p < store.len implies unit_or_zero(
            row_number(squared, row_for(normalize, #[trigger] store.row(p))),
        ) by {
            assert(unit_or_zero(row_number(squared, prepared.row(p))));
        }
    } else {
        let p = choose|p: int|
            0 <= p < prepared.len && !unit_or_zero(row_number(squared, #[trigger] prepared.row(p)));
        assert(prepared.row(p) == row_for(normalize, store.row(p)));
    }
}

/// The sketches that an index with these settings has.
fn make_sketches<F: Fn(&[u32], &[u32], usize) -> Vec<bool>>(
    store: &PointStore,
    config: &PrismConfig,
    rotate: &F,
) -> (result: PrismResult<BinaryStore>)
    requires
        store.wf(),
        gives_flags(*rotate, store.dim as int),
    ensures
        ends(
            result,
            if signs_fit(store.dim as int) {
                Verdict::Accepted
            } else {
                Verdict::Overflow
            },
        ),
        result matches Ok(sketches) ==> sketches.wf() && sketches_fit(
            &sketches,
            store,
            config,
            *rotate,
        ) && sketches.count() == if config.binary_built() {
            store.len as int
        } else {
            0
        },
{
    if config.builds_binary() {
        return BinaryStore::build(store, rotate);
    }
    match BinaryStore::empty(store.dim()) {
        Ok(sketches) => {
            assert(0int / sketches.code_words as int == 0) by (nonlinear_arith)
                requires
                    sketches.code_words > 0,
            ;
            Ok(sketches)
        },
        Err(error) => Err(error),
    }
}

/// How a build ends, but for tables that are too large: as the settings and
/// the points allow, with normalized points where angles are compared.
pub open spec fn indexing_verdict<A: Fn(&[u32]) -> Vec<u32>, N: Fn(&[u32]) -> u64>(
    store: &PointStore,
    config: &PrismConfig,
    normalize: A,
    squared: N,
) -> Verdict {
    let several = several_tuples(store.attrs@, store.len as int);
    let early = build_verdict(config, store.arity(), store.len as int, several);
    if !(early is Accepted) {
        early
    } else if config.metric == Metric::Cosine && exists|p: int|
        0 <= p < store.len && !unit_or_zero(
            row_number(squared, row_for(normalize, #[trigger] store.row(p))),
        ) {
        Verdict::InvalidFormat
    } else if !signs_fit(store.dim as int) {
        Verdict::Overflow
    } else {
        Verdict::Accepted
    }
}

/// What a new index holds.
pub open spec fn is_index_of<
    A: Fn(&[u32]) -> Vec<u32>,
    D: Fn(Metric, &[u32], &[u32]) -> u32,
    C: Fn(&[u32], usize) -> Vec<u32>,
    P: Fn(u32, u32, u32, u32) -> bool,
    Q: Fn(&[u8], &[u8], &[u32]) -> u32,
    W: Fn(u32, usize, u32) -> u32,
    S: Fn(u32, u32) -> u32,
    E: Fn(u32, u32, u32) -> u8,
    F: Fn(&[u32], &[u32], usize) -> Vec<bool>,
    N: Fn(&[u32]) -> u64,
    R: Fn(u64) -> u64,
>(
    index: &PrismIndex,
    store: &PointStore,
    config: &PrismConfig,
    normalize: A,
    distance: D,
    centroid: C,
    covers: P,
    compare: Q,
    score: W,
    step: S,
    encode: E,
    rotate: F,
    squared: N,
    root: R,
) -> bool {
    let n = store.len as int;
    let cells = index.tree.cells@;
    let measure = by_metric(distance, config.metric);
    &&& index.config == *config
    &&& exists|prepared: PointStore, found: PartitionTree|
        is_prepared(store, &prepared, config.metric, normalize) && #[trigger] laid_out(
            &prepared,
            &found,
            index,
        )
    &&& index.medoids@.len() == cells.len()
    &&& forall|c: int|
        0 <= c < cells.len() ==> #[trigger] index.medoids@[c] == entry_of(
            &index.store,
            cells,
            measure,
            centroid,
            config,
            c,
        )
    &&& index.global_medoid == if config.global_built(n, cells.len() as int) {
        medoid_of(&index.store, 0, n, measure, centroid)
    } else {
        0
    }
    &&& due_codes(&index.sq8, &index.store, config, step, encode)
    &&& sketches_fit(&index.binary, &index.store, config, rotate)
    &&& index.cosine_norms.caches(&index.store, config.metric, squared, root)
    &&& is_assembled(
        &index.graph,
        &index.store,
        measure,
        centroid,
        covers,
        &index.sq8,
        compare,
        score,
        cells,
        index.medoids@,
        config,
        index.point_cell@,
    )
}

/// There is an index of these points: tables of candidates are small enough,
/// and a graph can hold its edges.
pub open spec fn can_be_indexed<
    A: Fn(&[u32]) -> Vec<u32>,
    D: Fn(Metric, &[u32], &[u32]) -> u32,
    C: Fn(&[u32], usize) -> Vec<u32>,
    P: Fn(u32, u32, u32, u32) -> bool,
    Q: Fn(&[u8], &[u8], &[u32]) -> u32,
    W: Fn(u32, usize, u32) -> u32,
    S: Fn(u32, u32) -> u32,
    E: Fn(u32, u32, u32) -> u8,
    F: Fn(&[u32], &[u32], usize) -> Vec<bool>,
    N: Fn(&[u32]) -> u64,
    R: Fn(u64) -> u64,
>(
    store: &PointStore,
    config: &PrismConfig,
    normalize: A,
    distance: D,
    centroid: C,
    covers: P,
    compare: Q,
    score: W,
    step: S,
    encode: E,
    rotate: F,
    squared: N,
    root: R,
) -> bool {
    let n = store.len as int;
    &&& countable(n)
    &&& exists|index: PrismIndex|
        {
            &&& #[trigger] is_index_of(
                &index,
                store,
                config,
                normalize,
                distance,
                centroid,
                covers,
                compare,
                score,
                step,
                encode,
                rotate,
                squared,
                root,
            )
            &&& index.wf()
            &&& config.global_built(n, index.tree.cells@.len() as int) ==> greedy_verdict(
                config,
                n,
                store.arity(),
                index.tree.cells@.len() as int,
            ) is Accepted
        }
}

/// Where there is an index of the points, the edges between parts made from them
/// can be found.
proof fn indexed_means_linked<
    A: Fn(&[u32]) -> Vec<u32>,
    D: Fn(Metric, &[u32], &[u32]) -> u32,
    C: Fn(&[u32], usize) -> Vec<u32>,
    P: Fn(u32, u32, u32, u32) -> bool,
    Q: Fn(&[u8], &[u8], &[u32]) -> u32,
    W: Fn(u32, usize, u32) -> u32,
    S: Fn(u32, u32) -> u32,
    E: Fn(u32, u32, u32) -> u8,
    F: Fn(&[u32], &[u32], usize) -> Vec<bool>,
    N: Fn(&[u32]) -> u64,
    R: Fn(u64) -> u64,
>(
    mine: &PrismIndex,
    store: &PointStore,
    config: &PrismConfig,
    normalize: A,
    distance: D,
    centroid: C,
    covers: P,
    compare: Q,
    score: W,
    step: S,
    encode: E,
    rotate: F,
    squared: N,
    root: R,
)
    requires
        has_parts(mine, store, config, normalize, distance, centroid, step, encode),
        can_be_indexed(
            store,
            config,
            normalize,
            distance,
            centroid,
            covers,
            compare,
            score,
            step,
            encode,
            rotate,
            squared,
            root,
        ),
    ensures
        can_be_linked(
            &mine.store,
            by_metric(distance, config.metric),
            centroid,
            covers,
            &mine.sq8,
            compare,
            score,
            mine.tree.cells@,
            mine.medoids@,
            config,
            mine.point_cell@,
        ),
{
    let n = store.len as int;
    let measure = by_metric(distance, config.metric);
    let other = choose|index: PrismIndex|
        {
            &&& #[trigger] is_index_of(
                &index,
                store,
                config,
                normalize,
                distance,
                centroid,
                covers,
                compare,
                score,
                step,
                encode,
                rotate,
                squared,
                root,
            )
            &&& index.wf()
            &&& config.global_built(n, index.tree.cells@.len() as int) ==> greedy_verdict(
                config,
                n,
                store.arity(),
                index.tree.cells@.len() as int,
            ) is Accepted
        };
    index_has_parts(
        &other,
        store,
        config,
        normalize,
        distance,
        centroid,
        covers,
        compare,
        score,
        step,
        encode,
        rotate,
        squared,
        root,
    );
    parts_agree(&other, mine, store, config, normalize, distance, centroid, step, encode);
    assembly_depends_on_contents(
        &other.graph,
        &other.store,
        &mine.store,
        measure,
        centroid,
        covers,
        &other.sq8,
        &mine.sq8,
        compare,
        score,
        other.tree.cells@,
        mine.tree.cells@,
        mine.medoids@,
        config,
        mine.point_cell@,
    );
}

impl PrismIndex {
    /// Builds an index of points.
    ///
    /// The arithmetic on coordinates comes in as functions on their patterns:
    /// `normalize` gives the unit vector, `distance` the distance of two
    /// vectors by a metric, `centroid` the middle of several of some dimension,
    /// `covers` whether, for a strictness and how often it counts, a neighbour
    /// makes another one superfluous, `compare` the distance of two codes,
    /// `score` the worth of a candidate by the weight of proximity, `step` and
    /// `encode` the codes, `rotate` the sketches by signs and block length,
    /// `squared` and `root` the norms.
    pub fn build<
        A: Fn(&[u32]) -> Vec<u32>,
        D: Fn(Metric, &[u32], &[u32]) -> u32,
        C: Fn(&[u32], usize) -> Vec<u32>,
        P: Fn(u32, u32, u32, u32) -> bool,
        Q: Fn(&[u8], &[u8], &[u32]) -> u32,
        W: Fn(u32, usize, u32) -> u32,
        S: Fn(u32, u32) -> u32,
        E: Fn(u32, u32, u32) -> u8,
        F: Fn(&[u32], &[u32], usize) -> Vec<bool>,
        N: Fn(&[u32]) -> u64,
        R: Fn(u64) -> u64,
    >(
        store: PointStore,
        config: PrismConfig,
        normalize: &A,
        distance: &D,
        centroid: &C,
        covers: &P,
        compare: &Q,
        score: &W,
        step: &S,
        encode: &E,
        rotate: &F,
        squared: &N,
        root: &R,
    ) -> (result: PrismResult<PrismIndex>)
        requires
            store.wf(),
            gives_store_rows(*normalize, store.dim as int),
            measures_by(*distance, store.dim as int),
            gives_means(*centroid, store.dim),
            total4(*covers),
            compares_codes(*compare, store.dim as int),
            total3(*score),
            total2(*step),
            total3(*encode),
            gives_flags(*rotate, store.dim as int),
            numbers_rows(*squared, store.dim as int),
            total1(*root),
        ensures
            !(indexing_verdict(&store, &config, *normalize, *squared) is Accepted) ==> ends(
                result,
                indexing_verdict(&store, &config, *normalize, *squared),
            ),
            indexing_verdict(&store, &config, *normalize, *squared) is Accepted ==> {
                &&& result is Err ==> refused_size(result)
                &&& result is Ok <==> can_be_indexed(
                    &store,
                    &config,
                    *normalize,
                    *distance,
                    *centroid,
                    *covers,
                    *compare,
                    *score,
                    *step,
                    *encode,
                    *rotate,
                    *squared,
                    *root,
                )
                &&& edge_budget(&config, store.len as int) <= u32::MAX ==> result is Ok
            },
            result matches Ok(index) ==> {
                &&& index.wf()
                &&& is_index_of(
                    &index,
                    &store,
                    &config,
                    *normalize,
                    *distance,
                    *centroid,
                    *covers,
                    *compare,
                    *score,
                    *step,
                    *encode,
                    *rotate,
                    *squared,
                    *root,
                )
            },
    {
        let ghost given = store;
        let mut store = store;
        let n: usize = store.len();
        let several = has_multiple_attribute_tuples(store.attrs.as_slice(), n);
        match validate_build_configuration(&config, store.k(), n, several) {
            Ok(()) => {},
            Err(error) => {
                return Err(error);
            },
        }
        if config.metric == Metric::Cosine {
            normalize_rows(&mut store, normalize);
        }
        let prepared = store;
        assert(is_prepared(&given, &prepared, config.metric, *normalize));
        let tree = PartitionTree::build(&prepared);
        let ghost found = tree;
        let (store, tree, original_ids) = reorder_by_cell(&prepared, tree);
        proof {
            spread_is_a_permutation(&found, &prepared);
            order_keeps_norms(&prepared, &found, &store, *squared);
            if config.metric == Metric::Cosine {
                preparing_decides_norms(&given, &prepared, *normalize, *squared);
            }
        }
        let cosine_norms = match derive_cosine_norm_cache(&store, config.metric, squared, root) {
            Ok(cache) => cache,
            Err(error) => {
                return Err(error);
            },
        };
        let sq8 = make_codes(&store, &config, step, encode);
        let binary = match make_sketches(&store, &config, rotate) {
            Ok(binary) => binary,
            Err(error) => {
                return Err(error);
            },
        };
        proof {
            spread_is_a_permutation(&tree, &store);
            spread_length(tree.cells@);
            consecutive_cells_cover(tree.cells@, n as int);
            if tree.cells@.len() > 1 {
                several_cells_several_tuples(&prepared, &found);
            }
        }
        let point_cell = locate_points(&tree.cells, n);
        let measure = Measure { metric: config.metric, distance };
        let medoids = compute_medoids(&store, &tree.cells, &measure, centroid, &config);
        let graph = match assemble_edges(
            &store,
            &measure,
            centroid,
            covers,
            &sq8,
            compare,
            score,
            &tree.cells,
            &medoids,
            &config,
            &point_cell,
        ) {
            Ok(graph) => graph,
            Err(error) => {
                proof {
                    if can_be_indexed(
                        &given,
                        &config,
                        *normalize,
                        *distance,
                        *centroid,
                        *covers,
                        *compare,
                        *score,
                        *step,
                        *encode,
                        *rotate,
                        *squared,
                        *root,
                    ) {
                        let mine = PrismIndex {
                            store,
                            tree,
                            graph: arbitrary(),
                            medoids,
                            global_medoid: 0,
                            point_cell,
                            original_ids,
                            sq8,
                            binary,
                            cosine_norms,
                            config,
                        };
                        assert(laid_out(&prepared, &found, &mine));
                        indexed_means_linked(
                            &mine,
                            &given,
                            &config,
                            *normalize,
                            *distance,
                            *centroid,
                            *covers,
                            *compare,
                            *score,
                            *step,
                            *encode,
                            *rotate,
                            *squared,
                            *root,
                        );
                    }
                }
                return Err(error);
            },
        };
        let global_medoid: u32 = if config.builds_global_graph(n, tree.cells.len()) {
            compute_global_medoid(&store, &measure, centroid)
        } else {
            0
        };
        proof {
            new_layout_fits(
                &store,
                &tree,
                medoids@,
                global_medoid,
                point_cell@,
                original_ids@,
                &config,
            );
            assembled_edges_serve(
                &graph,
                &store,
                measure,
                *centroid,
                *covers,
                &sq8,
                *compare,
                *score,
                tree.cells@,
                medoids@,
                global_medoid,
                &config,
                point_cell@,
            );
        }
        let index = PrismIndex {
            store,
            tree,
            graph,
            medoids,
            global_medoid,
            point_cell,
            original_ids,
            sq8,
            binary,
            cosine_norms,
            config,
        };
        assert(laid_out(&prepared, &found, &index));
        assert(is_index_of(
            &index,
            &given,
            &index.config,
            *normalize,
            *distance,
            *centroid,
            *covers,
            *compare,
            *score,
            *step,
            *encode,
            *rotate,
            *squared,
            *root,
        ));
        Ok(index)
    }
}

/// The parts of an index that was built belong together: reassembling them
/// succeeds.
pub proof fn built_parts_fit<
    A: Fn(&[u32]) -> Vec<u32>,
    D: Fn(Metric, &[u32], &[u32]) -> u32,
    C: Fn(&[u32], usize) -> Vec<u32>,
    P: Fn(u32, u32, u32, u32) -> bool,
    Q: Fn(&[u8], &[u8], &[u32]) -> u32,
    W: Fn(u32, usize, u32) -> u32,
    S: Fn(u32, u32) -> u32,
    E: Fn(u32, u32, u32) -> u8,
    F: Fn(&[u32], &[u32], usize) -> Vec<bool>,
    N: Fn(&[u32]) -> u64,
    R: Fn(u64) -> u64,
>(
    index: &PrismIndex,
    store: &PointStore,
    config: &PrismConfig,
    normalize: A,
    distance: D,
    centroid: C,
    covers: P,
    compare: Q,
    score: W,
    step: S,
    encode: E,
    rotate: F,
    squared: N,
    root: R,
)
    requires
        store.wf(),
        index.wf(),
        indexing_verdict(store, config, normalize, squared) is Accepted,
        is_index_of(
            index,
            store,
            config,
            normalize,
            distance,
            centroid,
            covers,
            compare,
            score,
            step,
            encode,
            rotate,
            squared,
            root,
        ),
    ensures
        index.config.verdict() is Accepted,
        parts_fit(
            &index.store,
            &index.tree,
            &index.graph,
            index.medoids@,
            index.global_medoid,
            index.point_cell@,
            index.original_ids@,
            &index.sq8,
            &index.binary,
            &index.config,
            step,
            encode,
            rotate,
            squared,
        ),
{
    let (prepared, found) = choose|prepared: PointStore, found: PartitionTree|
        is_prepared(store, &prepared, config.metric, normalize) && #[trigger] laid_out(
            &prepared,
            &found,
            index,
        );
    order_keeps_norms(&prepared, &found, &index.store, squared);
    if config.metric == Metric::Cosine {
        assert forall|p: int| 0 <= p < prepared.len implies unit_or_zero(
            row_number(squared, #[trigger] prepared.row(p)),
        ) by {
            assert(prepared.row(p) == row_for(normalize, store.row(p)));
        }
    }
    assert(due_codes(&index.sq8, &index.store, config, step, encode) && same_codes(
        &index.sq8,
        &index.sq8,
    ));
    assert(codes_fit(&index.sq8, &index.store, config, step, encode));
}

} // verus!
