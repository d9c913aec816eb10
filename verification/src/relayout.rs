//! Points renumbered cell after cell.

use vstd::prelude::*;
use vstd::set_lib::*;
use crate::ivf::reorder_rows;
use crate::order::{ascending, ascending_is_sorted, Ranked};
use crate::partition::{
    catalogs, consecutive, in_order, point_total, populated, Cell, PartitionTree,
};
use crate::point::{row_bounds, PointStore};
use crate::single::{all_in_domain, in_domain};
use crate::vecstore::row_of;

verus! {

/// The points of all cells, cell after cell.
pub open spec fn spread(cells: Seq<Cell>) -> Seq<u32>
    decreases cells.len(),
{
    if cells.len() == 0 {
        Seq::empty()
    } else {
        spread(cells.drop_last()) + cells.last().point_ids@
    }
}

/// Where cell `c` begins.
pub open spec fn cell_start(cells: Seq<Cell>, c: int) -> int {
    point_total(cells.take(c)) as int
}

/// The same cells with their points renumbered.
pub open spec fn renumbered(before: &PartitionTree, after: &PartitionTree) -> bool {
    &&& after.k == before.k
    &&& after.split_order == before.split_order
    &&& after.cell_postings == before.cell_postings
    &&& after.cells@.len() == before.cells@.len()
    &&& consecutive(after.cells@)
    &&& forall|c: int|
        0 <= c < before.cells@.len() ==> (#[trigger] after.cells@[c]).values@ == before.cells@[c].values@
            && after.cells@[c].point_ids@.len() == before.cells@[c].point_ids@.len()
}

/// The same points in another order.
pub open spec fn rearranged(before: &PointStore, after: &PointStore, order: Seq<u32>) -> bool {
    &&& after.len == before.len
    &&& after.dim == before.dim
    &&& after.attrs@.len() == before.attrs@.len()
    &&& forall|g: int|
        0 <= g < before.len ==> #[trigger] after.row(g) == before.row(order[g] as int)
    &&& forall|g: int|
        0 <= g < before.len ==> #[trigger] after.tuple(g) == before.tuple(order[g] as int)
}

/// Entry `i` of cell `c` in the spread.
pub proof fn spread_entry(cells: Seq<Cell>, c: int, i: int)
    requires
        0 <= c < cells.len(),
        0 <= i < cells[c].point_ids@.len(),
    ensures
        0 <= cell_start(cells, c) + i < spread(cells).len(),
        spread(cells)[cell_start(cells, c) + i] == cells[c].point_ids@[i],
        cell_start(cells, c) + cells[c].point_ids@.len() <= spread(cells).len(),
    decreases cells.len(),
{
    let few = cells.drop_last();
    spread_length(few);
    spread_length(cells);
    if c == cells.len() - 1 {
        assert(cells.take(c) =~= few);
    } else {
        spread_entry(few, c, i);
        assert(few.take(c) =~= cells.take(c));
    }
}

/// Laying cells out keeps their number of points.
pub proof fn spread_length(cells: Seq<Cell>)
    ensures
        spread(cells).len() == point_total(cells),
    decreases cells.len(),
{
    if cells.len() > 0 {
        spread_length(cells.drop_last());
    }
}

/// Every position of the spread belongs to a cell.
pub proof fn spread_source(cells: Seq<Cell>, g: int) -> (at: (int, int))
    requires
        0 <= g < spread(cells).len(),
    ensures
        0 <= at.0 < cells.len(),
        0 <= at.1 < cells[at.0].point_ids@.len(),
        g == cell_start(cells, at.0) + at.1,
    decreases cells.len(),
{
    let few = cells.drop_last();
    spread_length(few);
    if g < spread(few).len() {
        let at = spread_source(few, g);
        assert(few.take(at.0) =~= cells.take(at.0));
        at
    } else {
        assert(cells.take(cells.len() - 1) =~= few);
        (cells.len() - 1, g - spread(few).len())
    }
}

/// A cell starts where the one before it ends.
pub proof fn cell_start_steps(cells: Seq<Cell>, c: int)
    requires
        0 <= c < cells.len(),
    ensures
        cell_start(cells, c + 1) == cell_start(cells, c) + cells[c].point_ids@.len(),
{
    assert(cells.take(c + 1).drop_last() =~= cells.take(c));
}

/// The spread of a catalog names each point of the store once.
pub proof fn spread_is_a_permutation(tree: &PartitionTree, store: &PointStore)
    requires
        catalogs(tree, store),
        in_order(tree.cells@),
        store.len <= u32::MAX,
    ensures
        spread(tree.cells@).len() == store.len,
        spread(tree.cells@).no_duplicates(),
        forall|g: int| 0 <= g < store.len ==> #[trigger] spread(tree.cells@)[g] < store.len,
{
    let cells = tree.cells@;
    let all = spread(cells);
    assert forall|g: int, h: int| 0 <= g < h < all.len() implies all[g] != all[h] by {
        let (c, i) = spread_source(cells, g);
        let (d, j) = spread_source(cells, h);
        spread_entry(cells, c, i);
        spread_entry(cells, d, j);
        if all[g] == all[h] {
            assert(cells[c].point_ids@.contains(all[g]));
            assert(cells[d].point_ids@.contains(all[g]));
            crate::partition::every_point_has_one_cell(tree, store, all[g]);
            ascending_is_sorted(cells[c].point_ids@);
        }
    }
    assert forall|g: int| 0 <= g < all.len() implies #[trigger] all[g] < store.len by {
        let (c, i) = spread_source(cells, g);
        spread_entry(cells, c, i);
        assert(cells[c].point_ids@.contains(all[g]));
    }
    let numbers = all.map_values(|p: u32| p as int);
    assert(numbers.no_duplicates());
    numbers.unique_seq_to_set();
    lemma_int_range(0, store.len as int);
    assert(numbers.to_set() =~= set_int_range(0, store.len as int)) by {
        assert forall|x: int| numbers.to_set().contains(x) <==> set_int_range(0, store.len as int).contains(x) by {
            if numbers.to_set().contains(x) {
                let g = choose|g: int| 0 <= g < numbers.len() && numbers[g] == x;
                assert(all[g] < store.len);
            }
            if 0 <= x < store.len {
                let p = x as u32;
                crate::partition::every_point_has_one_cell(tree, store, p);
                let c = choose|c: int|
                    0 <= c < cells.len() && #[trigger] cells[c].point_ids@.contains(p);
                let i = choose|i: int| 0 <= i < cells[c].point_ids@.len() && cells[c].point_ids@[i] == p;
                spread_entry(cells, c, i);
                let g = cell_start(cells, c) + i;
                assert(numbers[g] == x);
            }
        }
    }
}

/// A column in another order.
fn reorder_column(column: &Vec<u32>, order: &Vec<u32>) -> (out: Vec<u32>)
    requires
        forall|g: int| 0 <= g < order@.len() ==> #[trigger] order@[g] < column@.len(),
    ensures
        out@.len() == order@.len(),
        forall|g: int| 0 <= g < order@.len() ==> #[trigger] out@[g] == column@[order@[g] as int],
{
    let mut out: Vec<u32> = Vec::new();
    while out.len() < order.len()
        invariant
            out@.len() <= order@.len(),
            forall|g: int| 0 <= g < order@.len() ==> #[trigger] order@[g] < column@.len(),
            forall|g: int| 0 <= g < out@.len() ==> #[trigger] out@[g] == column@[order@[g] as int],
        decreases order@.len() - out@.len(),
    {
        let g: usize = out.len();
        assert(order@[g as int] < column@.len());
        out.push(column[order[g] as usize]);
    }
    out
}

/// Rows taken from a store keep its domain.
proof fn domain_is_kept(before: Seq<u32>, after: Seq<u32>, order: Seq<u32>, dim: int)
    requires
        dim > 0,
        after.len() == order.len() * dim,
        before.len() == order.len() * dim,
        all_in_domain(before, dim),
        forall|g: int| 0 <= g < order.len() ==> #[trigger] order[g] < order.len(),
        forall|g: int|
            0 <= g < order.len() ==> #[trigger] row_of(after, g, dim) == row_of(
                before,
                order[g] as int,
                dim,
            ),
    ensures
        all_in_domain(after, dim),
{
    assert forall|i: int| 0 <= i < after.len() implies in_domain(#[trigger] after[i], dim) by {
        let g = i / dim;
        let d = i % dim;
        vstd::arithmetic::div_mod::lemma_fundamental_div_mod(i, dim);
        assert(order.len() * dim == dim * order.len()) by (nonlinear_arith);
        vstd::arithmetic::div_mod::lemma_multiply_divide_lt(i, dim, order.len() as int);
        vstd::arithmetic::div_mod::lemma_div_pos_is_pos(i, dim);
        assert(dim * g == g * dim) by (nonlinear_arith);
        row_bounds(g, order.len() as int, dim);
        assert(order[g] < order.len());
        row_bounds(order[g] as int, order.len() as int, dim);
        assert(row_of(after, g, dim)[d] == after[i]);
        assert(row_of(before, order[g] as int, dim)[d] == before[order[g] * dim + d]);
    }
}

/// The points of a store renumbered so that every cell is one range.
pub fn reorder_by_cell(store: &PointStore, tree: PartitionTree) -> (result: (
    PointStore,
    PartitionTree,
    Vec<u32>,
))
    requires
        store.wf(),
        catalogs(&tree, store),
        in_order(tree.cells@),
    ensures
        result.2@ == spread(tree.cells@),
        result.0.wf(),
        rearranged(store, &result.0, result.2@),
        renumbered(&tree, &result.1),
        catalogs(&result.1, &result.0),
        in_order(result.1.cells@),
{
    let ghost before = tree;
    proof {
        spread_is_a_permutation(&before, store);
    }
    let mut tree = tree;
    let mut order: Vec<u32> = Vec::new();
    let mut c: usize = 0;
    assert(before.cells@.take(0) =~= Seq::<Cell>::empty());
    while c < tree.cells.len()
        invariant
            c <= tree.cells@.len(),
            tree.cells@.len() == before.cells@.len(),
            spread(before.cells@).len() == store.len <= u32::MAX,
            tree.k == before.k,
            tree.split_order == before.split_order,
            tree.cell_postings == before.cell_postings,
            order@ == spread(before.cells@.take(c as int)),
            forall|d: int|
                0 <= d < before.cells@.len() ==> (#[trigger] tree.cells@[d]).values == before.cells@[d].values
                    && tree.cells@[d].point_ids@.len() == before.cells@[d].point_ids@.len(),
            forall|d: int| c <= d < before.cells@.len() ==> #[trigger] tree.cells@[d] == before.cells@[d],
            forall|d: int, i: int|
                0 <= d < c && 0 <= i < tree.cells@[d].point_ids@.len()
                    ==> #[trigger] tree.cells@[d].point_ids@[i] == cell_start(before.cells@, d) + i,
        decreases tree.cells@.len() - c,
    {
        let ghost cells0 = tree.cells@;
        let start: usize = order.len();
        assert(tree.cells@[c as int] == before.cells@[c as int]);
        order.extend_from_slice(tree.cells[c].point_ids.as_slice());
        proof {
            let next = before.cells@.take(c + 1);
            assert(next.drop_last() =~= before.cells@.take(c as int));
            assert(order@ =~= spread(next));
            spread_length(before.cells@.take(c as int));
            spread_length(next);
            crate::partition::point_total_grows(before.cells@, c + 1);
            spread_length(before.cells@);
        }
        let size: usize = tree.cells[c].point_ids.len();
        let mut ids: Vec<u32> = Vec::new();
        while ids.len() < size
            invariant
                ids@.len() <= size,
                start + size <= u32::MAX,
                forall|i: int| 0 <= i < ids@.len() ==> #[trigger] ids@[i] == start + i,
            decreases size - ids@.len(),
        {
            ids.push((start + ids.len()) as u32);
        }
        tree.cells[c].point_ids = ids;
        proof {
            assert forall|d: int, i: int|
                0 <= d < c + 1 && 0 <= i < tree.cells@[d].point_ids@.len() implies #[trigger] tree.cells@[d].point_ids@[i]
                == cell_start(before.cells@, d) + i by {
                if d < c {
                    assert(tree.cells@[d] == cells0[d]);
                    assert(cells0[d].point_ids@[i] == cell_start(before.cells@, d) + i);
                }
            }
        }
        c = c + 1;
    }
    proof {
        assert(before.cells@.take(before.cells@.len() as int) =~= before.cells@);
    }
    let dim: usize = store.dim;
    let vectors = reorder_rows(&store.vectors, &order, dim);
    let mut attrs: Vec<Vec<u32>> = Vec::new();
    while attrs.len() < store.attrs.len()
        invariant
            attrs@.len() <= store.attrs@.len(),
            store.wf(),
            order@.len() == store.len,
            forall|g: int| 0 <= g < store.len ==> #[trigger] order@[g] < store.len,
            forall|j: int|
                0 <= j < attrs@.len() ==> (#[trigger] attrs@[j])@.len() == store.len && forall|g: int|
                    0 <= g < store.len ==> #[trigger] attrs@[j]@[g] == store.attrs@[j]@[order@[g] as int],
        decreases store.attrs@.len() - attrs@.len(),
    {
        let j: usize = attrs.len();
        assert(store.attrs@[j as int]@.len() == store.len);
        attrs.push(reorder_column(&store.attrs[j], &order));
    }
    let after = PointStore { vectors, dim, len: store.len, attrs };
    proof {
        domain_is_kept(store.vectors@, after.vectors@, order@, dim as int);
        assert forall|g: int| 0 <= g < store.len implies #[trigger] after.row(g) == store.row(order@[g] as int) by {
            assert(row_of(after.vectors@, g, dim as int) == row_of(store.vectors@, order@[g] as int, dim as int));
        }
        assert forall|g: int| 0 <= g < store.len implies #[trigger] after.tuple(g) == store.tuple(order@[g] as int) by {
            assert(after.tuple(g) =~= store.tuple(order@[g] as int));
        }
        layout_catalogs(&before, store, &tree, &after, order@);
    }
    (after, tree, order)
}

/// Starts depend on the sizes alone.
proof fn same_starts(a: Seq<Cell>, b: Seq<Cell>, c: int)
    requires
        a.len() == b.len(),
        0 <= c <= a.len(),
        forall|d: int|
            0 <= d < a.len() ==> (#[trigger] b[d]).point_ids@.len() == a[d].point_ids@.len(),
    ensures
        cell_start(a, c) == cell_start(b, c),
    decreases c,
{
    if c > 0 {
        same_starts(a, b, c - 1);
        cell_start_steps(a, c - 1);
        cell_start_steps(b, c - 1);
    } else {
        assert(a.take(0) =~= Seq::<Cell>::empty());
        assert(b.take(0) =~= Seq::<Cell>::empty());
    }
}

proof fn layout_catalogs(
    before: &PartitionTree,
    store: &PointStore,
    tree: &PartitionTree,
    after: &PointStore,
    order: Seq<u32>,
)
    requires
        store.wf(),
        after.wf(),
        catalogs(before, store),
        in_order(before.cells@),
        order == spread(before.cells@),
        rearranged(store, after, order),
        tree.k == before.k,
        tree.split_order == before.split_order,
        tree.cell_postings == before.cell_postings,
        tree.cells@.len() == before.cells@.len(),
        forall|d: int|
            0 <= d < before.cells@.len() ==> (#[trigger] tree.cells@[d]).values == before.cells@[d].values
                && tree.cells@[d].point_ids@.len() == before.cells@[d].point_ids@.len(),
        forall|d: int, i: int|
            0 <= d < tree.cells@.len() && 0 <= i < tree.cells@[d].point_ids@.len()
                ==> #[trigger] tree.cells@[d].point_ids@[i] == cell_start(before.cells@, d) + i,
    ensures
        renumbered(before, tree),
        catalogs(tree, after),
        in_order(tree.cells@),
{
    spread_is_a_permutation(before, store);
    let old = before.cells@;
    let new = tree.cells@;
    assert(consecutive(new)) by {
        assert forall|c: int, i: int| 0 <= c < new.len() && 0 <= i < new[c].point_ids@.len() implies #[trigger] new[c].point_ids@[i]
            == point_total(new.take(c)) + i by {
            same_starts(old, new, c);
        }
    }
    assert forall|c: int, d: int| 0 <= c < d < new.len() implies (#[trigger] new[c]).values@ != (
    #[trigger] new[d]).values@ by {
        assert(old[c].values@ != old[d].values@);
    }
    assert(crate::partition::postings_fit(tree.cell_postings@, new, tree.k as int)) by {
        assert forall|j: int, v: u32| 0 <= j < tree.k implies #[trigger] crate::partition::posting_fits(
            tree.cell_postings@[j]@,
            new,
            j,
            v,
        ) by {
            let lists = tree.cell_postings@[j]@;
            assert(crate::partition::posting_fits(lists, old, j, v));
            if lists.contains_key(v) {
                assert forall|c: usize|
                    #![trigger lists[v]@.contains(c)]
                    lists[v]@.contains(c) <==> c < new.len() && new[c as int].values@[j] == v by {
                    assert(lists[v]@.contains(c) <==> c < old.len() && old[c as int].values@[j] == v);
                }
            } else {
                assert forall|c: int| 0 <= c < new.len() implies (#[trigger] new[c]).values@[j] != v by {
                    assert(old[c].values@[j] != v);
                }
            }
        }
    }
    assert forall|c: int| 0 <= c < new.len() implies ascending((#[trigger] new[c]).point_ids@) by {
        let ids = new[c].point_ids@;
        assert forall|i: int, j: int| 0 <= i < j < ids.len() implies ids[i].rank() < ids[j].rank() by {
            assert(ids[i] == cell_start(old, c) + i);
            assert(ids[j] == cell_start(old, c) + j);
        }
    }
    assert forall|c: int, d: int| 0 <= c < d < new.len() implies crate::tuples::lex_less(
        (#[trigger] new[c]).values@,
        (#[trigger] new[d]).values@,
    ) by {
        assert(crate::tuples::lex_less(old[c].values@, old[d].values@));
    }
    assert forall|c: int, p: u32| 0 <= c < new.len() implies (#[trigger] new[c].point_ids@.contains(p) <==> p
        < after.len && after.tuple(p as int) == new[c].values@) by {
        if new[c].point_ids@.contains(p) {
            let i = choose|i: int| 0 <= i < new[c].point_ids@.len() && new[c].point_ids@[i] == p;
            assert(p == cell_start(old, c) + i);
            spread_entry(old, c, i);
            assert(old[c].point_ids@.contains(order[p as int]));
            assert(after.tuple(p as int) == store.tuple(order[p as int] as int));
        }
        if p < after.len && after.tuple(p as int) == new[c].values@ {
            assert(after.tuple(p as int) == store.tuple(order[p as int] as int));
            let (d, i) = spread_source(old, p as int);
            spread_entry(old, d, i);
            assert(old[d].point_ids@.contains(order[p as int]));
            assert(old[d].values@ == old[c].values@);
            assert(d == c) by {
                if d < c {
                    assert(old[d].values@ != old[c].values@);
                } else if c < d {
                    assert(old[c].values@ != old[d].values@);
                }
            }
            assert(new[c].point_ids@[i] == cell_start(old, c) + i);
        }
    }
    assert forall|p: int| 0 <= p < after.len implies crate::partition::holds_tuple(new, #[trigger] after.tuple(p)) by {
        assert(after.tuple(p) == store.tuple(order[p] as int));
        assert(order[p] < store.len);
        assert(crate::partition::holds_tuple(old, store.tuple(order[p] as int)));
        let c = choose|c: int|
            0 <= c < old.len() && (#[trigger] old[c]).values@ == store.tuple(order[p] as int);
        assert(new[c].values@ == after.tuple(p));
    }
    assert forall|c: int| 0 <= c < new.len() implies (#[trigger] new[c]).values@ == old[c].values@
        && new[c].point_ids@.len() == old[c].point_ids@.len() by {
    }
    assert(populated(new)) by {
        assert forall|c: int| 0 <= c < new.len() implies (#[trigger] new[c]).point_ids@.len() > 0 by {
            assert(old[c].point_ids@.len() > 0);
        }
    }
}

} // verus!
