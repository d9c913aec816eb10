//! Partition of the points by their full attribute tuple.

use std::collections::HashMap;
use vstd::prelude::*;
use vstd::std_specs::hash::*;
use crate::error::{
    invalid_format, invalid_input, overflow, refused_format, refused_input, refused_size,
    PrismResult,
};
use crate::filter::{tuple_passes, within_schema, Constraint, Filter};
use crate::order::{ascending, ascending_set, common, Ranked};
use crate::point::PointStore;
use crate::tuples::{lex_less, lex_less_is_asymmetric, lex_less_is_transitive, side_of, Side};

verus! {

/// The points that share one attribute tuple.
#[derive(Debug)]
pub struct Cell {
    /// The tuple, one value per attribute.
    pub values: Vec<u32>,
    /// The points.
    pub point_ids: Vec<u32>,
}

impl Cell {
    /// A cell as it was persisted; `PartitionTree::from_parts` checks it.
    pub fn from_parts(values: Vec<u32>, point_ids: Vec<u32>) -> (cell: Cell)
        ensures
            cell.values@ == values@,
            cell.point_ids@ == point_ids@,
    {
        Cell { values, point_ids }
    }

    /// The tuple of this cell.
    pub fn values(&self) -> (values: &[u32])
        ensures
            values@ == self.values@,
    {
        self.values.as_slice()
    }

    /// The points of this cell.
    pub fn point_ids(&self) -> (ids: &[u32])
        ensures
            ids@ == self.point_ids@,
    {
        self.point_ids.as_slice()
    }
}

/// Catalog of the populated attribute tuples, with a posting list per
/// attribute value.
pub struct PartitionTree {
    pub cells: Vec<Cell>,
    /// The attributes, those with most distinct values first.
    pub split_order: Vec<usize>,
    /// Number of attributes.
    pub k: usize,
    /// For each attribute, the cells that have a given value of it.
    pub cell_postings: Vec<HashMap<u32, Vec<usize>>>,
}

/// Every tuple has one value per attribute, and no two cells share a tuple.
pub open spec fn tuples_distinct(cells: Seq<Cell>, k: int) -> bool {
    &&& forall|c: int| 0 <= c < cells.len() ==> (#[trigger] cells[c]).values@.len() == k
    &&& forall|c: int, d: int|
        0 <= c < d < cells.len() ==> (#[trigger] cells[c]).values@ != (#[trigger] cells[d]).values@
}

/// Each number below `k` occurs once.
pub open spec fn is_permutation(order: Seq<usize>, k: int) -> bool {
    &&& order.len() == k
    &&& order.no_duplicates()
    &&& forall|i: int| 0 <= i < order.len() ==> #[trigger] order[i] < k
}

/// Number of points of all cells together.
pub open spec fn point_total(cells: Seq<Cell>) -> nat
    decreases cells.len(),
{
    if cells.len() == 0 {
        0
    } else {
        point_total(cells.drop_last()) + cells.last().point_ids@.len()
    }
}

/// The cells hold the point identifiers from zero on, cell after cell.
pub open spec fn consecutive(cells: Seq<Cell>) -> bool {
    forall|c: int, i: int|
        0 <= c < cells.len() && 0 <= i < cells[c].point_ids@.len() ==> #[trigger] cells[c].point_ids@[i]
            == point_total(cells.take(c)) + i
}

/// No cell is empty.
pub open spec fn populated(cells: Seq<Cell>) -> bool {
    forall|c: int| 0 <= c < cells.len() ==> (#[trigger] cells[c]).point_ids@.len() > 0
}

/// What a persisted catalog has to satisfy.
pub open spec fn catalog_valid(
    cells: Seq<Cell>,
    split_order: Seq<usize>,
    k: int,
    point_count: int,
) -> bool {
    &&& is_permutation(split_order, k)
    &&& tuples_distinct(cells, k)
    &&& populated(cells)
    &&& consecutive(cells)
    &&& point_total(cells) == point_count
}

/// The posting lists name, for each attribute value, the cells that have it.
pub open spec fn postings_fit(
    postings: Seq<HashMap<u32, Vec<usize>>>,
    cells: Seq<Cell>,
    k: int,
) -> bool {
    &&& postings.len() == k
    &&& forall|j: int, v: u32|
        0 <= j < k ==> #[trigger] posting_fits(postings[j]@, cells, j, v)
}

/// The posting list of value `v` of attribute `j`.
pub open spec fn posting_fits(
    lists: Map<u32, Vec<usize>>,
    cells: Seq<Cell>,
    j: int,
    v: u32,
) -> bool {
    &&& lists.contains_key(v) ==> ascending(lists[v]@) && forall|c: usize|
        #![trigger lists[v]@.contains(c)]
        lists[v]@.contains(c) <==> c < cells.len() && cells[c as int].values@[j] == v
    &&& !lists.contains_key(v) ==> forall|c: int|
        0 <= c < cells.len() ==> (#[trigger] cells[c]).values@[j] != v
}

/// The tree catalogs exactly the points of `store`.
pub open spec fn catalogs(tree: &PartitionTree, store: &PointStore) -> bool {
    &&& tree.wf()
    &&& tree.k == store.arity()
    &&& populated(tree.cells@)
    &&& forall|c: int, p: u32|
        0 <= c < tree.cells@.len() ==> (#[trigger] tree.cells@[c].point_ids@.contains(p) <==> p
            < store.len && store.tuple(p as int) == tree.cells@[c].values@)
    &&& forall|p: int|
        0 <= p < store.len ==> holds_tuple(tree.cells@, #[trigger] store.tuple(p))
}

/// Some cell has this tuple.
pub open spec fn holds_tuple(cells: Seq<Cell>, tuple: Seq<u32>) -> bool {
    exists|c: int| 0 <= c < cells.len() && (#[trigger] cells[c]).values@ == tuple
}

/// Cells ascend by tuple, and the points of each ascend.
pub open spec fn in_order(cells: Seq<Cell>) -> bool {
    &&& forall|c: int, d: int|
        0 <= c < d < cells.len() ==> lex_less(
            (#[trigger] cells[c]).values@,
            (#[trigger] cells[d]).values@,
        )
    &&& forall|c: int| 0 <= c < cells.len() ==> ascending((#[trigger] cells[c]).point_ids@)
}

/// Attributes with more distinct values come first; ties keep their order.
pub open spec fn by_cardinality(order: Seq<usize>, store: &PointStore) -> bool {
    forall|a: int, b: int|
        0 <= a < b < order.len() ==> {
            let x = store.attrs@[(#[trigger] order[a]) as int]@.to_set().len();
            let y = store.attrs@[(#[trigger] order[b]) as int]@.to_set().len();
            x > y || (x == y && order[a] < order[b])
        }
}

/// The points of the listed cells, in list order.
pub open spec fn gathered(cells: Seq<Cell>, indices: Seq<usize>) -> Seq<u32>
    decreases indices.len(),
{
    if indices.len() == 0 {
        Seq::empty()
    } else {
        gathered(cells, indices.drop_last()) + cells[indices.last() as int].point_ids@
    }
}

/// Every index names a cell.
pub open spec fn names_cells(indices: Seq<usize>, count: int) -> bool {
    forall|i: int| 0 <= i < indices.len() ==> #[trigger] indices[i] < count
}

impl PartitionTree {
    /// What holds of every valid value.
    pub open spec fn wf(&self) -> bool {
        &&& tuples_distinct(self.cells@, self.k as int)
        &&& is_permutation(self.split_order@, self.k as int)
        &&& postings_fit(self.cell_postings@, self.cells@, self.k as int)
    }

    /// Cell `c` meets every condition.
    pub open spec fn cell_passes(&self, constraints: Seq<Constraint>, c: int) -> bool {
        0 <= c < self.cells@.len() && tuple_passes(constraints, self.cells@[c].values@)
    }

    /// The catalog of a store.
    pub fn build(store: &PointStore) -> (tree: PartitionTree)
        requires
            store.wf(),
        ensures
            catalogs(&tree, store),
            in_order(tree.cells@),
            by_cardinality(tree.split_order@, store),
    {
        let k: usize = store.k();
        let split_order = cardinality_order(store);
        let cells = group_points(store);
        let cell_postings = build_cell_postings(&cells, k);
        proof {
            assert forall|c: int, d: int| 0 <= c < d < cells@.len() implies (#[trigger] cells@[c]).values@ != (
            #[trigger] cells@[d]).values@ by {
                lex_less_is_asymmetric(cells@[c].values@, cells@[d].values@);
            }
        }
        PartitionTree { cells, split_order, k, cell_postings }
    }

    /// The cells whose tuple meets every condition, ascending.
    pub fn filter_cells(&self, constraints: &[Constraint]) -> (result: PrismResult<Vec<usize>>)
        requires
            self.wf(),
        ensures
            result is Ok <==> within_schema(constraints@, self.k as int),
            result is Err ==> refused_input(result),
            result matches Ok(list) ==> ascending(list@) && forall|c: usize|
                list@.contains(c) <==> self.cell_passes(constraints@, c as int),
    {
        let mut i: usize = 0;
        while i < constraints.len()
            invariant
                i <= constraints@.len(),
                forall|c: int| 0 <= c < i ==> (#[trigger] constraints@[c]).0 < self.k,
            decreases constraints@.len() - i,
        {
            if constraints[i].0 >= self.k {
                assert(!(constraints@[i as int].0 < self.k));
                return Err(invalid_input("attribute index is out of range"));
            }
            i = i + 1;
        }
        Ok(self.filter_cells_unchecked(constraints))
    }

    /// The cells that meet conditions on attributes that are known to exist.
    pub fn filter_cells_unchecked(&self, constraints: &[Constraint]) -> (list: Vec<usize>)
        requires
            self.wf(),
            within_schema(constraints@, self.k as int),
        ensures
            ascending(list@),
            forall|c: usize| list@.contains(c) <==> self.cell_passes(constraints@, c as int),
            names_cells(list@, self.cells@.len() as int),
    {
        let mut list: Vec<usize> = Vec::new();
        while list.len() < self.cells.len()
            invariant
                list@.len() <= self.cells@.len(),
                forall|i: int| 0 <= i < list@.len() ==> list@[i] == i,
            decreases self.cells@.len() - list@.len(),
        {
            let next: usize = list.len();
            list.push(next);
        }
        proof {
            assert forall|c: usize| list@.contains(c) <==> self.cell_passes(constraints@.take(0), c as int) by {
                if c < list@.len() {
                    assert(list@[c as int] == c);
                }
            }
        }
        let mut n: usize = 0;
        while n < constraints.len()
            invariant
                n <= constraints@.len(),
                self.wf(),
                within_schema(constraints@, self.k as int),
                ascending(list@),
                forall|c: usize|
                    list@.contains(c) <==> self.cell_passes(constraints@.take(n as int), c as int),
            decreases constraints@.len() - n,
        {
            let matching = self.cells_with(constraints[n].0, &constraints[n].1);
            let ghost before = list@;
            list = common(list.as_slice(), matching.as_slice());
            proof {
                let seen = constraints@.take(n as int);
                let next = constraints@.take(n + 1);
                assert(next =~= seen.push(constraints@[n as int]));
                assert forall|c: usize| list@.contains(c) <==> self.cell_passes(next, c as int) by {
                    assert(list@.contains(c) <==> before.contains(c) && matching@.contains(c));
                    if c < self.cells@.len() {
                        passes_push(seen, constraints@[n as int], self.cells@[c as int].values@);
                    }
                }
            }
            n = n + 1;
        }
        proof {
            assert(constraints@.take(constraints@.len() as int) =~= constraints@);
            assert forall|i: int| 0 <= i < list@.len() implies #[trigger] list@[i] < self.cells@.len() by {
                assert(list@.contains(list@[i]));
            }
        }
        list
    }

    /// The cells that have one of the allowed values of attribute `j`.
    fn cells_with(&self, j: usize, allowed: &Vec<u32>) -> (list: Vec<usize>)
        requires
            self.wf(),
            j < self.k,
        ensures
            ascending(list@),
            forall|c: usize|
                #![trigger list@.contains(c)]
                list@.contains(c) <==> c < self.cells@.len() && allowed@.contains(
                    self.cells@[c as int].values@[j as int],
                ),
    {
        broadcast use group_hash_axioms;

        let mut found: Vec<usize> = Vec::new();
        let mut i: usize = 0;
        while i < allowed.len()
            invariant
                i <= allowed@.len(),
                self.wf(),
                j < self.k,
                forall|c: usize|
                    #![trigger found@.contains(c)]
                    found@.contains(c) <==> c < self.cells@.len() && allowed@.take(i as int).contains(
                        self.cells@[c as int].values@[j as int],
                    ),
            decreases allowed@.len() - i,
        {
            broadcast use group_hash_axioms;

            let v: u32 = allowed[i];
            let ghost before = found@;
            let ghost seen = allowed@.take(i as int);
            let ghost next = allowed@.take(i + 1);
            proof {
                assert(next =~= seen.push(v));
                assert(posting_fits(self.cell_postings@[j as int]@, self.cells@, j as int, v));
            }
            match self.cell_postings[j].get(&v) {
                Some(posting) => {
                    found.extend_from_slice(posting.as_slice());
                    proof {
                        assert(found@ =~= before + posting@);
                        assert forall|c: usize|
                            #![trigger found@.contains(c)]
                            found@.contains(c) <==> c < self.cells@.len() && next.contains(
                                self.cells@[c as int].values@[j as int],
                            ) by {
                            contains_sum(before, posting@, c);
                            if c < self.cells@.len() {
                                contains_push(seen, v, self.cells@[c as int].values@[j as int]);
                            }
                            assert(before.contains(c) <==> c < self.cells@.len() && seen.contains(
                                self.cells@[c as int].values@[j as int],
                            ));
                            assert(posting@.contains(c) <==> c < self.cells@.len()
                                && self.cells@[c as int].values@[j as int] == v);
                        }
                    }
                },
                None => {
                    proof {
                        assert forall|c: usize|
                            #![trigger found@.contains(c)]
                            found@.contains(c) <==> c < self.cells@.len() && next.contains(
                                self.cells@[c as int].values@[j as int],
                            ) by {
                            if c < self.cells@.len() {
                                contains_push(seen, v, self.cells@[c as int].values@[j as int]);
                                assert(self.cells@[c as int].values@[j as int] != v);
                            }
                        }
                    }
                },
            }
            i = i + 1;
        }
        assert(allowed@.take(allowed@.len() as int) =~= allowed@);
        ascending_set(found.as_slice())
    }

    /// Number of points in the listed cells.
    pub fn count_points(&self, cell_indices: &[usize]) -> (result: PrismResult<usize>)
        ensures
            refused_input(result) <==> !names_cells(cell_indices@, self.cells@.len() as int),
            refused_size(result) <==> !refused_input(result) && gathered(
                self.cells@,
                cell_indices@,
            ).len() > usize::MAX,
            result is Err ==> refused_input(result) || refused_size(result),
            result matches Ok(count) ==> count == gathered(self.cells@, cell_indices@).len(),
    {
        let mut i: usize = 0;
        while i < cell_indices.len()
            invariant
                i <= cell_indices@.len(),
                forall|c: int| 0 <= c < i ==> #[trigger] cell_indices@[c] < self.cells@.len(),
            decreases cell_indices@.len() - i,
        {
            if cell_indices[i] >= self.cells.len() {
                assert(!(cell_indices@[i as int] < self.cells@.len()));
                return Err(invalid_input("cell index is out of range"));
            }
            i = i + 1;
        }
        match self.count_points_unchecked(cell_indices) {
            Some(count) => Ok(count),
            None => Err(overflow("selected point count overflowed usize")),
        }
    }

    /// Number of points in cells that are known to exist, if it fits.
    pub fn count_points_unchecked(&self, cell_indices: &[usize]) -> (count: Option<usize>)
        requires
            names_cells(cell_indices@, self.cells@.len() as int),
        ensures
            count is Some <==> gathered(self.cells@, cell_indices@).len() <= usize::MAX,
            count matches Some(n) ==> n == gathered(self.cells@, cell_indices@).len(),
    {
        let mut total: usize = 0;
        let mut i: usize = 0;
        while i < cell_indices.len()
            invariant
                i <= cell_indices@.len(),
                names_cells(cell_indices@, self.cells@.len() as int),
                total == gathered(self.cells@, cell_indices@.take(i as int)).len(),
            decreases cell_indices@.len() - i,
        {
            proof {
                assert(cell_indices@.take(i + 1).drop_last() =~= cell_indices@.take(i as int));
                gathered_grows(self.cells@, cell_indices@, i + 1);
                assert(cell_indices@[i as int] < self.cells@.len());
            }
            let here: usize = self.cells[cell_indices[i]].point_ids.len();
            match total.checked_add(here) {
                Some(sum) => {
                    total = sum;
                },
                None => {
                    return None;
                },
            }
            i = i + 1;
        }
        assert(cell_indices@.take(cell_indices@.len() as int) =~= cell_indices@);
        Some(total)
    }

    /// The points of the listed cells, in list order.
    pub fn collect_points(&self, cell_indices: &[usize]) -> (result: PrismResult<Vec<u32>>)
        ensures
            refused_input(result) <==> !names_cells(cell_indices@, self.cells@.len() as int),
            refused_size(result) <==> !refused_input(result) && gathered(
                self.cells@,
                cell_indices@,
            ).len() > usize::MAX,
            result is Err ==> refused_input(result) || refused_size(result),
            result matches Ok(points) ==> points@ == gathered(self.cells@, cell_indices@),
    {
        match self.count_points(cell_indices) {
            Ok(_) => {
                let mut points: Vec<u32> = Vec::new();
                self.collect_points_unchecked(cell_indices, &mut points);
                assert(points@ =~= gathered(self.cells@, cell_indices@));
                Ok(points)
            },
            Err(error) => Err(error),
        }
    }

    /// Appends the points of cells that are known to exist.
    pub fn collect_points_unchecked(&self, cell_indices: &[usize], points: &mut Vec<u32>)
        requires
            names_cells(cell_indices@, self.cells@.len() as int),
        ensures
            final(points)@ == old(points)@ + gathered(self.cells@, cell_indices@),
    {
        let mut i: usize = 0;
        assert(points@ =~= old(points)@ + gathered(self.cells@, cell_indices@.take(0)));
        while i < cell_indices.len()
            invariant
                i <= cell_indices@.len(),
                names_cells(cell_indices@, self.cells@.len() as int),
                points@ == old(points)@ + gathered(self.cells@, cell_indices@.take(i as int)),
            decreases cell_indices@.len() - i,
        {
            let ghost before = points@;
            proof {
                assert(cell_indices@.take(i + 1).drop_last() =~= cell_indices@.take(i as int));
                assert(cell_indices@[i as int] < self.cells@.len());
            }
            let ids = self.cells[cell_indices[i]].point_ids.as_slice();
            points.extend_from_slice(ids);
            assert(points@ =~= before + ids@);
            assert(points@ =~= old(points)@ + gathered(self.cells@, cell_indices@.take(i + 1)));
            i = i + 1;
        }
        assert(cell_indices@.take(cell_indices@.len() as int) =~= cell_indices@);
    }

    /// The cell that a point of `store` belongs to.
    pub fn cell_of(&self, store: &PointStore, point_id: u32) -> (result: PrismResult<
        Option<usize>,
    >)
        requires
            self.wf(),
            store.wf(),
        ensures
            result is Ok <==> store.arity() == self.k,
            result is Err ==> refused_input(result),
            result matches Ok(found) ==> match found {
                Some(c) => point_id < store.len && c < self.cells@.len() && self.cells@[c as int].values@
                    == store.tuple(point_id as int),
                None => point_id >= store.len || forall|c: int|
                    0 <= c < self.cells@.len() ==> (#[trigger] self.cells@[c]).values@ != store.tuple(
                        point_id as int,
                    ),
            },
    {
        if store.k() != self.k {
            return Err(
                invalid_input("point-store attribute count must equal the partition schema"),
            );
        }
        if point_id as usize >= store.len() {
            return Ok(None);
        }
        Ok(self.cell_of_unchecked(store, point_id))
    }

    /// The cell of a point that is known to exist, in a store of this schema.
    pub fn cell_of_unchecked(&self, store: &PointStore, point_id: u32) -> (found: Option<usize>)
        requires
            self.wf(),
            store.wf(),
            store.arity() == self.k,
            point_id < store.len,
        ensures
            found matches Some(c) ==> c < self.cells@.len() && self.cells@[c as int].values@
                == store.tuple(point_id as int),
            found is None ==> forall|c: int|
                0 <= c < self.cells@.len() ==> (#[trigger] self.cells@[c]).values@ != store.tuple(
                    point_id as int,
                ),
    {
        let key = tuple_of(store, point_id);
        let mut c: usize = 0;
        while c < self.cells.len()
            invariant
                c <= self.cells@.len(),
                self.wf(),
                key@ == store.tuple(point_id as int),
                key@.len() == self.k,
                forall|d: int| 0 <= d < c ==> (#[trigger] self.cells@[d]).values@ != key@,
            decreases self.cells@.len() - c,
        {
            if side_of(self.cells[c].values.as_slice(), key.as_slice()) == Side::Same {
                return Some(c);
            }
            c = c + 1;
        }
        None
    }

    /// A catalog from its persisted parts.
    pub fn from_parts(
        cells: Vec<Cell>,
        split_order: Vec<usize>,
        k: usize,
        point_count: usize,
    ) -> (result: PrismResult<PartitionTree>)
        ensures
            refused_size(result) <==> point_count > u32::MAX,
            refused_format(result) <==> point_count <= u32::MAX && !catalog_valid(
                cells@,
                split_order@,
                k as int,
                point_count as int,
            ),
            result is Err ==> refused_size(result) || refused_format(result),
            result matches Ok(tree) ==> tree.wf() && tree.cells@ == cells@ && tree.split_order@
                == split_order@ && tree.k == k,
    {
        if point_count > u32::MAX as usize {
            return Err(overflow("partition point count exceeds the u32 identifier space"));
        }
        if !check_permutation(&split_order, k) {
            return Err(invalid_format("partition split order must be a permutation of 0..k"));
        }
        let mut order: Vec<usize> = Vec::new();
        let mut expected: usize = 0;
        let mut c: usize = 0;
        while c < cells.len()
            invariant
                c <= cells@.len(),
                point_count <= u32::MAX,
                order@.len() == c,
                sorts(order@, cells@, c as int, k as int),
                expected <= point_count,
                expected == point_total(cells@.take(c as int)),
                tuples_distinct(cells@.take(c as int), k as int),
                populated(cells@.take(c as int)),
                forall|d: int, i: int|
                    0 <= d < c && 0 <= i < cells@[d].point_ids@.len() ==> #[trigger] cells@[d].point_ids@[i]
                        == point_total(cells@.take(d)) + i,
            decreases cells@.len() - c,
        {
            if cells[c].values.len() != k {
                assert(!tuples_distinct(cells@, k as int)) by {
                    assert(cells@[c as int].values@.len() != k);
                }
                return Err(invalid_format("partition cell has the wrong number of values"));
            }
            let (at, known): (usize, bool) = locate(&cells, &order, cells[c].values.as_slice(), c, k);
            if known {
                proof {
                    let d = order@[at as int] as int;
                    assert(cells@[d].values@ == cells@[c as int].values@);
                }
                return Err(invalid_format("partition cell duplicates a full attribute tuple"));
            }
            let size: usize = cells[c].point_ids.len();
            if size == 0 {
                assert(!populated(cells@)) by {
                    assert(cells@[c as int].point_ids@.len() == 0);
                }
                return Err(invalid_format("partition cell is empty"));
            }
            let mut i: usize = 0;
            proof {
                point_total_grows(cells@, c + 1);
                assert(cells@.take(c + 1).drop_last() =~= cells@.take(c as int));
            }
            if size > point_count - expected {
                return Err(invalid_format("partition cells contain more than the declared points"));
            }
            while i < size
                invariant
                    i <= size,
                    c < cells@.len(),
                    size == cells@[c as int].point_ids@.len(),
                    expected + size <= point_count <= u32::MAX,
                    expected == point_total(cells@.take(c as int)),
                    forall|m: int|
                        0 <= m < i ==> #[trigger] cells@[c as int].point_ids@[m] == expected + m,
                decreases size - i,
            {
                if cells[c].point_ids[i] as usize != expected + i {
                    assert(!consecutive(cells@)) by {
                        assert(cells@[c as int].point_ids@[i as int] != expected + i);
                    }
                    return Err(
                        invalid_format("partition cells must cover contiguous point identifiers"),
                    );
                }
                i = i + 1;
            }
            proof {
                fresh_tuple(cells@, order@, c as int, k as int, at as int);
                extend_sorts(cells@, order@, c as int, k as int, at as int);
                assert forall|d: int| 0 <= d < c + 1 implies (#[trigger] cells@.take(c + 1)[d]).point_ids@.len() > 0 by {
                    if d < c {
                        assert(cells@.take(c as int)[d] == cells@[d]);
                    }
                }
            }
            order.insert(at, c);
            expected = expected + size;
            c = c + 1;
        }
        assert(cells@.take(cells@.len() as int) =~= cells@);
        if expected != point_count {
            return Err(invalid_format("partition cells must cover every point"));
        }
        assert(consecutive(cells@));
        let cell_postings = build_cell_postings(&cells, k);
        Ok(PartitionTree { cells, split_order, k, cell_postings })
    }

    /// The cells.
    pub fn cells(&self) -> (cells: &[Cell])
        ensures
            cells@ == self.cells@,
    {
        self.cells.as_slice()
    }

    /// The attributes in split order.
    pub fn split_order(&self) -> (order: &[usize])
        ensures
            order@ == self.split_order@,
    {
        self.split_order.as_slice()
    }

    /// Number of attributes.
    pub fn num_attributes(&self) -> (k: usize)
        ensures
            k == self.k,
    {
        self.k
    }
}

/// The tuple of a point that is known to exist.
pub fn tuple_of(store: &PointStore, id: u32) -> (tuple: Vec<u32>)
    requires
        store.wf(),
        id < store.len,
    ensures
        tuple@ == store.tuple(id as int),
{
    let mut tuple: Vec<u32> = Vec::new();
    while tuple.len() < store.k()
        invariant
            store.wf(),
            id < store.len,
            tuple@.len() <= store.arity(),
            forall|j: int| 0 <= j < tuple@.len() ==> tuple@[j] == store.attr_at(id as int, j),
        decreases store.arity() - tuple@.len(),
    {
        let j: usize = tuple.len();
        tuple.push(store.attr_unchecked(id, j));
    }
    assert(tuple@ =~= store.tuple(id as int));
    tuple
}

/// The attributes, those with most distinct values first.
fn cardinality_order(store: &PointStore) -> (order: Vec<usize>)
    requires
        store.wf(),
    ensures
        is_permutation(order@, store.arity()),
        by_cardinality(order@, store),
{
    let mut order: Vec<usize> = Vec::new();
    let mut j: usize = 0;
    while j < store.k()
        invariant
            store.wf(),
            j <= store.arity(),
            is_permutation(order@, j as int),
            by_cardinality(order@, store),
        decreases store.arity() - j,
    {
        let here: usize = store.cardinality_unchecked(j);
        let mut at: usize = 0;
        while at < order.len() && store.cardinality_unchecked(order[at]) >= here
            invariant
                at <= order@.len(),
                is_permutation(order@, j as int),
                j < store.arity(),
                forall|i: int|
                    0 <= i < at ==> store.attrs@[(#[trigger] order@[i]) as int]@.to_set().len() >= here,
            decreases order@.len() - at,
        {
            at = at + 1;
        }
        let ghost before = order@;
        order.insert(at, j);
        proof {
            let after = order@;
            assert forall|i: int| 0 <= i < after.len() implies #[trigger] after[i] < j + 1 by {
                if i < at {
                    assert(before[i] < j);
                } else if i > at {
                    assert(before[i - 1] < j);
                }
            }
            assert forall|a: int, b: int| 0 <= a < after.len() && 0 <= b < after.len() && a != b implies after[a] != after[b] by {
                let p = if a < at { a } else { a - 1 };
                let q = if b < at { b } else { b - 1 };
                if a != at {
                    assert(after[a] == before[p] && before[p] < j);
                }
                if b != at {
                    assert(after[b] == before[q] && before[q] < j);
                }
            }
            assert forall|a: int, b: int| 0 <= a < b < after.len() implies {
                let x = store.attrs@[(#[trigger] after[a]) as int]@.to_set().len();
                let y = store.attrs@[(#[trigger] after[b]) as int]@.to_set().len();
                x > y || (x == y && after[a] < after[b])
            } by {
                let p = if a < at { a } else { a - 1 };
                let q = if b < at { b } else { b - 1 };
                if a != at {
                    assert(after[a] == before[p] && before[p] < j);
                }
                if b != at {
                    assert(after[b] == before[q] && before[q] < j);
                }
                if a == at && b > at {
                    assert(store.attrs@[before[at as int] as int]@.to_set().len() < here);
                    if q > at {
                        assert(by_cardinality(before, store));
                        assert(before[at as int] < j);
                    }
                }
            }
        }
        j = j + 1;
    }
    order
}

/// Cells listed in `order` ascend by tuple, and all of the first `c` are listed.
spec fn sorts(order: Seq<usize>, cells: Seq<Cell>, c: int, k: int) -> bool {
    &&& c <= cells.len()
    &&& forall|i: int| 0 <= i < order.len() ==> #[trigger] order[i] < c
    &&& forall|d: int| 0 <= d < c ==> (#[trigger] cells[d]).values@.len() == k
    &&& forall|d: int| 0 <= d < c ==> #[trigger] order.contains(d as usize)
    &&& forall|i: int, j: int|
        0 <= i < j < order.len() ==> lex_less(
            cells[#[trigger] order[i] as int].values@,
            cells[#[trigger] order[j] as int].values@,
        )
}

/// Finds a tuple among the listed cells, or the place where it belongs.
fn locate(cells: &Vec<Cell>, order: &Vec<usize>, key: &[u32], c: usize, k: usize) -> (found: (
    usize,
    bool,
))
    requires
        sorts(order@, cells@, c as int, k as int),
        key@.len() == k,
    ensures
        found.0 <= order@.len(),
        found.1 ==> found.0 < order@.len() && cells@[order@[found.0 as int] as int].values@ == key@,
        !found.1 ==> forall|i: int|
            0 <= i < found.0 ==> lex_less(cells@[#[trigger] order@[i] as int].values@, key@),
        !found.1 ==> forall|i: int|
            found.0 <= i < order@.len() ==> lex_less(
                key@,
                cells@[#[trigger] order@[i] as int].values@,
            ),
{
    let mut low: usize = 0;
    let mut high: usize = order.len();
    while low < high
        invariant
            low <= high <= order@.len(),
            sorts(order@, cells@, c as int, k as int),
            key@.len() == k,
            forall|i: int| 0 <= i < low ==> lex_less(cells@[#[trigger] order@[i] as int].values@, key@),
            forall|i: int|
                high <= i < order@.len() ==> lex_less(key@, cells@[#[trigger] order@[i] as int].values@),
        decreases high - low,
    {
        let mid: usize = low + (high - low) / 2;
        let index: usize = order[mid];
        let ghost here = cells@[order@[mid as int] as int].values@;
        match side_of(cells[index].values.as_slice(), key) {
            Side::Same => {
                return (mid, true);
            },
            Side::Before => {
                proof {
                    assert forall|i: int| 0 <= i < mid + 1 implies lex_less(
                        cells@[#[trigger] order@[i] as int].values@,
                        key@,
                    ) by {
                        if i < mid {
                            assert(order@[i] < c);
                            lex_less_is_transitive(cells@[order@[i] as int].values@, here, key@);
                        }
                    }
                }
                low = mid + 1;
            },
            Side::After => {
                proof {
                    assert forall|i: int| mid <= i < order@.len() implies lex_less(
                        key@,
                        cells@[#[trigger] order@[i] as int].values@,
                    ) by {
                        if i > mid {
                            assert(order@[i] < c);
                            lex_less_is_transitive(key@, here, cells@[order@[i] as int].values@);
                        }
                    }
                }
                high = mid;
            },
        }
    }
    (low, false)
}

proof fn fresh_tuple(cells: Seq<Cell>, order: Seq<usize>, c: int, k: int, at: int)
    requires
        0 <= c < cells.len(),
        c <= usize::MAX,
        sorts(order, cells, c, k),
        cells[c].values@.len() == k,
        0 <= at <= order.len(),
        forall|i: int| 0 <= i < at ==> lex_less(cells[#[trigger] order[i] as int].values@, cells[c].values@),
        forall|i: int|
            at <= i < order.len() ==> lex_less(cells[c].values@, cells[#[trigger] order[i] as int].values@),
        tuples_distinct(cells.take(c), k),
    ensures
        tuples_distinct(cells.take(c + 1), k),
        forall|d: int| 0 <= d < c ==> (#[trigger] cells[d]).values@ != cells[c].values@,
{
    let grown = cells.take(c + 1);
    assert forall|d: int| 0 <= d < c implies (#[trigger] cells[d]).values@ != cells[c].values@ by {
        assert(order.contains(d as usize));
        let i = choose|i: int| 0 <= i < order.len() && order[i] == d as usize;
        if i < at {
            lex_less_is_asymmetric(cells[order[i] as int].values@, cells[c].values@);
        } else {
            lex_less_is_asymmetric(cells[c].values@, cells[order[i] as int].values@);
        }
    }
    assert forall|d: int| 0 <= d < grown.len() implies (#[trigger] grown[d]).values@.len() == k by {
        assert(grown[d] == cells[d]);
    }
    assert forall|a: int, b: int| 0 <= a < b < grown.len() implies (#[trigger] grown[a]).values@ != (#[trigger] grown[b]).values@ by {
        assert(grown[a] == cells[a]);
        assert(grown[b] == cells[b]);
        if b < c {
            assert(cells.take(c)[a] == cells[a]);
            assert(cells.take(c)[b] == cells[b]);
        }
    }
}

proof fn extend_sorts(cells: Seq<Cell>, order: Seq<usize>, c: int, k: int, at: int)
    requires
        0 <= c < cells.len(),
        c <= usize::MAX,
        sorts(order, cells, c, k),
        cells[c].values@.len() == k,
        0 <= at <= order.len(),
        forall|i: int| 0 <= i < at ==> lex_less(cells[#[trigger] order[i] as int].values@, cells[c].values@),
        forall|i: int|
            at <= i < order.len() ==> lex_less(cells[c].values@, cells[#[trigger] order[i] as int].values@),
    ensures
        sorts(order.insert(at, c as usize), cells, c + 1, k),
{
    let after = order.insert(at, c as usize);
    assert forall|i: int| 0 <= i < after.len() implies #[trigger] after[i] < c + 1 by {
        if i < at {
            assert(order[i] < c);
        } else if i > at {
            assert(order[i - 1] < c);
        }
    }
    assert forall|d: int| 0 <= d < c + 1 implies #[trigger] after.contains(d as usize) by {
        if d < c {
            assert(order.contains(d as usize));
            let i = choose|i: int| 0 <= i < order.len() && order[i] == d as usize;
            assert(after[if i < at { i } else { i + 1 }] == d as usize);
        } else {
            assert(after[at] == c as usize);
        }
    }
    assert forall|i: int, j: int| 0 <= i < j < after.len() implies lex_less(
        cells[#[trigger] after[i] as int].values@,
        cells[#[trigger] after[j] as int].values@,
    ) by {
        let p = if i < at { i } else { i - 1 };
        let q = if j < at { j } else { j - 1 };
        if i != at {
            assert(after[i] == order[p]);
        }
        if j != at {
            assert(after[j] == order[q]);
        }
    }
}

/// Points grouped by tuple, in ascending order of tuples.
fn group_points(store: &PointStore) -> (cells: Vec<Cell>)
    requires
        store.wf(),
    ensures
        groups(cells@, store, store.len as int),
        in_order(cells@),
{
    let k: usize = store.k();
    let mut cells: Vec<Cell> = Vec::new();
    let mut order: Vec<usize> = Vec::new();
    let mut p: usize = 0;
    while p < store.len()
        invariant
            store.wf(),
            k == store.arity(),
            p <= store.len,
            sorts(order@, cells@, cells@.len() as int, k as int),
            groups(cells@, store, p as int),
        decreases store.len - p,
    {
        let id: u32 = p as u32;
        let key = tuple_of(store, id);
        let count: usize = cells.len();
        let (at, known): (usize, bool) = locate(&cells, &order, key.as_slice(), count, k);
        let ghost before = cells@;
        if known {
            let c: usize = order[at];
            cells[c].point_ids.push(id);
            proof {
                listed_tuples_differ(order@, before, k as int, c as int);
                joins_cell(before, cells@, store, p as int, c as int);
                assert(cells@[c as int].values@ == before[c as int].values@);
                same_tuples_sort(order@, before, cells@, k as int);
            }
        } else {
            let mut ids: Vec<u32> = Vec::new();
            ids.push(id);
            let c: usize = cells.len();
            cells.push(Cell { values: key, point_ids: ids });
            proof {
                same_prefix_sorts(order@, before, cells@, k as int);
                extend_sorts(cells@, order@, c as int, k as int, at as int);
                fresh_cell_values(cells@, order@, c as int, k as int, at as int);
                founds_cell(before, cells@, store, p as int);
            }
            order.insert(at, c);
        }
        p = p + 1;
    }
    let count: usize = cells.len();
    let sorted_cells = in_listed_order(&cells, &order);
    proof {
        assert(cells@.len() == count);
        assert forall|c: int, q: u32| 0 <= c < sorted_cells@.len() implies (
        #[trigger] sorted_cells@[c].point_ids@.contains(q) <==> q < store.len && store.tuple(q as int)
            == sorted_cells@[c].values@) by {
            assert(sorted_cells@[c].point_ids@ == cells@[order@[c] as int].point_ids@);
            assert(cells@[order@[c] as int].point_ids@.contains(q) <==> q < store.len && store.tuple(q as int)
                == cells@[order@[c] as int].values@);
        }
        assert forall|q: int| 0 <= q < store.len implies holds_tuple(sorted_cells@, #[trigger] store.tuple(q)) by {
            assert(holds_tuple(cells@, store.tuple(q)));
            let d = choose|d: int| 0 <= d < cells@.len() && (#[trigger] cells@[d]).values@ == store.tuple(q);
            assert(order@.contains(d as usize));
            let i = choose|i: int| 0 <= i < order@.len() && order@[i] == d as usize;
            assert(sorted_cells@[i].values@ == store.tuple(q));
        }
        assert forall|c: int| 0 <= c < sorted_cells@.len() implies (#[trigger] sorted_cells@[c]).values@.len() == k
            && sorted_cells@[c].point_ids@.len() > 0 && ascending(sorted_cells@[c].point_ids@) by {
            assert(cells@[order@[c] as int].point_ids@.len() > 0);
            assert(cells@[order@[c] as int].values@.len() == k);
        }
        assert forall|c: int, d: int| 0 <= c < d < sorted_cells@.len() implies lex_less(
            (#[trigger] sorted_cells@[c]).values@,
            (#[trigger] sorted_cells@[d]).values@,
        ) by {
            assert(lex_less(cells@[order@[c] as int].values@, cells@[order@[d] as int].values@));
        }
    }
    sorted_cells
}

/// The cells hold the points below `p`, each in the cell of its tuple.
pub open spec fn groups(cells: Seq<Cell>, store: &PointStore, p: int) -> bool {
    &&& forall|c: int|
        0 <= c < cells.len() ==> (#[trigger] cells[c]).values@.len() == store.arity()
            && cells[c].point_ids@.len() > 0 && ascending(cells[c].point_ids@)
    &&& forall|c: int, q: u32|
        0 <= c < cells.len() ==> (#[trigger] cells[c].point_ids@.contains(q) <==> q < p && store.tuple(
            q as int,
        ) == cells[c].values@)
    &&& forall|q: int|
        0 <= q < p ==> holds_tuple(cells, #[trigger] store.tuple(q))
}

proof fn joins_cell(before: Seq<Cell>, after: Seq<Cell>, store: &PointStore, p: int, c: int)
    requires
        groups(before, store, p),
        0 <= p < store.len <= u32::MAX,
        0 <= c < before.len(),
        before[c].values@ == store.tuple(p),
        after.len() == before.len(),
        after[c].values == before[c].values,
        after[c].point_ids@ == before[c].point_ids@.push(p as u32),
        forall|d: int| 0 <= d < before.len() && d != c ==> #[trigger] after[d] == before[d],
        forall|d: int| 0 <= d < before.len() && d != c ==> (#[trigger] before[d]).values@ != before[c].values@,
    ensures
        groups(after, store, p + 1),
{
    assert forall|d: int, q: u32| 0 <= d < after.len() implies (#[trigger] after[d].point_ids@.contains(q) <==> q < p
        + 1 && store.tuple(q as int) == after[d].values@) by {
        assert(before[d].point_ids@.contains(q) <==> q < p && store.tuple(q as int) == before[d].values@);
        if d == c {
            contains_push(before[c].point_ids@, p as u32, q);
        } else {
            assert(after[d] == before[d]);
            assert(before[d].values@ != before[c].values@);
        }
    }
    assert forall|d: int| 0 <= d < after.len() implies (#[trigger] after[d]).values@.len() == store.arity()
        && after[d].point_ids@.len() > 0 && ascending(after[d].point_ids@) by {
        assert(before[d].values@.len() == store.arity());
        if d == c {
            let ids = before[c].point_ids@;
            assert forall|i: int, j: int| 0 <= i < j < after[c].point_ids@.len() implies after[c].point_ids@[i].rank()
                < after[c].point_ids@[j].rank() by {
                assert(ids.contains(ids[i]));
                assert(ids[i] < p);
            }
        }
    }
    assert forall|q: int| 0 <= q < p + 1 implies holds_tuple(after, #[trigger] store.tuple(q)) by {
        if q < p {
            assert(holds_tuple(before, store.tuple(q)));
            let d = choose|d: int| 0 <= d < before.len() && (#[trigger] before[d]).values@ == store.tuple(q);
            assert(after[d].values@ == store.tuple(q));
        } else {
            assert(after[c].values@ == store.tuple(q));
        }
    }
}

proof fn founds_cell(before: Seq<Cell>, after: Seq<Cell>, store: &PointStore, p: int)
    requires
        groups(before, store, p),
        0 <= p < store.len <= u32::MAX,
        after.len() == before.len() + 1,
        forall|d: int| 0 <= d < before.len() ==> #[trigger] after[d] == before[d],
        after[before.len() as int].values@ == store.tuple(p),
        after[before.len() as int].point_ids@ == seq![p as u32],
        forall|d: int| 0 <= d < before.len() ==> (#[trigger] after[d]).values@ != store.tuple(p),
    ensures
        groups(after, store, p + 1),
{
    let c = before.len() as int;
    assert forall|d: int, q: u32| 0 <= d < after.len() implies (#[trigger] after[d].point_ids@.contains(q) <==> q < p
        + 1 && store.tuple(q as int) == after[d].values@) by {
        if d < c {
            assert(after[d] == before[d]);
            assert(before[d].point_ids@.contains(q) <==> q < p && store.tuple(q as int) == before[d].values@);
        } else {
            assert(seq![p as u32].contains(q) <==> q == p) by {
                assert(seq![p as u32][0] == p as u32);
            }
            if q < p && store.tuple(q as int) == store.tuple(p) {
                assert(holds_tuple(before, store.tuple(q as int)));
                let e = choose|e: int|
                    0 <= e < before.len() && (#[trigger] before[e]).values@ == store.tuple(q as int);
                assert(after[e] == before[e]);
            }
        }
    }
    assert forall|d: int| 0 <= d < after.len() implies (#[trigger] after[d]).values@.len() == store.arity()
        && after[d].point_ids@.len() > 0 && ascending(after[d].point_ids@) by {
        if d < c {
            assert(before[d].values@.len() == store.arity());
        }
    }
    assert forall|q: int| 0 <= q < p + 1 implies holds_tuple(after, #[trigger] store.tuple(q)) by {
        if q < p {
            assert(holds_tuple(before, store.tuple(q)));
            let d = choose|d: int| 0 <= d < before.len() && (#[trigger] before[d]).values@ == store.tuple(q);
            assert(after[d].values@ == store.tuple(q));
        } else {
            assert(after[c].values@ == store.tuple(q));
        }
    }
}

proof fn listed_tuples_differ(order: Seq<usize>, cells: Seq<Cell>, k: int, c: int)
    requires
        sorts(order, cells, cells.len() as int, k),
        0 <= c < cells.len() <= usize::MAX,
    ensures
        forall|d: int| 0 <= d < cells.len() && d != c ==> (#[trigger] cells[d]).values@ != cells[c].values@,
{
    assert forall|d: int| 0 <= d < cells.len() && d != c implies (#[trigger] cells[d]).values@ != cells[c].values@ by {
        assert(order.contains(d as usize));
        assert(order.contains(c as usize));
        let i = choose|i: int| 0 <= i < order.len() && order[i] == d as usize;
        let j = choose|j: int| 0 <= j < order.len() && order[j] == c as usize;
        if i < j {
            assert(lex_less(cells[order[i] as int].values@, cells[order[j] as int].values@));
            lex_less_is_asymmetric(cells[d].values@, cells[c].values@);
        } else {
            assert(lex_less(cells[order[j] as int].values@, cells[order[i] as int].values@));
            lex_less_is_asymmetric(cells[c].values@, cells[d].values@);
        }
    }
}

proof fn same_tuples_sort(order: Seq<usize>, before: Seq<Cell>, after: Seq<Cell>, k: int)
    requires
        sorts(order, before, before.len() as int, k),
        after.len() == before.len(),
        forall|d: int| 0 <= d < before.len() ==> (#[trigger] after[d]).values@ == before[d].values@,
    ensures
        sorts(order, after, after.len() as int, k),
{
    assert forall|d: int| 0 <= d < after.len() implies (#[trigger] after[d]).values@.len() == k by {
        assert(before[d].values@.len() == k);
    }
    assert forall|i: int, j: int| 0 <= i < j < order.len() implies lex_less(
        after[#[trigger] order[i] as int].values@,
        after[#[trigger] order[j] as int].values@,
    ) by {
        assert(lex_less(before[order[i] as int].values@, before[order[j] as int].values@));
    }
}

proof fn same_prefix_sorts(order: Seq<usize>, before: Seq<Cell>, after: Seq<Cell>, k: int)
    requires
        sorts(order, before, before.len() as int, k),
        after.len() >= before.len(),
        forall|d: int| 0 <= d < before.len() ==> #[trigger] after[d] == before[d],
    ensures
        sorts(order, after, before.len() as int, k),
{
    assert forall|d: int| 0 <= d < before.len() implies (#[trigger] after[d]).values@.len() == k by {
        assert(before[d].values@.len() == k);
    }
    assert forall|i: int, j: int| 0 <= i < j < order.len() implies lex_less(
        after[#[trigger] order[i] as int].values@,
        after[#[trigger] order[j] as int].values@,
    ) by {
        assert(lex_less(before[order[i] as int].values@, before[order[j] as int].values@));
    }
}

proof fn fresh_cell_values(cells: Seq<Cell>, order: Seq<usize>, c: int, k: int, at: int)
    requires
        0 <= c < cells.len(),
        c <= usize::MAX,
        sorts(order, cells, c, k),
        0 <= at <= order.len(),
        forall|i: int| 0 <= i < at ==> lex_less(cells[#[trigger] order[i] as int].values@, cells[c].values@),
        forall|i: int|
            at <= i < order.len() ==> lex_less(cells[c].values@, cells[#[trigger] order[i] as int].values@),
    ensures
        forall|d: int| 0 <= d < c ==> (#[trigger] cells[d]).values@ != cells[c].values@,
{
    assert forall|d: int| 0 <= d < c implies (#[trigger] cells[d]).values@ != cells[c].values@ by {
        assert(order.contains(d as usize));
        let i = choose|i: int| 0 <= i < order.len() && order[i] == d as usize;
        if i < at {
            lex_less_is_asymmetric(cells[order[i] as int].values@, cells[c].values@);
        } else {
            lex_less_is_asymmetric(cells[c].values@, cells[order[i] as int].values@);
        }
    }
}

/// Copies of the cells in the listed order.
fn in_listed_order(cells: &Vec<Cell>, order: &Vec<usize>) -> (out: Vec<Cell>)
    requires
        forall|i: int| 0 <= i < order@.len() ==> #[trigger] order@[i] < cells@.len(),
    ensures
        out@.len() == order@.len(),
        forall|i: int|
            0 <= i < order@.len() ==> (#[trigger] out@[i]).values@ == cells@[order@[i] as int].values@
                && out@[i].point_ids@ == cells@[order@[i] as int].point_ids@,
{
    let mut out: Vec<Cell> = Vec::new();
    let mut i: usize = 0;
    while i < order.len()
        invariant
            i <= order@.len(),
            out@.len() == i,
            forall|c: int| 0 <= c < order@.len() ==> #[trigger] order@[c] < cells@.len(),
            forall|c: int|
                0 <= c < i ==> (#[trigger] out@[c]).values@ == cells@[order@[c] as int].values@
                    && out@[c].point_ids@ == cells@[order@[c] as int].point_ids@,
        decreases order@.len() - i,
    {
        let from: usize = order[i];
        let values = vstd::slice::slice_to_vec(cells[from].values.as_slice());
        let point_ids = vstd::slice::slice_to_vec(cells[from].point_ids.as_slice());
        out.push(Cell { values, point_ids });
        i = i + 1;
    }
    out
}

/// The posting lists of a catalog.
fn build_cell_postings(cells: &Vec<Cell>, k: usize) -> (postings: Vec<HashMap<u32, Vec<usize>>>)
    requires
        forall|c: int| 0 <= c < cells@.len() ==> (#[trigger] cells@[c]).values@.len() == k,
    ensures
        postings_fit(postings@, cells@, k as int),
{
    broadcast use group_hash_axioms;

    let mut postings: Vec<HashMap<u32, Vec<usize>>> = Vec::new();
    while postings.len() < k
        invariant
            postings@.len() <= k,
            forall|j: int, v: u32|
                0 <= j < postings@.len() ==> #[trigger] posting_fits(postings@[j]@, cells@.take(0), j, v),
        decreases k - postings@.len(),
    {
        postings.push(HashMap::new());
    }
    let mut c: usize = 0;
    while c < cells.len()
        invariant
            c <= cells@.len(),
            postings@.len() == k,
            forall|d: int| 0 <= d < cells@.len() ==> (#[trigger] cells@[d]).values@.len() == k,
            forall|j: int, v: u32|
                0 <= j < k ==> #[trigger] posting_fits(postings@[j]@, cells@.take(c as int), j, v),
        decreases cells@.len() - c,
    {
        let mut j: usize = 0;
        while j < k
            invariant
                j <= k,
                c < cells@.len(),
                postings@.len() == k,
                forall|d: int| 0 <= d < cells@.len() ==> (#[trigger] cells@[d]).values@.len() == k,
                forall|i: int, v: u32|
                    0 <= i < j ==> #[trigger] posting_fits(postings@[i]@, cells@.take(c + 1), i, v),
                forall|i: int, v: u32|
                    j <= i < k ==> #[trigger] posting_fits(postings@[i]@, cells@.take(c as int), i, v),
            decreases k - j,
        {
            broadcast use group_hash_axioms;

            let v: u32 = cells[c].values[j];
            let ghost old_lists = postings@[j as int]@;
            let ghost all_before = postings@;
            assert(posting_fits(old_lists, cells@.take(c as int), j as int, v));
            let mut list: Vec<usize> = match postings[j].remove(&v) {
                Some(list) => list,
                None => Vec::new(),
            };
            let ghost had = list@;
            list.push(c);
            let ghost now = list@;
            let _ = postings[j].insert(v, list);
            proof {
                let new_lists = postings@[j as int]@;
                assert(new_lists =~= old_lists.insert(v, new_lists[v]));
                assert(new_lists[v]@ == had.push(c));
                assert forall|w: u32| #[trigger] posting_fits(new_lists, cells@.take(c + 1), j as int, w) by {
                    assert(posting_fits(old_lists, cells@.take(c as int), j as int, w));
                    longer_posting(old_lists, new_lists, cells@, c as int, j as int, v, w, had);
                }
                assert forall|i: int, w: u32| 0 <= i < j + 1 implies #[trigger] posting_fits(
                    postings@[i]@,
                    cells@.take(c + 1),
                    i,
                    w,
                ) by {
                    if i < j {
                        assert(postings@[i] == all_before[i]);
                        assert(posting_fits(all_before[i]@, cells@.take(c + 1), i, w));
                    }
                }
                assert forall|i: int, w: u32| j + 1 <= i < k implies #[trigger] posting_fits(
                    postings@[i]@,
                    cells@.take(c as int),
                    i,
                    w,
                ) by {
                    assert(postings@[i] == all_before[i]);
                    assert(posting_fits(all_before[i]@, cells@.take(c as int), i, w));
                }
            }
            j = j + 1;
        }
        c = c + 1;
    }
    assert(cells@.take(cells@.len() as int) =~= cells@);
    postings
}

proof fn longer_posting(
    before: Map<u32, Vec<usize>>,
    after: Map<u32, Vec<usize>>,
    cells: Seq<Cell>,
    c: int,
    j: int,
    v: u32,
    w: u32,
    had: Seq<usize>,
)
    requires
        0 <= c < cells.len(),
        c <= usize::MAX,
        cells[c].values@[j] == v,
        posting_fits(before, cells.take(c), j, v),
        posting_fits(before, cells.take(c), j, w),
        after == before.insert(v, after[v]),
        after[v]@ == had.push(c as usize),
        before.contains_key(v) ==> had == before[v]@,
        !before.contains_key(v) ==> had.len() == 0,
    ensures
        posting_fits(after, cells.take(c + 1), j, w),
{
    let few = cells.take(c);
    let many = cells.take(c + 1);
    assert forall|d: int| 0 <= d < c implies many[d] == few[d] by {
    }
    if w == v {
        let list = after[v]@;
        assert forall|d: usize| #![trigger after[w]@.contains(d)] after[w]@.contains(d) <==> d < many.len()
            && many[d as int].values@[j] == w by {
            contains_push(had, c as usize, d);
            if before.contains_key(v) {
                assert(before[v]@.contains(d) <==> d < few.len() && few[d as int].values@[j] == v);
            } else if d < c {
                assert(few[d as int].values@[j] != v);
            }
        }
        assert forall|x: int, y: int| 0 <= x < y < list.len() implies list[x].rank() < list[y].rank() by {
            if y == had.len() {
                assert(had.contains(had[x]));
                assert(before.contains_key(v));
                assert(before[v]@.contains(had[x]));
            }
        }
    } else {
        if after.contains_key(w) {
            assert(before.contains_key(w));
            assert(after[w] == before[w]);
            assert forall|d: usize| #![trigger after[w]@.contains(d)] after[w]@.contains(d) <==> d < many.len()
                && many[d as int].values@[j] == w by {
                assert(before[w]@.contains(d) <==> d < few.len() && few[d as int].values@[j] == w);
            }
        } else {
            assert forall|d: int| 0 <= d < many.len() implies (#[trigger] many[d]).values@[j] != w by {
                if d < c {
                    assert(few[d].values@[j] != w);
                }
            }
        }
    }
}

/// Whether each number below `k` occurs once.
fn check_permutation(order: &Vec<usize>, k: usize) -> (answer: bool)
    ensures
        answer == is_permutation(order@, k as int),
{
    if order.len() != k {
        return false;
    }
    let mut seen: Vec<bool> = Vec::new();
    while seen.len() < k
        invariant
            seen@.len() <= k,
            forall|i: int| 0 <= i < seen@.len() ==> !seen@[i],
        decreases k - seen@.len(),
    {
        seen.push(false);
    }
    let mut i: usize = 0;
    while i < k
        invariant
            i <= k,
            order@.len() == k,
            seen@.len() == k,
            forall|a: int| 0 <= a < i ==> #[trigger] order@[a] < k,
            forall|a: int, b: int| 0 <= a < b < i ==> order@[a] != order@[b],
            forall|v: int| 0 <= v < k ==> (seen@[v] <==> exists|a: int| 0 <= a < i && #[trigger] order@[a] == v),
        decreases k - i,
    {
        let at: usize = order[i];
        if at >= k {
            assert(!(order@[i as int] < k));
            return false;
        }
        if seen[at] {
            proof {
                let a = choose|a: int| 0 <= a < i && #[trigger] order@[a] == at as int;
                assert(order@[a] == order@[i as int]);
                assert(!order@.no_duplicates());
            }
            return false;
        }
        let ghost before = seen@;
        seen.set(at, true);
        proof {
            assert forall|v: int| 0 <= v < k implies (seen@[v] <==> exists|a: int|
                0 <= a < i + 1 && #[trigger] order@[a] == v) by {
                if v == at {
                    assert(order@[i as int] == v);
                } else {
                    assert(seen@[v] == before[v]);
                    if before[v] {
                        let a = choose|a: int| 0 <= a < i && #[trigger] order@[a] == v;
                        assert(order@[a] == v);
                    }
                }
            }
        }
        i = i + 1;
    }
    true
}

proof fn contains_sum<T>(a: Seq<T>, b: Seq<T>, x: T)
    ensures
        (a + b).contains(x) <==> a.contains(x) || b.contains(x),
{
    let all = a + b;
    if a.contains(x) {
        let w = choose|w: int| 0 <= w < a.len() && a[w] == x;
        assert(all[w] == x);
    }
    if b.contains(x) {
        let w = choose|w: int| 0 <= w < b.len() && b[w] == x;
        assert(all[a.len() + w] == x);
    }
    if all.contains(x) {
        let w = choose|w: int| 0 <= w < all.len() && all[w] == x;
        if w < a.len() {
            assert(a[w] == x);
        } else {
            assert(b[w - a.len()] == x);
        }
    }
}

proof fn contains_push<T>(a: Seq<T>, y: T, x: T)
    ensures
        a.push(y).contains(x) <==> a.contains(x) || x == y,
{
    let all = a.push(y);
    if a.contains(x) {
        let w = choose|w: int| 0 <= w < a.len() && a[w] == x;
        assert(all[w] == x);
    }
    assert(all[a.len() as int] == y);
    if all.contains(x) && x != y {
        let w = choose|w: int| 0 <= w < all.len() && all[w] == x;
        assert(a[w] == x);
    }
}

proof fn passes_push(seen: Seq<Constraint>, extra: Constraint, tuple: Seq<u32>)
    ensures
        tuple_passes(seen.push(extra), tuple) <==> tuple_passes(seen, tuple) && extra.0 < tuple.len()
            && extra.1@.contains(tuple[extra.0 as int]),
{
    let next = seen.push(extra);
    if tuple_passes(next, tuple) {
        assert(next[seen.len() as int] == extra);
        assert forall|i: int| 0 <= i < seen.len() implies (#[trigger] seen[i]).0 < tuple.len() && seen[i].1@.contains(
            tuple[seen[i].0 as int],
        ) by {
            assert(next[i] == seen[i]);
        }
    }
}

proof fn gathered_grows(cells: Seq<Cell>, indices: Seq<usize>, i: int)
    requires
        0 <= i <= indices.len(),
    ensures
        gathered(cells, indices.take(i)).len() <= gathered(cells, indices).len(),
    decreases indices.len(),
{
    if i == indices.len() {
        assert(indices.take(i) =~= indices);
    } else {
        gathered_grows(cells, indices.drop_last(), i);
        assert(indices.drop_last().take(i) =~= indices.take(i));
    }
}

/// Counting one more cell adds its points.
pub proof fn point_total_grows(cells: Seq<Cell>, i: int)
    requires
        0 <= i <= cells.len(),
    ensures
        point_total(cells.take(i)) <= point_total(cells),
    decreases cells.len(),
{
    if i == cells.len() {
        assert(cells.take(i) =~= cells);
    } else {
        point_total_grows(cells.drop_last(), i);
        assert(cells.drop_last().take(i) =~= cells.take(i));
    }
}

/// What is gathered is what the listed cells hold.
pub proof fn gathered_holds(cells: Seq<Cell>, indices: Seq<usize>, p: u32)
    ensures
        gathered(cells, indices).contains(p) <==> exists|i: int|
            0 <= i < indices.len() && #[trigger] cells[indices[i] as int].point_ids@.contains(p),
    decreases indices.len(),
{
    let all = gathered(cells, indices);
    if indices.len() > 0 {
        let few = gathered(cells, indices.drop_last());
        let last = cells[indices.last() as int].point_ids@;
        gathered_holds(cells, indices.drop_last(), p);
        if few.contains(p) {
            let j = choose|j: int| 0 <= j < few.len() && few[j] == p;
            assert(all[j] == p);
            let i = choose|i: int|
                0 <= i < indices.drop_last().len() && #[trigger] cells[indices.drop_last()[i] as int].point_ids@.contains(
                    p,
                );
            assert(cells[indices[i] as int].point_ids@.contains(p));
        }
        if last.contains(p) {
            let j = choose|j: int| 0 <= j < last.len() && last[j] == p;
            assert(all[few.len() + j] == p);
            assert(cells[indices[indices.len() - 1] as int].point_ids@.contains(p));
        }
        if all.contains(p) {
            let j = choose|j: int| 0 <= j < all.len() && all[j] == p;
            if j < few.len() {
                assert(few[j] == p);
            } else {
                assert(last[j - few.len()] == p);
            }
        }
        if exists|i: int|
            0 <= i < indices.len() && #[trigger] cells[indices[i] as int].point_ids@.contains(p) {
            let i = choose|i: int|
                0 <= i < indices.len() && #[trigger] cells[indices[i] as int].point_ids@.contains(p);
            if i < indices.len() - 1 {
                assert(cells[indices.drop_last()[i] as int].point_ids@.contains(p));
            }
        }
    }
}

/// Every point of the store is in exactly one cell, the cell of its tuple.
pub proof fn every_point_has_one_cell(tree: &PartitionTree, store: &PointStore, p: u32)
    requires
        catalogs(tree, store),
        p < store.len,
    ensures
        exists|c: int| 0 <= c < tree.cells@.len() && #[trigger] tree.cells@[c].point_ids@.contains(p),
        forall|c: int, d: int|
            0 <= c < tree.cells@.len() && 0 <= d < tree.cells@.len()
                && #[trigger] tree.cells@[c].point_ids@.contains(p)
                && #[trigger] tree.cells@[d].point_ids@.contains(p) ==> c == d,
{
    assert(holds_tuple(tree.cells@, store.tuple(p as int)));
    let c = choose|c: int|
        0 <= c < tree.cells@.len() && (#[trigger] tree.cells@[c]).values@ == store.tuple(p as int);
    assert(tree.cells@[c].point_ids@.contains(p));
    assert forall|c: int, d: int|
        0 <= c < tree.cells@.len() && 0 <= d < tree.cells@.len()
            && #[trigger] tree.cells@[c].point_ids@.contains(p)
            && #[trigger] tree.cells@[d].point_ids@.contains(p) implies c == d by {
        assert(tree.cells@[c].values@ == tree.cells@[d].values@);
        if c < d {
            assert(tree.cells@[c].values@ != tree.cells@[d].values@);
        } else if d < c {
            assert(tree.cells@[d].values@ != tree.cells@[c].values@);
        }
    }
}

/// The points of the compatible cells are exactly the points that pass the
/// filter.
pub proof fn compatible_cells_hold_the_eligible_points(
    tree: &PartitionTree,
    store: &PointStore,
    filter: &Filter,
    list: Seq<usize>,
    p: u32,
)
    requires
        catalogs(tree, store),
        forall|c: usize| list.contains(c) <==> tree.cell_passes(filter.constraints@, c as int),
        tree.cells@.len() <= usize::MAX,
    ensures
        gathered(tree.cells@, list).contains(p) <==> filter.passes(store, p as int),
{
    gathered_holds(tree.cells@, list, p);
    if gathered(tree.cells@, list).contains(p) {
        let i = choose|i: int|
            0 <= i < list.len() && tree.cells@[#[trigger] list[i] as int].point_ids@.contains(p);
        assert(list.contains(list[i]));
    }
    if filter.passes(store, p as int) {
        assert(holds_tuple(tree.cells@, store.tuple(p as int)));
        let c = choose|c: int|
            0 <= c < tree.cells@.len() && (#[trigger] tree.cells@[c]).values@ == store.tuple(p as int);
        assert(tree.cells@[c].point_ids@.contains(p));
        assert(tree.cell_passes(filter.constraints@, c));
        assert(list.contains(c as usize));
        let i = choose|i: int| 0 <= i < list.len() && list[i] == c as usize;
        assert(tree.cells@[list[i] as int].point_ids@.contains(p));
    }
}

} // verus!
