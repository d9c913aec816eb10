//! Vectors with per-point attribute values.

use vstd::prelude::*;
use vstd::arithmetic::div_mod::*;
use vstd::arithmetic::mul::*;
use crate::error::{invalid_input, overflow, refused_input, refused_size, PrismResult};
use crate::order::{ascending_is_sorted, ascending_set};
use crate::single::{all_in_domain, check_domain};
use crate::wipe::wipe_words;

verus! {

/// Points: one vector and one value per attribute for each.
pub struct PointStore {
    /// Coordinates as bit patterns; point `i` is at `i * dim .. (i + 1) * dim`.
    pub vectors: Vec<u32>,
    /// Coordinates per vector.
    pub dim: usize,
    /// Number of points.
    pub len: usize,
    /// Attribute columns: `attrs[j][i]` is the value of attribute `j` at point `i`.
    pub attrs: Vec<Vec<u32>>,
}

/// Every attribute column has one value per point.
pub open spec fn columns_fit(attrs: Seq<Vec<u32>>, len: int) -> bool {
    forall|j: int| 0 <= j < attrs.len() ==> (#[trigger] attrs[j])@.len() == len
}

/// Flat coordinates split into whole vectors.
pub open spec fn whole_rows(count: int, dim: int) -> bool {
    dim > 0 && count % dim == 0
}

/// Coordinates and attribute columns that make a store.
pub open spec fn parts_valid(vectors: Seq<u32>, dim: int, attrs: Seq<Vec<u32>>) -> bool {
    &&& whole_rows(vectors.len() as int, dim)
    &&& vectors.len() as int / dim <= u32::MAX
    &&& all_in_domain(vectors, dim)
    &&& columns_fit(attrs, vectors.len() as int / dim)
}

impl PointStore {
    /// What holds of every valid value.
    pub open spec fn wf(&self) -> bool {
        &&& self.dim > 0
        &&& self.len <= u32::MAX
        &&& self.vectors@.len() == self.len * self.dim
        &&& all_in_domain(self.vectors@, self.dim as int)
        &&& columns_fit(self.attrs@, self.len as int)
    }

    /// Number of attributes.
    pub open spec fn arity(&self) -> int {
        self.attrs@.len() as int
    }

    /// Coordinates of point `id`.
    pub open spec fn row(&self, id: int) -> Seq<u32> {
        self.vectors@.subrange(id * self.dim, (id + 1) * self.dim)
    }

    /// Value of attribute `j` at point `id`.
    pub open spec fn attr_at(&self, id: int, j: int) -> u32 {
        self.attrs@[j]@[id]
    }

    /// All attribute values of point `id`.
    pub open spec fn tuple(&self, id: int) -> Seq<u32> {
        Seq::new(self.attrs@.len(), |j: int| self.attrs@[j]@[id])
    }

    /// An empty store for vectors of `dim` coordinates and `k` attributes.
    pub fn new(dim: usize, k: usize) -> (result: PrismResult<PointStore>)
        ensures
            result is Ok <==> dim > 0,
            result is Err ==> refused_input(result),
            result matches Ok(store) ==> store.wf() && store.dim == dim && store.len == 0
                && store.arity() == k,
    {
        if dim == 0 {
            return Err(invalid_input("vector dimension must be greater than zero"));
        }
        let mut attrs: Vec<Vec<u32>> = Vec::new();
        while attrs.len() < k
            invariant
                attrs@.len() <= k,
                forall|j: int| 0 <= j < attrs@.len() ==> (#[trigger] attrs@[j])@.len() == 0,
            decreases k - attrs@.len(),
        {
            attrs.push(Vec::new());
        }
        Ok(PointStore { vectors: Vec::new(), dim, len: 0, attrs })
    }

    /// Checks coordinates and attribute columns without taking them; gives the
    /// number of points.
    pub fn validate_parts(vectors: &[u32], dim: usize, attrs: &[Vec<u32>]) -> (result: PrismResult<
        usize,
    >)
        ensures
            result is Ok <==> parts_valid(vectors@, dim as int, attrs@),
            refused_size(result) <==> whole_rows(vectors@.len() as int, dim as int)
                && vectors@.len() as int / dim as int > u32::MAX,
            result is Err ==> refused_input(result) || refused_size(result),
            result matches Ok(len) ==> len == vectors@.len() as int / dim as int,
    {
        if dim == 0 {
            return Err(invalid_input("vector dimension must be greater than zero"));
        }
        if vectors.len() % dim != 0 {
            return Err(invalid_input("vector data length must be divisible by the dimension"));
        }
        let len: usize = vectors.len() / dim;
        if len > u32::MAX as usize {
            return Err(overflow("point count exceeds the u32 identifier space"));
        }
        if !check_domain(vectors, dim) {
            return Err(
                invalid_input("vector value must be finite, its absolute magnitude within the distance domain"),
            );
        }
        let mut j: usize = 0;
        while j < attrs.len()
            invariant
                j <= attrs@.len(),
                dim > 0,
                len == vectors@.len() as int / dim as int,
                len <= u32::MAX,
                vectors@.len() as int % dim as int == 0,
                forall|i: int| 0 <= i < j ==> (#[trigger] attrs@[i])@.len() == len,
            decreases attrs@.len() - j,
        {
            if attrs[j].len() != len {
                assert(attrs@[j as int]@.len() != len);
                return Err(invalid_input("attribute column length must equal the point count"));
            }
            j = j + 1;
        }
        Ok(len)
    }

    /// A store from coordinates and attribute columns.
    pub fn from_parts(vectors: Vec<u32>, dim: usize, attrs: Vec<Vec<u32>>) -> (result: PrismResult<
        PointStore,
    >)
        ensures
            result is Ok <==> parts_valid(vectors@, dim as int, attrs@),
            refused_size(result) <==> whole_rows(vectors@.len() as int, dim as int)
                && vectors@.len() as int / dim as int > u32::MAX,
            result is Err ==> refused_input(result) || refused_size(result),
            result matches Ok(store) ==> {
                &&& store.wf()
                &&& store.vectors@ == vectors@
                &&& store.dim == dim
                &&& store.attrs@ == attrs@
                &&& store.len == vectors@.len() as int / dim as int
            },
    {
        match PointStore::validate_parts(vectors.as_slice(), dim, attrs.as_slice()) {
            Ok(len) => {
                proof {
                    lemma_fundamental_div_mod(vectors@.len() as int, dim as int);
                    lemma_mul_is_commutative(dim as int, len as int);
                }
                Ok(PointStore { vectors, dim, len, attrs })
            },
            Err(error) => Err(error),
        }
    }

    /// Number of attributes.
    pub fn k(&self) -> (k: usize)
        ensures
            k == self.arity(),
    {
        self.attrs.len()
    }

    /// All coordinates, point after point.
    pub fn vectors(&self) -> (vectors: &[u32])
        ensures
            vectors@ == self.vectors@,
    {
        self.vectors.as_slice()
    }

    /// Coordinates per vector.
    pub fn dim(&self) -> (dim: usize)
        ensures
            dim == self.dim,
    {
        self.dim
    }

    /// Number of points.
    pub fn len(&self) -> (len: usize)
        ensures
            len == self.len,
    {
        self.len
    }

    /// Whether there are no points.
    pub fn is_empty(&self) -> (empty: bool)
        ensures
            empty == (self.len == 0),
    {
        self.len == 0
    }

    /// Attribute columns.
    pub fn attributes(&self) -> (columns: &[Vec<u32>])
        ensures
            columns@ == self.attrs@,
    {
        self.attrs.as_slice()
    }

    /// Values of attribute `j`.
    pub fn attribute(&self, j: usize) -> (column: Option<&[u32]>)
        ensures
            column is Some <==> j < self.arity(),
            column matches Some(values) ==> values@ == self.attrs@[j as int]@,
    {
        if j < self.attrs.len() {
            Some(self.attrs[j].as_slice())
        } else {
            None
        }
    }

    /// Coordinates of point `id`.
    pub fn vector(&self, id: u32) -> (vector: Option<&[u32]>)
        requires
            self.wf(),
        ensures
            vector is Some <==> id < self.len,
            vector matches Some(values) ==> values@ == self.row(id as int),
    {
        if id as usize >= self.len {
            return None;
        }
        Some(self.vector_unchecked(id))
    }

    /// Coordinates of a point that is known to exist.
    pub fn vector_unchecked(&self, id: u32) -> (vector: &[u32])
        requires
            self.wf(),
            id < self.len,
        ensures
            vector@ == self.row(id as int),
            vector@.len() == self.dim,
    {
        proof {
            row_bounds(id as int, self.len as int, self.dim as int);
        }
        let values = self.vectors.as_slice();
        assert(values@.len() == values.len());
        let start: usize = id as usize * self.dim;
        vstd::slice::slice_subrange(values, start, start + self.dim)
    }

    /// Value of attribute `j` at point `id`.
    pub fn attr(&self, id: u32, j: usize) -> (value: Option<u32>)
        requires
            self.wf(),
        ensures
            value is Some <==> id < self.len && j < self.arity(),
            value matches Some(v) ==> v == self.attr_at(id as int, j as int),
    {
        if j >= self.attrs.len() || id as usize >= self.len {
            return None;
        }
        Some(self.attr_unchecked(id, j))
    }

    /// Value of an attribute and a point that are known to exist.
    pub fn attr_unchecked(&self, id: u32, j: usize) -> (value: u32)
        requires
            self.wf(),
            id < self.len,
            j < self.arity(),
        ensures
            value == self.attr_at(id as int, j as int),
    {
        self.attrs[j][id as usize]
    }

    /// Adds one point and gives its identifier.  A refused point leaves the
    /// store as it was.
    pub fn push(&mut self, vector: &[u32], attr_values: &[u32]) -> (result: PrismResult<u32>)
        requires
            old(self).wf(),
        ensures
            final(self).wf(),
            final(self).dim == old(self).dim,
            final(self).arity() == old(self).arity(),
            refused_input(result) <==> {
                ||| vector@.len() != old(self).dim
                ||| attr_values@.len() != old(self).arity()
                ||| !all_in_domain(vector@, old(self).dim as int)
            },
            refused_size(result) <==> {
                &&& !refused_input(result)
                &&& old(self).len == u32::MAX
            },
            result is Err ==> refused_input(result) || refused_size(result),
            result is Err ==> final(self).vectors@ == old(self).vectors@ && final(self).len
                == old(self).len && final(self).attrs@ == old(self).attrs@,
            result matches Ok(id) ==> {
                &&& id == old(self).len
                &&& final(self).len == old(self).len + 1
                &&& final(self).vectors@ == old(self).vectors@ + vector@
                &&& forall|j: int|
                    0 <= j < old(self).arity() ==> (#[trigger] final(self).attrs@[j])@ == old(
                        self,
                    ).attrs@[j]@.push(attr_values@[j])
            },
    {
        if vector.len() != self.dim {
            return Err(invalid_input("vector length must equal the store dimension"));
        }
        if attr_values.len() != self.attrs.len() {
            return Err(invalid_input("attribute count must equal the store schema"));
        }
        if !check_domain(vector, self.dim) {
            return Err(
                invalid_input("vector value must be finite, its absolute magnitude within the distance domain"),
            );
        }
        if self.len >= u32::MAX as usize {
            return Err(overflow("point count exceeds the u32 identifier space"));
        }
        let id: u32 = self.len as u32;
        let ghost before = self.vectors@;
        let ghost columns = self.attrs@;
        self.vectors.extend_from_slice(vector);
        assert(self.vectors@ =~= before + vector@);
        let mut j: usize = 0;
        while j < attr_values.len()
            invariant
                j <= attr_values@.len(),
                attr_values@.len() == columns.len(),
                self.attrs@.len() == columns.len(),
                self.dim == old(self).dim,
                self.len == old(self).len,
                self.vectors@ == before + vector@,
                columns == old(self).attrs@,
                forall|i: int| 0 <= i < j ==> (#[trigger] self.attrs@[i])@ == columns[i]@.push(attr_values@[i]),
                forall|i: int| j <= i < columns.len() ==> #[trigger] self.attrs@[i] == columns[i],
            decreases attr_values@.len() - j,
        {
            self.attrs[j].push(attr_values[j]);
            j = j + 1;
        }
        self.len = self.len + 1;
        proof {
            row_bounds(old(self).len as int, old(self).len + 1, self.dim as int);
            assert forall|i: int| 0 <= i < self.vectors@.len() implies crate::single::in_domain(
                #[trigger] self.vectors@[i],
                self.dim as int,
            ) by {
                if i < before.len() {
                    assert(self.vectors@[i] == before[i]);
                } else {
                    assert(self.vectors@[i] == vector@[i - before.len()]);
                }
            }
            assert forall|i: int| 0 <= i < self.attrs@.len() implies (#[trigger] self.attrs@[i])@.len()
                == self.len by {
                assert(columns[i]@.len() == old(self).len);
            }
        }
        Ok(id)
    }

    /// Number of distinct values of attribute `j`.
    pub fn cardinality(&self, j: usize) -> (count: Option<usize>)
        ensures
            count is Some <==> j < self.arity(),
            count matches Some(c) ==> c == self.attrs@[j as int]@.to_set().len(),
    {
        if j < self.attrs.len() {
            Some(self.cardinality_unchecked(j))
        } else {
            None
        }
    }

    /// Number of distinct values of an attribute that is known to exist.
    pub fn cardinality_unchecked(&self, j: usize) -> (count: usize)
        requires
            j < self.arity(),
        ensures
            count == self.attrs@[j as int]@.to_set().len(),
    {
        let column = self.attrs[j].as_slice();
        let values = ascending_set(column);
        proof {
            ascending_is_sorted(values@);
            values@.unique_seq_to_set();
            assert(values@.to_set() =~= column@.to_set());
        }
        values.len()
    }
}

/// The row of a point lies within the flat coordinates.
pub proof fn row_bounds(id: int, len: int, dim: int)
    requires
        0 <= id < len,
        0 < dim,
    ensures
        0 <= id * dim,
        id * dim + dim == (id + 1) * dim,
        (id + 1) * dim <= len * dim,
{
    assert(0 <= id * dim && id * dim + dim == (id + 1) * dim && (id + 1) * dim <= len * dim)
        by (nonlinear_arith)
        requires
            0 <= id < len,
            0 < dim,
    ;
}

impl Drop for PointStore {
    /// Clears the coordinates before their memory is released.
    fn drop(&mut self)
        opens_invariants none
        no_unwind
    {
        wipe_words(&mut self.vectors);
    }
}

} // verus!
