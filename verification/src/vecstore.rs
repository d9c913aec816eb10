//! Flat vector storage of either element type.

use vstd::prelude::*;
use crate::wipe::{wipe_bytes, wipe_words};

verus! {

/// Vectors of bytes or of single-precision bit patterns, one after the other.
pub enum VecStore {
    U8(Vec<u8>),
    F32(Vec<u32>),
}

impl VecStore {
    /// Number of elements.
    pub open spec fn count(&self) -> int {
        match self {
            VecStore::U8(values) => values@.len() as int,
            VecStore::F32(values) => values@.len() as int,
        }
    }

    /// The bytes; meaningful for byte vectors.
    pub open spec fn bytes(&self) -> Seq<u8> {
        match self {
            VecStore::U8(values) => values@,
            VecStore::F32(_) => Seq::empty(),
        }
    }

    /// The bit patterns; meaningful for single-precision vectors.
    pub open spec fn patterns(&self) -> Seq<u32> {
        match self {
            VecStore::U8(_) => Seq::empty(),
            VecStore::F32(values) => values@,
        }
    }

    /// Number of elements.
    pub fn len(&self) -> (count: usize)
        ensures
            count == self.count(),
    {
        match self {
            VecStore::U8(values) => values.len(),
            VecStore::F32(values) => values.len(),
        }
    }

    /// Whether there are no elements.
    pub fn is_empty(&self) -> (empty: bool)
        ensures
            empty == (self.count() == 0),
    {
        self.len() == 0
    }

    /// The bytes, if the elements are bytes.
    pub fn as_u8(&self) -> (values: Option<&[u8]>)
        ensures
            values is Some <==> self is U8,
            values matches Some(bytes) ==> bytes@ == self.bytes(),
    {
        match self {
            VecStore::U8(values) => Some(values.as_slice()),
            VecStore::F32(_) => None,
        }
    }

    /// The bit patterns, if the elements are single-precision numbers.
    pub fn as_f32(&self) -> (values: Option<&[u32]>)
        ensures
            values is Some <==> self is F32,
            values matches Some(patterns) ==> patterns@ == self.patterns(),
    {
        match self {
            VecStore::F32(values) => Some(values.as_slice()),
            VecStore::U8(_) => None,
        }
    }
}

impl Drop for VecStore {
    /// Clears the elements before their memory is released.
    fn drop(&mut self)
        opens_invariants none
        no_unwind
    {
        match self {
            VecStore::U8(values) => wipe_bytes(values),
            VecStore::F32(values) => wipe_words(values),
        }
    }
}

/// Vector `i` of flat storage.
pub open spec fn row_of<T>(data: Seq<T>, i: int, dim: int) -> Seq<T> {
    data.subrange(i * dim, (i + 1) * dim)
}

/// The rows as sequences.
pub open spec fn rows_of(rows: Seq<Vec<u32>>) -> Seq<Seq<u32>> {
    rows.map_values(|row: Vec<u32>| row@)
}

/// Queries of either element type, borrowed from the caller.
pub enum QueryStore<'a> {
    U8(&'a [u8]),
    F32(&'a [u32]),
}

impl<'a> QueryStore<'a> {
    /// Number of coordinates.
    pub open spec fn count(&self) -> int {
        match self {
            QueryStore::U8(values) => values@.len() as int,
            QueryStore::F32(values) => values@.len() as int,
        }
    }
}

} // verus!
