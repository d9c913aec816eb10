//! Row-compressed tag metadata.

use vstd::prelude::*;
use crate::error::{ends, invalid_input, overflow, PrismResult, Verdict};

verus! {

/// Tags per row, in compressed sparse row layout: the tags of row `i` are
/// `indices[indptr[i] .. indptr[i + 1]]`.
pub struct SpMat {
    pub rows: usize,
    /// Number of tags that exist.
    pub cols: usize,
    pub indptr: Vec<i64>,
    pub indices: Vec<i32>,
}

/// Row pointers start at zero, never decrease and end at the entry count.
pub open spec fn pointers_fit(indptr: Seq<i64>, entries: int, rows: int) -> bool {
    &&& indptr.len() == rows + 1
    &&& indptr[0] == 0
    &&& indptr[rows] == entries
    &&& forall|i: int, j: int| 0 <= i <= j <= rows ==> indptr[i] <= indptr[j]
}

/// Every entry names a tag.
pub open spec fn tags_fit(indices: Seq<i32>, cols: int) -> bool {
    forall|i: int| 0 <= i < indices.len() ==> 0 <= #[trigger] indices[i] < cols
}

/// Whether row-compressed data is valid for `expected` rows.
pub open spec fn csr_verdict(
    rows: int,
    cols: int,
    indptr: Seq<i64>,
    indices: Seq<i32>,
    expected: int,
) -> Verdict {
    if cols > 0x8000_0000 {
        Verdict::Overflow
    } else if rows != expected {
        Verdict::InvalidInput
    } else if rows == usize::MAX {
        Verdict::Overflow
    } else if indptr.len() != rows + 1 || indptr[0] != 0 {
        Verdict::InvalidInput
    } else if indices.len() > i64::MAX {
        Verdict::Overflow
    } else if !pointers_fit(indptr, indices.len() as int, rows) || !tags_fit(indices, cols) {
        Verdict::InvalidInput
    } else {
        Verdict::Accepted
    }
}

impl SpMat {
    /// What holds of every valid value.
    pub open spec fn wf(&self) -> bool {
        csr_verdict(
            self.rows as int,
            self.cols as int,
            self.indptr@,
            self.indices@,
            self.rows as int,
        ) == Verdict::Accepted
    }

    /// Tags of row `i`.
    pub open spec fn row(&self, i: int) -> Seq<i32> {
        self.indices@.subrange(self.indptr@[i] as int, self.indptr@[i + 1] as int)
    }

    /// A matrix from its parts.
    pub fn new(rows: usize, cols: usize, indptr: Vec<i64>, indices: Vec<i32>) -> (result: PrismResult<
        SpMat,
    >)
        ensures
            ends(result, csr_verdict(rows as int, cols as int, indptr@, indices@, rows as int)),
            result matches Ok(matrix) ==> matrix.wf() && matrix.rows == rows && matrix.cols == cols
                && matrix.indptr@ == indptr@ && matrix.indices@ == indices@,
    {
        let matrix = SpMat { rows, cols, indptr, indices };
        match matrix.validate(rows) {
            Ok(()) => Ok(matrix),
            Err(error) => Err(error),
        }
    }

    /// Number of rows.
    pub fn rows(&self) -> (rows: usize)
        ensures
            rows == self.rows,
    {
        self.rows
    }

    /// Number of tags that exist.
    pub fn cols(&self) -> (cols: usize)
        ensures
            cols == self.cols,
    {
        self.cols
    }

    /// The row pointers.
    pub fn indptr(&self) -> (indptr: &[i64])
        ensures
            indptr@ == self.indptr@,
    {
        self.indptr.as_slice()
    }

    /// The tags, row after row.
    pub fn indices(&self) -> (indices: &[i32])
        ensures
            indices@ == self.indices@,
    {
        self.indices.as_slice()
    }

    /// Checks shape, row pointers and tags.
    pub fn validate(&self, expected_rows: usize) -> (result: PrismResult<()>)
        ensures
            ends(
                result,
                csr_verdict(
                    self.rows as int,
                    self.cols as int,
                    self.indptr@,
                    self.indices@,
                    expected_rows as int,
                ),
            ),
    {
        if self.cols as u64 > 0x8000_0000 {
            return Err(overflow("CSR column count exceeds the i32 tag identifier space"));
        }
        if self.rows != expected_rows {
            return Err(invalid_input("CSR row count does not match the expected row count"));
        }
        if self.rows == usize::MAX {
            return Err(overflow("CSR row count is too large"));
        }
        let rows: usize = self.rows;
        if self.indptr.len() != rows + 1 {
            return Err(invalid_input("CSR indptr length must equal rows + 1"));
        }
        if self.indptr[0] != 0 {
            return Err(invalid_input("CSR indptr must start at zero"));
        }
        let entries: usize = self.indices.len();
        if entries as u64 > 0x7fff_ffff_ffff_ffff {
            return Err(overflow("CSR nonzero count exceeds the i64 offset space"));
        }
        let nnz: i64 = entries as i64;
        let mut i: usize = 0;
        while i < rows
            invariant
                i <= rows,
                rows == self.rows,
                rows == expected_rows,
                self.cols <= 0x8000_0000,
                rows < usize::MAX,
                self.indptr@.len() == rows + 1,
                self.indptr@[0] == 0,
                nnz == self.indices@.len(),
                self.indices@.len() <= i64::MAX,
                forall|a: int, b: int| 0 <= a <= b <= i ==> self.indptr@[a] <= self.indptr@[b],
                self.indptr@[i as int] <= nnz,
            decreases rows - i,
        {
            if self.indptr[i] > self.indptr[i + 1] || self.indptr[i + 1] > nnz {
                proof {
                    let w = i as int;
                    if pointers_fit(self.indptr@, nnz as int, rows as int) {
                        assert(self.indptr@[w] <= self.indptr@[w + 1]);
                        assert(self.indptr@[w + 1] <= self.indptr@[rows as int]);
                    }
                }
                return Err(
                    invalid_input("CSR indptr must be nonnegative, monotone, and within indices"),
                );
            }
            i = i + 1;
        }
        if self.indptr[rows] != nnz {
            return Err(invalid_input("CSR indptr must end at the indices length"));
        }
        let mut c: usize = 0;
        while c < entries
            invariant
                c <= entries,
                rows == self.rows,
                rows == expected_rows,
                self.cols <= 0x8000_0000,
                rows < usize::MAX,
                self.indptr@.len() == rows + 1,
                self.indptr@[0] == 0,
                entries == self.indices@.len(),
                entries <= i64::MAX,
                forall|j: int| 0 <= j < c ==> 0 <= #[trigger] self.indices@[j] < self.cols,
            decreases entries - c,
        {
            let tag: i32 = self.indices[c];
            if tag < 0 || tag as usize >= self.cols {
                assert(!(0 <= self.indices@[c as int] < self.cols));
                return Err(invalid_input("CSR tag is outside the valid range"));
            }
            c = c + 1;
        }
        Ok(())
    }

    /// Tags of a row that is known to exist.
    pub fn row_tags(&self, i: usize) -> (tags: &[i32])
        requires
            self.wf(),
            i < self.rows,
        ensures
            tags@ == self.row(i as int),
            tags_fit(tags@, self.cols as int),
    {
        proof {
            assert(self.indptr@[0] <= self.indptr@[i as int]);
            assert(self.indptr@[i as int] <= self.indptr@[i + 1]);
            assert(self.indptr@[i + 1] <= self.indptr@[self.rows as int]);
        }
        let all = self.indices.as_slice();
        assert(all@.len() == all.len());
        let start: usize = self.indptr[i] as usize;
        let end: usize = self.indptr[i + 1] as usize;
        let tags = vstd::slice::slice_subrange(all, start, end);
        proof {
            assert forall|j: int| 0 <= j < tags@.len() implies 0 <= #[trigger] tags@[j] < self.cols by {
                assert(self.indices@[start + j] == tags@[j]);
            }
        }
        tags
    }
}

} // verus!
