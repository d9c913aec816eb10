//! Vector files and synthetic attributes.

use byteorder::{ByteOrder, LittleEndian};
use vstd::arithmetic::div_mod::lemma_fundamental_div_mod;
use vstd::prelude::*;
use crate::error::{
    ends, invalid_format, invalid_input, overflow, refused_format, PrismResult, Verdict,
};
use crate::point::{columns_fit, row_bounds, whole_rows, PointStore};
use crate::single::{byte_to_pattern, finite, is_finite, pattern_of_byte};
use crate::sparse::{csr_verdict, SpMat};

verus! {

/// The number that four bytes hold, lowest byte first.
pub open spec fn word_of(bytes: Seq<u8>) -> int {
    bytes[0] + 0x100 * bytes[1] + 0x1_0000 * bytes[2] + 0x100_0000 * bytes[3]
}

/// `byteorder::ByteOrder::read_u32` of `byteorder::LittleEndian`: the number
/// that the first four bytes hold, lowest byte first.
#[verifier::external_body]
fn read_word(bytes: &[u8]) -> (word: u32)
    requires
        bytes@.len() >= 4,
    ensures
        word == word_of(bytes@),
{
    LittleEndian::read_u32(bytes)
}

/// The number that the bytes from `at` on hold.
pub open spec fn word_at(bytes: Seq<u8>, at: int) -> int {
    word_of(bytes.subrange(at, at + 4))
}

/// The number that the bytes from `at` on hold.
pub fn word_from(bytes: &[u8], at: usize) -> (word: u32)
    requires
        at + 4 <= bytes@.len(),
    ensures
        word == word_at(bytes@, at as int),
{
    let end: usize = bytes.len();
    assert(at + 4 <= end);
    read_word(vstd::slice::slice_subrange(bytes, at, at + 4))
}

/// Bytes of a row with `dim` values of `width` bytes: its dimension and its
/// values.
pub open spec fn row_size(dim: int, width: int) -> int {
    4 + dim * width
}

/// The dimension that a file of rows begins with.
pub open spec fn file_dim(bytes: Seq<u8>) -> int {
    word_at(bytes, 0)
}

/// How many rows of this dimension a file has.
pub open spec fn row_count(bytes: Seq<u8>, width: int) -> int {
    bytes.len() as int / row_size(file_dim(bytes), width)
}

/// Row `r` begins with the dimension that all rows have.
pub open spec fn row_header_fits(bytes: Seq<u8>, width: int, r: int) -> bool {
    word_at(bytes, r * row_size(file_dim(bytes), width)) == file_dim(bytes)
}

/// A file of one or more rows, all with one positive dimension.
pub open spec fn is_rows(bytes: Seq<u8>, width: int) -> bool {
    &&& bytes.len() >= 4
    &&& 0 < file_dim(bytes) < 0x8000_0000
    &&& bytes.len() as int % row_size(file_dim(bytes), width) == 0
    &&& forall|r: int| 0 <= r < row_count(bytes, width) ==> #[trigger] row_header_fits(bytes, width, r)
}

/// Where value `c` of row `r` begins.
pub open spec fn value_start(bytes: Seq<u8>, width: int, r: int, c: int) -> int {
    r * row_size(file_dim(bytes), width) + 4 + c * width
}

/// A value of a row lies within the file.
proof fn value_inside(bytes: Seq<u8>, width: int, r: int, c: int)
    requires
        is_rows(bytes, width),
        width > 0,
        0 <= r < row_count(bytes, width),
        0 <= c < file_dim(bytes),
    ensures
        0 <= value_start(bytes, width, r, c),
        value_start(bytes, width, r, c) + width <= bytes.len(),
        value_start(bytes, width, r, c) + width <= (r + 1) * row_size(file_dim(bytes), width),
{
    let dim = file_dim(bytes);
    let size = row_size(dim, width);
    let rows = row_count(bytes, width);
    assert(size > 0) by (nonlinear_arith)
        requires
            size == 4 + dim * width,
            dim > 0,
            width > 0,
    ;
    lemma_fundamental_div_mod(bytes.len() as int, size);
    assert(c * width + width <= dim * width) by (nonlinear_arith)
        requires
            c + 1 <= dim,
            width > 0,
    ;
    assert(0 <= c * width) by (nonlinear_arith)
        requires
            0 <= c,
            width > 0,
    ;
    row_bounds(r, rows, size);
    assert(size * rows == rows * size) by (nonlinear_arith);
}

/// Shape of a file of rows: how many there are and their dimension.
pub fn vector_layout(bytes: &[u8], width: usize) -> (result: PrismResult<(usize, usize)>)
    requires
        width == 1 || width == 4,
    ensures
        result is Ok <==> is_rows(bytes@, width as int),
        result is Err ==> refused_format(result),
        result matches Ok((rows, dim)) ==> {
            &&& rows == row_count(bytes@, width as int)
            &&& dim == file_dim(bytes@)
            &&& rows > 0
            &&& rows * row_size(dim as int, width as int) == bytes@.len()
            &&& rows * dim <= usize::MAX
            &&& row_size(dim as int, width as int) <= bytes@.len() <= usize::MAX
        },
{
    if bytes.len() < 4 {
        return Err(invalid_format("file ends within its first row"));
    }
    let word: u32 = word_from(bytes, 0);
    if word == 0 || word >= 0x8000_0000 {
        return Err(invalid_format("dimension must be positive"));
    }
    proof {
        assert(word <= word * width <= 4 * word) by (nonlinear_arith)
            requires
                1 <= width <= 4,
                word >= 0,
        ;
    }
    let size: u64 = 4 + word as u64 * width as u64;
    let total: u64 = bytes.len() as u64;
    proof {
        assert(size == row_size(word as int, width as int));
    }
    if total % size != 0 {
        return Err(invalid_format("file length is not an exact multiple of the row stride"));
    }
    let rows: usize = (total / size) as usize;
    let dim: usize = word as usize;
    proof {
        lemma_fundamental_div_mod(total as int, size as int);
        assert(rows == total / size) by {
            assert(total / size <= total) by (nonlinear_arith)
                requires
                    size > 0,
            ;
        }
        assert(rows * size == total) by (nonlinear_arith)
            requires
                total == size * (total as int / size as int) + total as int % size as int,
                total as int % size as int == 0,
                rows == total as int / size as int,
        ;
        if rows == 0 {
            assert(false) by (nonlinear_arith)
                requires
                    rows * size == total,
                    rows == 0,
                    total >= 4,
            ;
        }
        assert(rows * dim <= total && size <= total) by (nonlinear_arith)
            requires
                rows * size == total,
                dim <= size,
                rows > 0,
        ;
    }
    let mut r: usize = 0;
    while r < rows
        invariant
            r <= rows,
            width == 1 || width == 4,
            bytes@.len() >= 4,
            word == file_dim(bytes@),
            size == row_size(word as int, width as int),
            rows * size == bytes@.len(),
            bytes@.len() <= usize::MAX,
            rows == row_count(bytes@, width as int),
            size >= 4,
            forall|q: int| 0 <= q < r ==> #[trigger] row_header_fits(bytes@, width as int, q),
        decreases rows - r,
    {
        proof {
            row_bounds(r as int, rows as int, size as int);
        }
        let at: usize = r * (size as usize);
        if word_from(bytes, at) != word {
            assert(!row_header_fits(bytes@, width as int, r as int));
            return Err(invalid_format("row dimension does not match first-row dimension"));
        }
        r = r + 1;
    }
    Ok((rows, dim))
}

/// Every value of the rows is finite.
pub open spec fn values_finite(bytes: Seq<u8>) -> bool {
    forall|r: int, c: int|
        0 <= r < row_count(bytes, 4) && 0 <= c < file_dim(bytes) ==> is_finite(
            #[trigger] value_word(bytes, r, c),
        )
}

/// Value `c` of row `r` of a file with values of four bytes.
pub open spec fn value_word(bytes: Seq<u8>, r: int, c: int) -> u32 {
    word_at(bytes, value_start(bytes, 4, r, c)) as u32
}

/// Reads vectors from the contents of a file in fvecs format: each vector is
/// preceded by its dimension, and every number takes four bytes, lowest first.
pub fn load_fvecs(bytes: &[u8]) -> (result: PrismResult<(Vec<u32>, usize)>)
    ensures
        result is Ok <==> is_rows(bytes@, 4) && values_finite(bytes@),
        result is Err ==> refused_format(result),
        result matches Ok((values, dim)) ==> {
            &&& dim == file_dim(bytes@)
            &&& values@.len() == row_count(bytes@, 4) * dim
            &&& forall|r: int, c: int|
                0 <= r < row_count(bytes@, 4) && 0 <= c < dim ==> values@[r * dim + c]
                    == #[trigger] value_word(bytes@, r, c)
        },
{
    let (rows, dim) = match vector_layout(bytes, 4) {
        Ok(shape) => shape,
        Err(error) => {
            return Err(error);
        },
    };
    let mut values: Vec<u32> = Vec::new();
    let size: usize = 4 + dim * 4;
    let mut r: usize = 0;
    while r < rows
        invariant
            r <= rows,
            is_rows(bytes@, 4),
            rows == row_count(bytes@, 4),
            dim == file_dim(bytes@),
            size == row_size(dim as int, 4),
            rows * dim <= usize::MAX,
            bytes@.len() <= usize::MAX,
            values@.len() == r * dim,
            forall|q: int, c: int|
                0 <= q < r && 0 <= c < dim ==> is_finite(#[trigger] value_word(bytes@, q, c))
                    && values@[q * dim + c] == value_word(bytes@, q, c),
        decreases rows - r,
    {
        let mut c: usize = 0;
        let ghost before = values@;
        while c < dim
            invariant
                r < rows,
                c <= dim,
                is_rows(bytes@, 4),
                rows == row_count(bytes@, 4),
                dim == file_dim(bytes@),
                size == row_size(dim as int, 4),
                bytes@.len() <= usize::MAX,
                before.len() == r * dim,
                values@.len() == r * dim + c,
                values@.take(r * dim) == before,
                forall|d: int|
                    0 <= d < c ==> is_finite(#[trigger] value_word(bytes@, r as int, d))
                        && values@[r * dim + d] == value_word(bytes@, r as int, d),
            decreases dim - c,
        {
            proof {
                value_inside(bytes@, 4, r as int, c as int);
                assert(0 <= r * size) by (nonlinear_arith)
                    requires
                        r >= 0,
                        size >= 0,
                ;
            }
            let at: usize = r * size + 4 + c * 4;
            let value: u32 = word_from(bytes, at);
            assert(value == value_word(bytes@, r as int, c as int));
            if !finite(value) {
                return Err(invalid_format("fvecs value is not finite"));
            }
            let ghost some = values@;
            values.push(value);
            assert(values@.take(r * dim) =~= before);
            c = c + 1;
        }
        proof {
            row_bounds(r as int, rows as int, dim as int);
            assert forall|q: int, d: int| 0 <= q < r + 1 && 0 <= d < dim implies is_finite(
                #[trigger] value_word(bytes@, q, d),
            ) && values@[q * dim + d] == value_word(bytes@, q, d) by {
                if q < r {
                    row_bounds(q, r as int, dim as int);
                    assert(before[q * dim + d] == value_word(bytes@, q, d));
                    assert(values@.take(r * dim)[q * dim + d] == before[q * dim + d]);
                }
            }
        }
        r = r + 1;
    }
    Ok((values, dim))
}

/// Value `c` of row `r` of a file with values of one byte.
pub open spec fn value_byte(bytes: Seq<u8>, r: int, c: int) -> u8 {
    bytes[value_start(bytes, 1, r, c)]
}

/// Reads vectors from the contents of a file in bvecs format, where every
/// value takes one byte.
pub fn load_bvecs(bytes: &[u8]) -> (result: PrismResult<(Vec<u32>, usize)>)
    ensures
        result is Ok <==> is_rows(bytes@, 1),
        result is Err ==> refused_format(result),
        result matches Ok((values, dim)) ==> {
            &&& dim == file_dim(bytes@)
            &&& values@.len() == row_count(bytes@, 1) * dim
            &&& forall|r: int, c: int|
                0 <= r < row_count(bytes@, 1) && 0 <= c < dim ==> values@[r * dim + c]
                    == pattern_of_byte(#[trigger] value_byte(bytes@, r, c))
        },
{
    let (rows, dim) = match vector_layout(bytes, 1) {
        Ok(shape) => shape,
        Err(error) => {
            return Err(error);
        },
    };
    let mut values: Vec<u32> = Vec::new();
    let size: usize = 4 + dim;
    let mut r: usize = 0;
    while r < rows
        invariant
            r <= rows,
            is_rows(bytes@, 1),
            rows == row_count(bytes@, 1),
            dim == file_dim(bytes@),
            size == row_size(dim as int, 1),
            bytes@.len() <= usize::MAX,
            values@.len() == r * dim,
            forall|q: int, c: int|
                0 <= q < r && 0 <= c < dim ==> values@[q * dim + c] == pattern_of_byte(
                    #[trigger] value_byte(bytes@, q, c),
                ),
        decreases rows - r,
    {
        let mut c: usize = 0;
        let ghost before = values@;
        while c < dim
            invariant
                r < rows,
                c <= dim,
                is_rows(bytes@, 1),
                rows == row_count(bytes@, 1),
                dim == file_dim(bytes@),
                size == row_size(dim as int, 1),
                bytes@.len() <= usize::MAX,
                before.len() == r * dim,
                values@.len() == r * dim + c,
                values@.take(r * dim) == before,
                forall|d: int|
                    0 <= d < c ==> values@[r * dim + d] == pattern_of_byte(
                        #[trigger] value_byte(bytes@, r as int, d),
                    ),
            decreases dim - c,
        {
            proof {
                value_inside(bytes@, 1, r as int, c as int);
                assert(0 <= r * size) by (nonlinear_arith)
                    requires
                        r >= 0,
                        size >= 0,
                ;
            }
            let at: usize = r * size + 4 + c;
            let byte: u8 = bytes[at];
            assert(byte == value_byte(bytes@, r as int, c as int));
            values.push(byte_to_pattern(byte));
            assert(values@.take(r * dim) =~= before);
            c = c + 1;
        }
        proof {
            row_bounds(r as int, rows as int, dim as int);
            assert forall|q: int, d: int| 0 <= q < r + 1 && 0 <= d < dim implies values@[q * dim + d]
                == pattern_of_byte(#[trigger] value_byte(bytes@, q, d)) by {
                if q < r {
                    row_bounds(q, r as int, dim as int);
                    assert(before[q * dim + d] == pattern_of_byte(value_byte(bytes@, q, d)));
                    assert(values@.take(r * dim)[q * dim + d] == before[q * dim + d]);
                }
            }
        }
        r = r + 1;
    }
    Ok((values, dim))
}

/// No value of the rows is negative as a signed number.
pub open spec fn values_are_ids(bytes: Seq<u8>) -> bool {
    forall|r: int, c: int|
        0 <= r < row_count(bytes, 4) && 0 <= c < file_dim(bytes) ==> (#[trigger] value_word(
            bytes,
            r,
            c,
        )) < 0x8000_0000
}

/// Reads rows of identifiers from the contents of a file in ivecs format.
pub fn load_ivecs(bytes: &[u8]) -> (result: PrismResult<Vec<Vec<u32>>>)
    ensures
        result is Ok <==> is_rows(bytes@, 4) && values_are_ids(bytes@),
        result is Err ==> refused_format(result),
        result matches Ok(rows) ==> {
            &&& rows@.len() == row_count(bytes@, 4)
            &&& forall|r: int|
                0 <= r < rows@.len() ==> (#[trigger] rows@[r])@ == Seq::new(
                    file_dim(bytes@) as nat,
                    |c: int| value_word(bytes@, r, c),
                )
        },
{
    let (rows, dim) = match vector_layout(bytes, 4) {
        Ok(shape) => shape,
        Err(error) => {
            return Err(error);
        },
    };
    let size: usize = 4 + dim * 4;
    let mut out: Vec<Vec<u32>> = Vec::new();
    while out.len() < rows
        invariant
            out@.len() <= rows,
            is_rows(bytes@, 4),
            rows == row_count(bytes@, 4),
            dim == file_dim(bytes@),
            size == row_size(dim as int, 4),
            bytes@.len() <= usize::MAX,
            forall|r: int, c: int|
                0 <= r < out@.len() && 0 <= c < dim ==> (#[trigger] value_word(bytes@, r, c))
                    < 0x8000_0000,
            forall|r: int|
                0 <= r < out@.len() ==> (#[trigger] out@[r])@ == Seq::new(
                    dim as nat,
                    |c: int| value_word(bytes@, r, c),
                ),
        decreases rows - out@.len(),
    {
        let r: usize = out.len();
        let mut row: Vec<u32> = Vec::new();
        while row.len() < dim
            invariant
                r < rows,
                row@.len() <= dim,
                is_rows(bytes@, 4),
                rows == row_count(bytes@, 4),
                dim == file_dim(bytes@),
                size == row_size(dim as int, 4),
                bytes@.len() <= usize::MAX,
                forall|c: int|
                    0 <= c < row@.len() ==> (#[trigger] value_word(bytes@, r as int, c)) < 0x8000_0000
                        && row@[c] == value_word(bytes@, r as int, c),
            decreases dim - row@.len(),
        {
            let c: usize = row.len();
            proof {
                value_inside(bytes@, 4, r as int, c as int);
                assert(0 <= r * size) by (nonlinear_arith)
                    requires
                        r >= 0,
                        size >= 0,
                ;
            }
            let id: u32 = word_from(bytes, r * size + 4 + c * 4);
            assert(id == value_word(bytes@, r as int, c as int));
            if id >= 0x8000_0000 {
                return Err(invalid_format("ivecs value is a negative identifier"));
            }
            row.push(id);
        }
        assert(row@ =~= Seq::new(dim as nat, |c: int| value_word(bytes@, r as int, c)));
        out.push(row);
    }
    Ok(out)
}

/// Product of the first `j` cardinalities.
pub open spec fn stride_of(cardinalities: Seq<usize>, j: int) -> int
    decreases j,
{
    if j <= 0 {
        1
    } else {
        stride_of(cardinalities, j - 1) * cardinalities[j - 1]
    }
}

/// How the first `j` attributes end: none may be empty or beyond the value
/// space, and the strides have to be representable.
pub open spec fn synthetic_verdict(cardinalities: Seq<usize>, j: int) -> Verdict
    decreases j,
{
    if j <= 0 {
        Verdict::Accepted
    } else {
        let early = synthetic_verdict(cardinalities, j - 1);
        if !(early is Accepted) {
            early
        } else if cardinalities[j - 1] == 0 {
            Verdict::InvalidInput
        } else if cardinalities[j - 1] > 0x1_0000_0000 {
            Verdict::Overflow
        } else if j < cardinalities.len() && stride_of(cardinalities, j) > usize::MAX {
            Verdict::Overflow
        } else {
            Verdict::Accepted
        }
    }
}

/// Value of synthetic attribute `j` at point `p`.
pub open spec fn synthetic_value(cardinalities: Seq<usize>, j: int, p: int) -> int {
    p / stride_of(cardinalities, j) % cardinalities[j] as int
}

proof fn verdict_stays(cardinalities: Seq<usize>, j: int, all: int)
    requires
        0 <= j <= all,
        !(synthetic_verdict(cardinalities, j) is Accepted),
    ensures
        synthetic_verdict(cardinalities, all) == synthetic_verdict(cardinalities, j),
    decreases all - j,
{
    if j < all {
        verdict_stays(cardinalities, j, all - 1);
    }
}

/// A store with synthetic attributes, each running through its values, the
/// next one once the earlier ones have run through all combinations.
pub fn build_store_with_synthetic_attrs(
    vectors: Vec<u32>,
    dim: usize,
    cardinalities: &[usize],
) -> (result: PrismResult<PointStore>)
    ensures
        ends(
            result,
            if !whole_rows(vectors@.len() as int, dim as int) {
                Verdict::InvalidInput
            } else if !(synthetic_verdict(cardinalities@, cardinalities@.len() as int) is Accepted) {
                synthetic_verdict(cardinalities@, cardinalities@.len() as int)
            } else if vectors@.len() as int / dim as int > u32::MAX {
                Verdict::Overflow
            } else if crate::single::all_in_domain(vectors@, dim as int) {
                Verdict::Accepted
            } else {
                Verdict::InvalidInput
            },
        ),
        result matches Ok(store) ==> {
            &&& store.wf()
            &&& store.vectors@ == vectors@
            &&& store.dim == dim
            &&& store.attrs@.len() == cardinalities@.len()
            &&& forall|j: int, p: int|
                0 <= j < store.attrs@.len() && 0 <= p < store.len ==> #[trigger] store.attrs@[j]@[p]
                    == synthetic_value(cardinalities@, j, p)
        },
{
    if dim == 0 {
        return Err(invalid_input("synthetic-store dimension must be greater than zero"));
    }
    if vectors.len() % dim != 0 {
        return Err(invalid_input("synthetic-store vector length must be divisible by dimension"));
    }
    let n: usize = vectors.len() / dim;
    let ghost count = cardinalities@.len() as int;
    let mut attrs: Vec<Vec<u32>> = Vec::new();
    let mut stride: usize = 1;
    while attrs.len() < cardinalities.len()
        invariant
            attrs@.len() <= cardinalities@.len(),
            count == cardinalities@.len(),
            dim > 0,
            vectors@.len() as int % dim as int == 0,
            n == vectors@.len() as int / dim as int,
            synthetic_verdict(cardinalities@, attrs@.len() as int) is Accepted,
            attrs@.len() < cardinalities@.len() ==> stride == stride_of(
                cardinalities@,
                attrs@.len() as int,
            ),
            stride > 0,
            forall|j: int| 0 <= j < attrs@.len() ==> (#[trigger] attrs@[j])@.len() == n,
            forall|j: int, p: int|
                0 <= j < attrs@.len() && 0 <= p < n ==> #[trigger] attrs@[j]@[p] == synthetic_value(
                    cardinalities@,
                    j,
                    p,
                ),
        decreases cardinalities@.len() - attrs@.len(),
    {
        let j: usize = attrs.len();
        let cardinality: usize = cardinalities[j];
        if cardinality == 0 {
            proof {
                verdict_stays(cardinalities@, j + 1, count);
            }
            return Err(invalid_input("synthetic attribute cardinality must be greater than zero"));
        }
        if cardinality as u64 > 0x1_0000_0000 {
            proof {
                verdict_stays(cardinalities@, j + 1, count);
            }
            return Err(overflow("synthetic attribute cardinality exceeds the u32 value space"));
        }
        let mut column: Vec<u32> = Vec::new();
        while column.len() < n
            invariant
                column@.len() <= n,
                j < cardinalities@.len(),
                cardinality == cardinalities@[j as int],
                0 < cardinality <= 0x1_0000_0000,
                stride > 0,
                stride == stride_of(cardinalities@, j as int),
                forall|p: int|
                    0 <= p < column@.len() ==> #[trigger] column@[p] == synthetic_value(
                        cardinalities@,
                        j as int,
                        p,
                    ),
            decreases n - column@.len(),
        {
            let p: usize = column.len();
            let value: usize = (p / stride) % cardinality;
            assert(value < cardinality);
            column.push(value as u32);
        }
        let ghost before = attrs@;
        attrs.push(column);
        if j + 1 < cardinalities.len() {
            proof {
                assert(stride_of(cardinalities@, j + 1) == stride * cardinality);
            }
            match stride.checked_mul(cardinality) {
                Some(next) => {
                    proof {
                        assert(stride * cardinality > 0) by (nonlinear_arith)
                            requires
                                stride > 0,
                                cardinality > 0,
                        ;
                    }
                    stride = next;
                },
                None => {
                    proof {
                        verdict_stays(cardinalities@, j + 1, count);
                    }
                    return Err(overflow("synthetic attribute stride overflows"));
                },
            }
        }
    }
    assert(columns_fit(attrs@, n as int));
    PointStore::from_parts(vectors, dim, attrs)
}

/// How many entries of `width` bytes the table of a file with a header of two
/// numbers has.
pub open spec fn table_size(bytes: Seq<u8>) -> int {
    word_at(bytes, 0) * word_at(bytes, 4)
}

/// A header of two numbers, and a table of that shape after it.
pub open spec fn is_table(bytes: Seq<u8>, width: int) -> bool {
    bytes.len() >= 8 && 8 + table_size(bytes) * width <= bytes.len()
}

/// Shape of the table of a file.
fn table_shape(bytes: &[u8], width: usize) -> (result: PrismResult<(usize, usize, usize)>)
    requires
        width == 1 || width == 4,
    ensures
        result is Ok <==> is_table(bytes@, width as int),
        result is Err ==> refused_format(result),
        result matches Ok((rows, cols, count)) ==> {
            &&& rows == word_at(bytes@, 0)
            &&& cols == word_at(bytes@, 4)
            &&& count == table_size(bytes@)
            &&& 8 + count * width <= bytes@.len() <= usize::MAX
        },
{
    let total: usize = bytes.len();
    if total < 8 {
        return Err(invalid_format("file ends within its header"));
    }
    let rows: u64 = word_from(bytes, 0) as u64;
    let cols: u64 = word_from(bytes, 4) as u64;
    proof {
        assert(rows * cols <= 0xffff_ffff * 0xffff_ffff) by (nonlinear_arith)
            requires
                0 <= rows <= 0xffff_ffff,
                0 <= cols <= 0xffff_ffff,
        ;
    }
    let count: u64 = rows * cols;
    if count > ((total - 8) / width) as u64 {
        proof {
            assert(count * width > total - 8) by (nonlinear_arith)
                requires
                    count > (total - 8) as int / width as int,
                    width > 0,
            ;
        }
        return Err(invalid_format("file ends within its table"));
    }
    proof {
        assert(count * width <= total - 8) by (nonlinear_arith)
            requires
                count <= (total - 8) as int / width as int,
                width > 0,
        ;
        assert(count <= total) by (nonlinear_arith)
            requires
                count * width <= total - 8,
                width > 0,
                count >= 0,
        ;
    }
    Ok((rows as usize, cols as usize, count as usize))
}

/// Reads a table of bytes, with its number of rows and of columns.
pub fn read_u8bin(bytes: &[u8]) -> (result: PrismResult<(Vec<u8>, usize, usize)>)
    ensures
        result is Ok <==> is_table(bytes@, 1),
        result is Err ==> refused_format(result),
        result matches Ok((data, rows, cols)) ==> {
            &&& rows == word_at(bytes@, 0)
            &&& cols == word_at(bytes@, 4)
            &&& data@ == bytes@.subrange(8, 8 + table_size(bytes@))
        },
{
    let (rows, cols, count) = match table_shape(bytes, 1) {
        Ok(shape) => shape,
        Err(error) => {
            return Err(error);
        },
    };
    let mut data: Vec<u8> = Vec::new();
    while data.len() < count
        invariant
            data@.len() <= count,
            8 + count <= bytes@.len() <= usize::MAX,
            forall|i: int| 0 <= i < data@.len() ==> #[trigger] data@[i] == bytes@[8 + i],
        decreases count - data@.len(),
    {
        data.push(bytes[8 + data.len()]);
    }
    assert(data@ =~= bytes@.subrange(8, 8 + table_size(bytes@)));
    Ok((data, rows, cols))
}

/// A number of four bytes, read with its sign.
pub open spec fn signed_word(bytes: Seq<u8>, at: int) -> int {
    let word = word_at(bytes, at);
    if word < 0x8000_0000 {
        word
    } else {
        word - 0x1_0000_0000
    }
}

/// A number of four bytes, read with its sign.
fn signed_from(bytes: &[u8], at: usize) -> (number: i32)
    requires
        at + 4 <= bytes@.len(),
    ensures
        number == signed_word(bytes@, at as int),
{
    let word: u32 = word_from(bytes, at);
    if word < 0x8000_0000 {
        word as i32
    } else {
        (word - 0x8000_0000) as i32 + i32::MIN
    }
}

/// A number of eight bytes, read with its sign.
pub open spec fn signed_long(bytes: Seq<u8>, at: int) -> int {
    word_at(bytes, at) + 0x1_0000_0000 * signed_word(bytes, at + 4)
}

/// A number of eight bytes, read with its sign.
fn long_from(bytes: &[u8], at: usize) -> (number: i64)
    requires
        at + 8 <= bytes@.len(),
    ensures
        number == signed_long(bytes@, at as int),
{
    let total: usize = bytes.len();
    let low: i64 = word_from(bytes, at) as i64;
    let high: i64 = signed_from(bytes, at + 4) as i64;
    high * 0x1_0000_0000 + low
}

/// Reads a table of numbers of four bytes, with its number of rows and of
/// columns.
pub fn read_ibin(bytes: &[u8]) -> (result: PrismResult<(Vec<i32>, usize, usize)>)
    ensures
        result is Ok <==> is_table(bytes@, 4),
        result is Err ==> refused_format(result),
        result matches Ok((data, rows, cols)) ==> {
            &&& rows == word_at(bytes@, 0)
            &&& cols == word_at(bytes@, 4)
            &&& data@.len() == table_size(bytes@)
            &&& forall|i: int|
                0 <= i < data@.len() ==> #[trigger] data@[i] == signed_word(bytes@, 8 + 4 * i)
        },
{
    let (rows, cols, count) = match table_shape(bytes, 4) {
        Ok(shape) => shape,
        Err(error) => {
            return Err(error);
        },
    };
    let mut data: Vec<i32> = Vec::new();
    while data.len() < count
        invariant
            data@.len() <= count,
            8 + count * 4 <= bytes@.len() <= usize::MAX,
            forall|i: int|
                0 <= i < data@.len() ==> #[trigger] data@[i] == signed_word(bytes@, 8 + 4 * i),
        decreases count - data@.len(),
    {
        let at: usize = 8 + 4 * data.len();
        data.push(signed_from(bytes, at));
    }
    Ok((data, rows, cols))
}

/// Header and size of a file of row-compressed tags.
pub open spec fn is_sparse_file(bytes: Seq<u8>) -> bool {
    &&& bytes.len() >= 24
    &&& 0 <= signed_long(bytes, 0)
    &&& 0 <= signed_long(bytes, 8)
    &&& 0 <= signed_long(bytes, 16)
    &&& signed_long(bytes, 8) <= usize::MAX
    &&& 24 + 8 * (signed_long(bytes, 0) + 1) + 4 * signed_long(bytes, 16) <= bytes.len()
}

/// The row pointers of a file of row-compressed tags.
pub open spec fn sparse_pointers(bytes: Seq<u8>) -> Seq<i64> {
    Seq::new((signed_long(bytes, 0) + 1) as nat, |i: int| signed_long(bytes, 24 + 8 * i) as i64)
}

/// The tags of a file of row-compressed tags.
pub open spec fn sparse_tags(bytes: Seq<u8>) -> Seq<i32> {
    let start = 24 + 8 * (signed_long(bytes, 0) + 1);
    Seq::new(
        signed_long(bytes, 16) as nat,
        |i: int| signed_word(bytes, start + 4 * i) as i32,
    )
}

/// Reads row-compressed tags.
pub fn read_spmat(bytes: &[u8]) -> (result: PrismResult<SpMat>)
    ensures
        ends(
            result,
            if is_sparse_file(bytes@) {
                csr_verdict(
                    signed_long(bytes@, 0),
                    signed_long(bytes@, 8),
                    sparse_pointers(bytes@),
                    sparse_tags(bytes@),
                    signed_long(bytes@, 0),
                )
            } else {
                Verdict::InvalidFormat
            },
        ),
        result matches Ok(matrix) ==> {
            &&& matrix.wf()
            &&& matrix.rows == signed_long(bytes@, 0)
            &&& matrix.cols == signed_long(bytes@, 8)
            &&& matrix.indptr@ == sparse_pointers(bytes@)
            &&& matrix.indices@ == sparse_tags(bytes@)
        },
{
    let total: usize = bytes.len();
    if total < 24 {
        return Err(invalid_format("file ends within its header"));
    }
    let rows: i64 = long_from(bytes, 0);
    let cols: i64 = long_from(bytes, 8);
    let entries: i64 = long_from(bytes, 16);
    if rows < 0 || cols < 0 || entries < 0 || cols as u64 > usize::MAX as u64 {
        return Err(invalid_format("sizes are out of range"));
    }
    let room: u64 = (total - 24) as u64;
    if rows as u64 >= room / 8 || rows as u64 >= usize::MAX as u64 {
        assert(!is_sparse_file(bytes@));
        return Err(invalid_format("file ends within its row pointers"));
    }
    let count: usize = rows as usize;
    let start: usize = 24 + 8 * (count + 1);
    if entries as u64 > (total - start) as u64 / 4 {
        return Err(invalid_format("file ends within its tags"));
    }
    let size: usize = entries as usize;
    let mut indptr: Vec<i64> = Vec::new();
    while indptr.len() <= count
        invariant
            indptr@.len() <= count + 1,
            24 + 8 * (count + 1) <= total,
            total == bytes@.len(),
            forall|i: int|
                0 <= i < indptr@.len() ==> #[trigger] indptr@[i] == signed_long(bytes@, 24 + 8 * i),
        decreases count + 1 - indptr@.len(),
    {
        let at: usize = 24 + 8 * indptr.len();
        indptr.push(long_from(bytes, at));
    }
    let mut indices: Vec<i32> = Vec::new();
    while indices.len() < size
        invariant
            indices@.len() <= size,
            start + 4 * size <= total,
            total == bytes@.len(),
            forall|i: int|
                0 <= i < indices@.len() ==> #[trigger] indices@[i] == signed_word(
                    bytes@,
                    start + 4 * i,
                ),
        decreases size - indices@.len(),
    {
        let at: usize = start + 4 * indices.len();
        indices.push(signed_from(bytes, at));
    }
    proof {
        assert(indptr@ =~= sparse_pointers(bytes@));
        assert(indices@ =~= sparse_tags(bytes@));
    }
    SpMat::new(count, cols as usize, indptr, indices)
}

} // verus!
