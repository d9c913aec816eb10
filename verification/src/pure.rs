//! Numeric kernels handed in by callers.
//!
//! Floating-point distances and transforms are computed outside the library.
//! Where an algorithm needs one, the caller passes a function; the library
//! asks that it always answers the same for the same arguments, and states its
//! own results in terms of those answers.

use vstd::prelude::*;
use crate::binary::block_valid;
use crate::distance::Metric;

verus! {

/// `value` is one that `f` answers for two rows.
pub open spec fn answers_pair<F: Fn(&[u32], &[u32]) -> u32>(
    f: F,
    a: Seq<u32>,
    b: Seq<u32>,
    value: u32,
) -> bool {
    exists|x: &[u32], y: &[u32]|
        x@ == a && y@ == b && #[trigger] call_ensures(f, (x, y), value)
}

/// What `f` answers for two rows.
pub open spec fn pair_value<F: Fn(&[u32], &[u32]) -> u32>(f: F, a: Seq<u32>, b: Seq<u32>) -> u32 {
    choose|value: u32| answers_pair(f, a, b, value)
}

/// `f` takes any two rows of `width` and always answers the same for them.
pub open spec fn measures<F: Fn(&[u32], &[u32]) -> u32>(f: F, width: int) -> bool {
    &&& forall|x: &[u32], y: &[u32]|
        x@.len() == width && y@.len() == width ==> call_requires(f, (x, y))
    &&& forall|x: &[u32], y: &[u32], value: u32|
        x@.len() == width && y@.len() == width && #[trigger] call_ensures(f, (x, y), value) ==> value
            == pair_value(f, x@, y@)
}

/// `value` is one that `f` answers for two rows by a metric.
pub open spec fn answers_metric<D: Fn(Metric, &[u32], &[u32]) -> u32>(
    f: D,
    metric: Metric,
    a: Seq<u32>,
    b: Seq<u32>,
    value: u32,
) -> bool {
    exists|x: &[u32], y: &[u32]|
        x@ == a && y@ == b && #[trigger] call_ensures(f, (metric, x, y), value)
}

/// What `f` answers for two rows by a metric.
pub open spec fn metric_value<D: Fn(Metric, &[u32], &[u32]) -> u32>(
    f: D,
    metric: Metric,
    a: Seq<u32>,
    b: Seq<u32>,
) -> u32 {
    choose|value: u32| answers_metric(f, metric, a, b, value)
}

/// `f` takes any metric and two rows of `width` and always answers the same
/// for them.
pub open spec fn measures_by<D: Fn(Metric, &[u32], &[u32]) -> u32>(f: D, width: int) -> bool {
    &&& forall|metric: Metric, x: &[u32], y: &[u32]|
        x@.len() == width && y@.len() == width ==> call_requires(f, (metric, x, y))
    &&& forall|metric: Metric, x: &[u32], y: &[u32], value: u32|
        x@.len() == width && y@.len() == width && #[trigger] call_ensures(
            f,
            (metric, x, y),
            value,
        ) ==> value == metric_value(f, metric, x@, y@)
}

/// A distance kernel together with the metric to go by.
pub struct Measure<'a, D> {
    pub metric: Metric,
    pub distance: &'a D,
}

/// The kernel together with a metric.
pub open spec fn by_metric<'a, D>(distance: D, metric: Metric) -> Measure<'a, D> {
    Measure { metric, distance: &distance }
}

impl<'a, D: Fn(Metric, &[u32], &[u32]) -> u32> Measure<'a, D> {
    /// The distance of two rows, as a bit pattern.
    pub open spec fn gives(self, a: Seq<u32>, b: Seq<u32>) -> u32 {
        metric_value(*self.distance, self.metric, a, b)
    }

    /// Distances of rows of `width` can be told.
    pub open spec fn fits(self, width: int) -> bool {
        measures_by(*self.distance, width)
    }

    /// The distance of two rows, as a bit pattern.
    pub fn between(&self, a: &[u32], b: &[u32]) -> (bits: u32)
        requires
            a@.len() == b@.len(),
            self.fits(a@.len() as int),
        ensures
            bits == self.gives(a@, b@),
    {
        (self.distance)(self.metric, a, b)
    }
}

/// `flags` are some that `f` gives for a row, signs and a block length.
pub open spec fn answers_flags<F: Fn(&[u32], &[u32], usize) -> Vec<bool>>(
    f: F,
    row: Seq<u32>,
    signs: Seq<u32>,
    block: usize,
    flags: Seq<bool>,
) -> bool {
    exists|x: &[u32], s: &[u32], given: Vec<bool>|
        x@ == row && s@ == signs && given@ == flags && #[trigger] call_ensures(
            f,
            (x, s, block),
            given,
        )
}

/// The bits that `f` gives for a row, signs and a block length.
pub open spec fn flags_of<F: Fn(&[u32], &[u32], usize) -> Vec<bool>>(
    f: F,
    row: Seq<u32>,
    signs: Seq<u32>,
    block: usize,
) -> Seq<bool> {
    choose|flags: Seq<bool>| answers_flags(f, row, signs, block, flags)
}

/// `f` takes any row of `width` with as many signs and blocks that divide it,
/// and always gives the same `width` bits for them.
pub open spec fn gives_flags<F: Fn(&[u32], &[u32], usize) -> Vec<bool>>(f: F, width: int) -> bool {
    &&& forall|x: &[u32], s: &[u32], block: usize|
        x@.len() == width && s@.len() == width && block_valid(block as int, width)
            ==> call_requires(f, (x, s, block))
    &&& forall|x: &[u32], s: &[u32], block: usize, flags: Vec<bool>|
        x@.len() == width && s@.len() == width && block_valid(block as int, width)
            && #[trigger] call_ensures(f, (x, s, block), flags) ==> flags@ == flags_of(
            f,
            x@,
            s@,
            block,
        ) && flags@.len() == width
}

/// `row` is one that `f` gives for the argument.
pub open spec fn gives_row<F: Fn(&[u32]) -> Vec<u32>>(f: F, argument: Seq<u32>, row: Seq<u32>) -> bool {
    exists|x: &[u32], r: Vec<u32>| x@ == argument && r@ == row && #[trigger] call_ensures(f, (x,), r)
}

/// The row that `f` gives for the argument.
pub open spec fn row_for<F: Fn(&[u32]) -> Vec<u32>>(f: F, argument: Seq<u32>) -> Seq<u32> {
    choose|row: Seq<u32>| gives_row(f, argument, row)
}

/// `row` is one that `f` gives for rows of `width` that follow one another.
pub open spec fn gives_mean<F: Fn(&[u32], usize) -> Vec<u32>>(
    f: F,
    rows: Seq<u32>,
    width: usize,
    row: Seq<u32>,
) -> bool {
    exists|x: &[u32], r: Vec<u32>|
        x@ == rows && r@ == row && #[trigger] call_ensures(f, (x, width), r)
}

/// The row that `f` gives for rows of `width` that follow one another.
pub open spec fn mean_of<F: Fn(&[u32], usize) -> Vec<u32>>(f: F, rows: Seq<u32>, width: usize) -> Seq<
    u32,
> {
    choose|row: Seq<u32>| gives_mean(f, rows, width, row)
}

/// `f` takes any rows of `width` that follow one another and always gives the
/// same row of `width` for them.
pub open spec fn gives_means<F: Fn(&[u32], usize) -> Vec<u32>>(f: F, width: usize) -> bool {
    &&& forall|x: &[u32]| call_requires(f, (x, width))
    &&& forall|x: &[u32], row: Vec<u32>|
        #[trigger] call_ensures(f, (x, width), row) ==> row@ == mean_of(f, x@, width) && row@.len()
            == width
}

/// `number` is one that `f` answers for a row.
pub open spec fn answers_row<F: Fn(&[u32]) -> u64>(f: F, row: Seq<u32>, number: u64) -> bool {
    exists|x: &[u32]| x@ == row && #[trigger] call_ensures(f, (x,), number)
}

/// The number that `f` answers for a row.
pub open spec fn row_number<F: Fn(&[u32]) -> u64>(f: F, row: Seq<u32>) -> u64 {
    choose|number: u64| answers_row(f, row, number)
}

/// `f` takes any row of `width` and always answers the same for it.
pub open spec fn numbers_rows<F: Fn(&[u32]) -> u64>(f: F, width: int) -> bool {
    &&& forall|x: &[u32]| x@.len() == width ==> call_requires(f, (x,))
    &&& forall|x: &[u32], number: u64|
        x@.len() == width && #[trigger] call_ensures(f, (x,), number) ==> number == row_number(f, x@)
}

/// `value` is one that `f` answers for two codes and the scales.
pub open spec fn answers_codes<F: Fn(&[u8], &[u8], &[u32]) -> u32>(
    f: F,
    a: Seq<u8>,
    b: Seq<u8>,
    scales: Seq<u32>,
    value: u32,
) -> bool {
    exists|x: &[u8], y: &[u8], z: &[u32]|
        x@ == a && y@ == b && z@ == scales && #[trigger] call_ensures(f, (x, y, z), value)
}

/// What `f` answers for two codes and the scales.
pub open spec fn codes_value<F: Fn(&[u8], &[u8], &[u32]) -> u32>(
    f: F,
    a: Seq<u8>,
    b: Seq<u8>,
    scales: Seq<u32>,
) -> u32 {
    choose|value: u32| answers_codes(f, a, b, scales, value)
}

/// `f` takes any two codes and scales of `width` and always answers the same
/// for them.
pub open spec fn compares_codes<F: Fn(&[u8], &[u8], &[u32]) -> u32>(f: F, width: int) -> bool {
    &&& forall|x: &[u8], y: &[u8], z: &[u32]|
        x@.len() == width && y@.len() == width && z@.len() == width ==> call_requires(f, (x, y, z))
    &&& forall|x: &[u8], y: &[u8], z: &[u32], value: u32|
        x@.len() == width && y@.len() == width && z@.len() == width && #[trigger] call_ensures(
            f,
            (x, y, z),
            value,
        ) ==> value == codes_value(f, x@, y@, z@)
}

/// `value` is one that `f` answers for a vector, a code and its ranges.
pub open spec fn answers_estimate<F: Fn(&[u32], &[u8], &[u32], &[u32]) -> u32>(
    f: F,
    a: Seq<u32>,
    b: Seq<u8>,
    mins: Seq<u32>,
    scales: Seq<u32>,
    value: u32,
) -> bool {
    exists|x: &[u32], y: &[u8], z: &[u32], w: &[u32]|
        x@ == a && y@ == b && z@ == mins && w@ == scales && #[trigger] call_ensures(
            f,
            (x, y, z, w),
            value,
        )
}

/// What `f` answers for a vector, a code and its ranges.
pub open spec fn estimate_value<F: Fn(&[u32], &[u8], &[u32], &[u32]) -> u32>(
    f: F,
    a: Seq<u32>,
    b: Seq<u8>,
    mins: Seq<u32>,
    scales: Seq<u32>,
) -> u32 {
    choose|value: u32| answers_estimate(f, a, b, mins, scales, value)
}

/// `f` takes any vector, code and ranges of `width` and always answers the
/// same for them.
pub open spec fn estimates<F: Fn(&[u32], &[u8], &[u32], &[u32]) -> u32>(f: F, width: int) -> bool {
    &&& forall|x: &[u32], y: &[u8], z: &[u32], w: &[u32]|
        x@.len() == width && y@.len() == width && z@.len() == width && w@.len() == width
            ==> call_requires(f, (x, y, z, w))
    &&& forall|x: &[u32], y: &[u8], z: &[u32], w: &[u32], value: u32|
        x@.len() == width && y@.len() == width && z@.len() == width && w@.len() == width
            && #[trigger] call_ensures(f, (x, y, z, w), value) ==> value == estimate_value(
            f,
            x@,
            y@,
            z@,
            w@,
        )
}

/// `value` is one that `f` answers for two vectors and their norms.
pub open spec fn answers_angle<F: Fn(&[u32], &[u32], u64, u64) -> u32>(
    f: F,
    a: Seq<u32>,
    b: Seq<u32>,
    p: u64,
    q: u64,
    value: u32,
) -> bool {
    exists|x: &[u32], y: &[u32]|
        x@ == a && y@ == b && #[trigger] call_ensures(f, (x, y, p, q), value)
}

/// What `f` answers for two vectors and their norms.
pub open spec fn angle_value<F: Fn(&[u32], &[u32], u64, u64) -> u32>(
    f: F,
    a: Seq<u32>,
    b: Seq<u32>,
    p: u64,
    q: u64,
) -> u32 {
    choose|value: u32| answers_angle(f, a, b, p, q, value)
}

/// `f` takes any two vectors of `width` with any norms and always answers the
/// same for them.
pub open spec fn gives_angles<F: Fn(&[u32], &[u32], u64, u64) -> u32>(f: F, width: int) -> bool {
    &&& forall|x: &[u32], y: &[u32], p: u64, q: u64|
        x@.len() == width && y@.len() == width ==> call_requires(f, (x, y, p, q))
    &&& forall|x: &[u32], y: &[u32], p: u64, q: u64, value: u32|
        x@.len() == width && y@.len() == width && #[trigger] call_ensures(f, (x, y, p, q), value)
            ==> value == angle_value(f, x@, y@, p, q)
}

/// What `f` answers for one argument.
pub open spec fn of1<A, Z, F: Fn(A) -> Z>(f: F, a: A) -> Z {
    choose|z: Z| call_ensures(f, (a,), z)
}

/// `f` takes any argument and always answers the same for it.
pub open spec fn total1<A, Z, F: Fn(A) -> Z>(f: F) -> bool {
    &&& forall|a: A| call_requires(f, (a,))
    &&& forall|a: A, z: Z| #[trigger] call_ensures(f, (a,), z) ==> z == of1(f, a)
}

/// What `f` answers for two arguments.
pub open spec fn of2<A, B, Z, F: Fn(A, B) -> Z>(f: F, a: A, b: B) -> Z {
    choose|z: Z| call_ensures(f, (a, b), z)
}

/// `f` takes any two arguments and always answers the same for them.
pub open spec fn total2<A, B, Z, F: Fn(A, B) -> Z>(f: F) -> bool {
    &&& forall|a: A, b: B| call_requires(f, (a, b))
    &&& forall|a: A, b: B, z: Z| #[trigger] call_ensures(f, (a, b), z) ==> z == of2(f, a, b)
}

/// What `f` answers for three arguments.
pub open spec fn of3<A, B, C, Z, F: Fn(A, B, C) -> Z>(f: F, a: A, b: B, c: C) -> Z {
    choose|z: Z| call_ensures(f, (a, b, c), z)
}

/// `f` takes any three arguments and always answers the same for them.
pub open spec fn total3<A, B, C, Z, F: Fn(A, B, C) -> Z>(f: F) -> bool {
    &&& forall|a: A, b: B, c: C| call_requires(f, (a, b, c))
    &&& forall|a: A, b: B, c: C, z: Z| #[trigger]
        call_ensures(f, (a, b, c), z) ==> z == of3(f, a, b, c)
}

/// What `f` answers for four arguments.
pub open spec fn of4<A, B, C, D, Z, F: Fn(A, B, C, D) -> Z>(f: F, a: A, b: B, c: C, d: D) -> Z {
    choose|z: Z| call_ensures(f, (a, b, c, d), z)
}

/// `f` takes any four arguments and always answers the same for them.
pub open spec fn total4<A, B, C, D, Z, F: Fn(A, B, C, D) -> Z>(f: F) -> bool {
    &&& forall|a: A, b: B, c: C, d: D| call_requires(f, (a, b, c, d))
    &&& forall|a: A, b: B, c: C, d: D, z: Z| #[trigger]
        call_ensures(f, (a, b, c, d), z) ==> z == of4(f, a, b, c, d)
}

} // verus!
