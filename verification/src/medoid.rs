//! The point that is closest to the mean of a range of points.

use vstd::prelude::*;
use vstd::slice::slice_subrange;
use crate::distance::{ord_key, Metric};
use crate::kmeans::{closest, closest_is_first};
use crate::point::PointStore;
use crate::pure::{gives_means, mean_of, Measure};
use crate::single::order_of;

verus! {

/// Mean of the `n` points from `first` on.
pub open spec fn mean_row<C: Fn(&[u32], usize) -> Vec<u32>>(
    store: &PointStore,
    first: int,
    n: int,
    centroid: C,
) -> Seq<u32> {
    mean_of(
        centroid,
        store.vectors@.subrange(first * store.dim, (first + n) * store.dim),
        store.dim,
    )
}

/// Position of the first of the `n` points from `first` on that is closest to
/// their mean.
pub open spec fn medoid_of<D: Fn(Metric, &[u32], &[u32]) -> u32, C: Fn(&[u32], usize) -> Vec<u32>>(
    store: &PointStore,
    first: int,
    n: int,
    measure: Measure<D>,
    centroid: C,
) -> int {
    let mean = mean_row(store, first, n, centroid);
    closest(
        |a: int| order_of(measure.gives(mean, store.row(first + a))) as int,
        0x1_0000_0000,
        n,
    ).0
}

/// Position of the point closest to the mean of `n` points from `first` on.
/// `centroid` gives the mean of vectors that follow each other.
pub fn find_medoid<D: Fn(Metric, &[u32], &[u32]) -> u32, C: Fn(&[u32], usize) -> Vec<u32>>(
    store: &PointStore,
    first: u32,
    n: usize,
    measure: &Measure<D>,
    centroid: &C,
) -> (at: u32)
    requires
        store.wf(),
        n > 0,
        first + n <= store.len,
        measure.fits(store.dim as int),
        gives_means(*centroid, store.dim),
    ensures
        at == medoid_of(store, first as int, n as int, *measure, *centroid),
        at < n,
{
    let dim: usize = store.dim;
    let vectors = store.vectors();
    assert(vectors@.len() == vectors.len());
    proof {
        range_bounds(first as int, n as int, store.len as int, dim as int);
    }
    let start: usize = first as usize * dim;
    let end: usize = (first as usize + n) * dim;
    let mean = centroid(slice_subrange(vectors, start, end), store.dim());
    let ghost key = |a: int| order_of(measure.gives(mean@, store.row(first + a))) as int;
    let mut best: u32 = 0;
    let mut least: u64 = 0x1_0000_0000;
    let mut a: usize = 0;
    while a < n
        invariant
            a <= n,
            n > 0,
            store.wf(),
            first + n <= store.len,
            mean@.len() == store.dim,
            measure.fits(store.dim as int),
            key == (|a: int| order_of(measure.gives(mean@, store.row(first + a))) as int),
            (best as int, least as int) == closest(key, 0x1_0000_0000, a as int),
        decreases n - a,
    {
        let bits: u32 = measure.between(mean.as_slice(), store.vector_unchecked(first + a as u32));
        let distance: u64 = ord_key(bits) as u64;
        assert(distance == key(a as int));
        if distance < least {
            best = a as u32;
            least = distance;
        }
        a = a + 1;
    }
    proof {
        closest_is_first(key, 0x1_0000_0000, n as int);
    }
    best
}

/// The rows of a range lie within the coordinates.
pub proof fn range_bounds(first: int, n: int, len: int, dim: int)
    requires
        0 <= first,
        0 <= n,
        first + n <= len,
        0 < dim,
    ensures
        0 <= first * dim <= (first + n) * dim <= len * dim,
{
    assert(0 <= first * dim && first * dim <= (first + n) * dim && (first + n) * dim <= len * dim)
        by (nonlinear_arith)
        requires
            0 <= first,
            0 <= n,
            first + n <= len,
            0 < dim,
    ;
}

} // verus!
