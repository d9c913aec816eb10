//! Which range of a coordinate the codes span.

use vstd::prelude::*;
use crate::distance::pattern_of;
use crate::order::{arranged, arranged_is_sorted, sorted};
use crate::point::PointStore;
use crate::quantize::{coordinate_range, greatest, least, sample_keys};
use crate::single::{is_nan, less, order_of, value};

verus! {

proof fn extremes_bound(store: &PointStore, d: int, upto: int)
    requires
        0 <= upto,
        forall|p: int| 0 <= p < upto ==> !is_nan(#[trigger] store.row(p)[d]),
    ensures
        ({
            let low = least(store, d, upto);
            let high = greatest(store, d, upto);
            &&& !is_nan(low) && !is_nan(high)
            &&& forall|p: int|
                0 <= p < upto ==> value(low) <= value(#[trigger] store.row(p)[d]) <= value(high)
                    || value(store.row(p)[d]) > value(0x7f7f_ffff) || value(store.row(p)[d]) < value(
                    0xff7f_ffff,
                )
            &&& low == 0x7f7f_ffff || exists|p: int|
                0 <= p < upto && #[trigger] store.row(p)[d] == low
            &&& high == 0xff7f_ffff || exists|p: int|
                0 <= p < upto && #[trigger] store.row(p)[d] == high
            &&& value(low) <= value(0x7f7f_ffff)
            &&& value(0xff7f_ffff) <= value(high)
        }),
    decreases upto,
{
    assert(!is_nan(0x7f7f_ffff) && !is_nan(0xff7f_ffff)) by {
        assert(crate::single::exponent(0x7f7f_ffff) == 254);
        assert(crate::single::exponent(0xff7f_ffff) == 254);
    }
    if upto > 0 {
        extremes_bound(store, d, upto - 1);
        let x = store.row(upto - 1)[d];
        assert(!is_nan(x));
        let low = least(store, d, upto);
        let high = greatest(store, d, upto);
        assert(low == 0x7f7f_ffff || exists|p: int| 0 <= p < upto && #[trigger] store.row(p)[d] == low)
            by {
            if less(x, least(store, d, upto - 1)) {
                assert(store.row(upto - 1)[d] == low);
            }
        }
        assert(high == 0xff7f_ffff || exists|p: int|
            0 <= p < upto && #[trigger] store.row(p)[d] == high) by {
            if less(greatest(store, d, upto - 1), x) {
                assert(store.row(upto - 1)[d] == high);
            }
        }
    }
}

/// The range of a coordinate: in a store of fewer than two hundred points from
/// the least to the greatest one; in a larger one from one in two hundred to all
/// but one in two hundred of a sample that is spread over the points, by size.
pub proof fn ranges_span_the_coordinates(store: &PointStore, d: int) -> (sample: Seq<u32>)
    requires
        store.len > 0,
        forall|p: int| 0 <= p < store.len ==> !is_nan(#[trigger] store.row(p)[d]),
        forall|p: int|
            0 <= p < store.len ==> value(0xff7f_ffff) <= value(#[trigger] store.row(p)[d]) <= value(
                0x7f7f_ffff,
            ),
    ensures
        ({
            let (low, high) = coordinate_range(store, d);
            let n = store.len as int;
            let count = if n < 10_000 {
                n
            } else {
                10_000
            };
            if n < 200 {
                &&& forall|p: int|
                    0 <= p < n ==> value(low) <= value(#[trigger] store.row(p)[d]) <= value(high)
                &&& exists|p: int| 0 <= p < n && value(#[trigger] store.row(p)[d]) == value(low)
                &&& exists|p: int| 0 <= p < n && value(#[trigger] store.row(p)[d]) == value(high)
            } else {
                &&& sorted(sample)
                &&& sample.to_multiset() == Seq::new(
                    count as nat,
                    |s: int| order_of(store.row(s * n / count)[d]),
                ).to_multiset()
                &&& sample.len() == count
                &&& low == pattern_of(sample[count / 200])
                &&& high == pattern_of(sample[count - 1 - count / 200])
            }
        }),
{
    let n = store.len as int;
    let count = if n < 10_000 {
        n
    } else {
        10_000
    };
    let keys = sample_keys(store, d, count);
    let sample = arranged(keys);
    arranged_is_sorted(keys);
    if n < 200 {
        extremes_bound(store, d, n);
        let (low, high) = coordinate_range(store, d);
        if low == 0x7f7f_ffff {
            assert(value(store.row(0)[d]) == value(low));
        }
        if high == 0xff7f_ffff {
            assert(value(store.row(0)[d]) == value(high));
        }
    } else {
        assert(keys =~= Seq::new(count as nat, |s: int| order_of(store.row(s * n / count)[d])));
    }
    sample
}

} // verus!
