//! What sketches tell apart.

use vstd::prelude::*;
use vstd::arithmetic::power2::{is_pow2, lemma2_to64, lemma2_to64_rest, lemma_pow2_strictly_increases, lemma_pow2_unfold, pow2};
use crate::binary::{hadamard, number_of, packed, word_bits, words_for};
use crate::descent::query_sketch;
use crate::distance::{code_distance, differing_bits, ones, Metric};
use crate::index::{sketches_fit, PrismIndex};
use crate::ivf::IvfIndex;
use crate::vecstore::{row_of, QueryStore};

verus! {

/// The positions at which two sketches differ.
pub open spec fn differing(a: Seq<bool>, b: Seq<bool>) -> Set<int> {
    Set::new(|d: int| 0 <= d < a.len() && a[d] != b[d])
}

/// How many of the first `upto` positions differ.
spec fn mismatches(a: Seq<bool>, b: Seq<bool>, upto: int) -> nat
    decreases upto,
{
    if upto <= 0 {
        0
    } else {
        mismatches(a, b, upto - 1) + (if a[upto - 1] != b[upto - 1] {
            1nat
        } else {
            0nat
        })
    }
}

proof fn mismatches_are_counted(a: Seq<bool>, b: Seq<bool>, upto: int)
    requires
        0 <= upto <= a.len(),
        a.len() == b.len(),
    ensures
        differing(a.take(upto), b.take(upto)).finite(),
        mismatches(a, b, upto) == differing(a.take(upto), b.take(upto)).len(),
    decreases upto,
{
    let all = differing(a.take(upto), b.take(upto));
    if upto == 0 {
        assert(all =~= Set::empty());
    } else {
        mismatches_are_counted(a, b, upto - 1);
        let few = differing(a.take(upto - 1), b.take(upto - 1));
        if a[upto - 1] != b[upto - 1] {
            assert(all =~= few.insert(upto - 1));
        } else {
            assert(all =~= few);
        }
    }
}

proof fn numbers_are_bounded(bits: Seq<bool>)
    ensures
        0 <= number_of(bits) < pow2(bits.len()),
    decreases bits.len(),
{
    lemma2_to64();
    if bits.len() > 0 {
        numbers_are_bounded(bits.skip(1));
        lemma_pow2_unfold(bits.len());
    }
}

proof fn halves_of_difference(a: u64, b: u64, x: u64, y: u64, s: u64, t: u64)
    requires
        x < 0x8000_0000_0000_0000,
        y < 0x8000_0000_0000_0000,
        s <= 1,
        t <= 1,
        a == 2 * x + s,
        b == 2 * y + t,
    ensures
        (a ^ b) % 2 == (if s == t {
            0u64
        } else {
            1u64
        }),
        (a ^ b) / 2 == x ^ y,
{
    assert((a ^ b) % 2 == (if s == t {
        0u64
    } else {
        1u64
    }) && (a ^ b) / 2 == x ^ y) by (bit_vector)
        requires
            x < 0x8000_0000_0000_0000,
            y < 0x8000_0000_0000_0000,
            s <= 1,
            t <= 1,
            a == 2 * x + s,
            b == 2 * y + t,
    ;
}

/// A word of two sketches differs in as many bits as the sketches there.
proof fn words_differ(a: Seq<bool>, b: Seq<bool>)
    requires
        a.len() == b.len() <= 64,
    ensures
        ones((number_of(a) as u64) ^ (number_of(b) as u64)) == mismatches(a, b, a.len() as int),
    decreases a.len(),
{
    if a.len() == 0 {
        assert(0u64 ^ 0u64 == 0) by (bit_vector);
    } else {
        let x = a.skip(1);
        let y = b.skip(1);
        words_differ(x, y);
        numbers_are_bounded(x);
        numbers_are_bounded(y);
        lemma2_to64();
        lemma2_to64_rest();
        if x.len() < 63 {
            lemma_pow2_strictly_increases(x.len(), 63);
        }
        let s: u64 = if a[0] {
            1
        } else {
            0
        };
        let t: u64 = if b[0] {
            1
        } else {
            0
        };
        assert(pow2(63) == 0x8000_0000_0000_0000) by {
            lemma_pow2_unfold(64);
        }
        halves_of_difference(
            number_of(a) as u64,
            number_of(b) as u64,
            number_of(x) as u64,
            number_of(y) as u64,
            s,
            t,
        );
        first_mismatch(a, b, a.len() as int);
    }
}

proof fn first_mismatch(a: Seq<bool>, b: Seq<bool>, upto: int)
    requires
        0 < upto <= a.len(),
        a.len() == b.len(),
    ensures
        mismatches(a, b, upto) == mismatches(a.skip(1), b.skip(1), upto - 1) + (if a[0] != b[0] {
            1nat
        } else {
            0nat
        }),
    decreases upto,
{
    reveal_with_fuel(mismatches, 2);
    if upto > 1 {
        first_mismatch(a, b, upto - 1);
    }
}

proof fn parts_add_up(a: Seq<bool>, b: Seq<bool>, at: int, end: int)
    requires
        0 <= at <= end <= a.len(),
        a.len() == b.len(),
    ensures
        mismatches(a, b, end) == mismatches(a, b, at) + mismatches(
            a.subrange(at, end),
            b.subrange(at, end),
            end - at,
        ),
    decreases end - at,
{
    if at < end {
        parts_add_up(a, b, at, end - 1);
        let x = a.subrange(at, end);
        let y = b.subrange(at, end);
        let few = end - 1 - at;
        same_start(a.subrange(at, end - 1), b.subrange(at, end - 1), x, y, few);
        assert(x[few] == a[end - 1] && y[few] == b[end - 1]);
    }
}

proof fn same_start(
    a: Seq<bool>,
    b: Seq<bool>,
    x: Seq<bool>,
    y: Seq<bool>,
    upto: int,
)
    requires
        0 <= upto <= a.len(),
        a.len() == b.len(),
        upto <= x.len(),
        x.len() == y.len(),
        forall|i: int| 0 <= i < upto ==> a[i] == x[i] && b[i] == y[i],
    ensures
        mismatches(a, b, upto) == mismatches(x, y, upto),
    decreases upto,
{
    if upto > 0 {
        same_start(a, b, x, y, upto - 1);
        assert(a[upto - 1] == x[upto - 1] && b[upto - 1] == y[upto - 1]);
    }
}

proof fn codes_differ(a: Seq<bool>, b: Seq<bool>, words: int)
    requires
        a.len() == b.len(),
        0 <= words <= words_for(a.len() as int),
    ensures
        ({
            let end = if words * 64 < a.len() {
                words * 64
            } else {
                a.len() as int
            };
            differing_bits(packed(a).take(words), packed(b).take(words)) == mismatches(a, b, end)
        }),
    decreases words,
{
    let x = packed(a).take(words);
    let y = packed(b).take(words);
    if words > 0 {
        codes_differ(a, b, words - 1);
        assert(x.drop_last() =~= packed(a).take(words - 1));
        assert(y.drop_last() =~= packed(b).take(words - 1));
        let at = (words - 1) * 64;
        let end = if words * 64 < a.len() {
            words * 64
        } else {
            a.len() as int
        };
        assert(at < a.len());
        parts_add_up(a, b, at, end);
        assert(word_bits(a, words - 1) == a.subrange(at, end));
        assert(word_bits(b, words - 1) == b.subrange(at, end));
        words_differ(a.subrange(at, end), b.subrange(at, end));
    }
}

/// The distance of two sketches is the number of positions at which they
/// differ.
pub proof fn sketches_count_differences(a: Seq<bool>, b: Seq<bool>)
    requires
        a.len() == b.len() <= u32::MAX,
    ensures
        differing(a, b).finite(),
        code_distance(packed(a), packed(b)) == differing(a, b).len(),
{
    let n = a.len() as int;
    let words = words_for(n);
    codes_differ(a, b, words);
    assert(packed(a).take(words) =~= packed(a));
    assert(packed(b).take(words) =~= packed(b));
    mismatches_are_counted(a, b, n);
    assert(a.take(n) =~= a);
    assert(b.take(n) =~= b);
    mismatches_are_few(a, b, n);
}

proof fn mismatches_are_few(a: Seq<bool>, b: Seq<bool>, upto: int)
    requires
        0 <= upto,
    ensures
        mismatches(a, b, upto) <= upto,
    decreases upto,
{
    if upto > 0 {
        mismatches_are_few(a, b, upto - 1);
    }
}

proof fn sums_transform(a: Seq<int>, b: Seq<int>, sign: int)
    requires
        a.len() == b.len(),
        is_pow2(a.len() as int),
        sign == 1 || sign == -1,
    ensures
        hadamard(Seq::new(a.len(), |i: int| a[i] + sign * b[i])).len() == a.len(),
        hadamard(a).len() == a.len(),
        hadamard(b).len() == a.len(),
        forall|i: int|
            0 <= i < a.len() ==> hadamard(Seq::new(a.len(), |i: int| a[i] + sign * b[i]))[i]
                == #[trigger] hadamard(a)[i] + sign * hadamard(b)[i],
    decreases a.len(),
{
    let sum = Seq::new(a.len(), |i: int| a[i] + sign * b[i]);
    reveal(is_pow2);
    if a.len() > 1 {
        let n = a.len() as int;
        let half = n / 2;
        assert(n == 2 * half && is_pow2(half));
        sums_transform(a.take(half), b.take(half), sign);
        sums_transform(a.subrange(half, n), b.subrange(half, n), sign);
        assert(sum.take(half) =~= Seq::new(
            half as nat,
            |i: int| a.take(half)[i] + sign * b.take(half)[i],
        ));
        assert(sum.subrange(half, n) =~= Seq::new(
            half as nat,
            |i: int| a.subrange(half, n)[i] + sign * b.subrange(half, n)[i],
        ));
        let (la, lb) = (hadamard(a.take(half)), hadamard(b.take(half)));
        let (ha, hb) = (hadamard(a.subrange(half, n)), hadamard(b.subrange(half, n)));
        let ls = hadamard(sum.take(half));
        let hs = hadamard(sum.subrange(half, n));
        assert forall|i: int| 0 <= i < n implies hadamard(sum)[i] == #[trigger] hadamard(a)[i]
            + sign * hadamard(b)[i] by {
            let k = if i < half {
                i
            } else {
                i - half
            };
            assert(ls[k] == la[k] + sign * lb[k]);
            assert(hs[k] == ha[k] + sign * hb[k]);
            assert(sign * (lb[k] + hb[k]) == sign * lb[k] + sign * hb[k]
                && sign * (lb[k] - hb[k]) == sign * lb[k] - sign * hb[k]) by (nonlinear_arith);
        }
    }
}

/// The transform is its own inverse, up to the length: nothing is lost.
pub proof fn transform_undoes_itself(data: Seq<int>)
    requires
        is_pow2(data.len() as int),
    ensures
        hadamard(data).len() == data.len(),
        hadamard(hadamard(data)).len() == data.len(),
        forall|i: int|
            0 <= i < data.len() ==> #[trigger] hadamard(hadamard(data))[i] == data.len() * data[i],
    decreases data.len(),
{
    reveal(is_pow2);
    if data.len() > 1 {
        let n = data.len() as int;
        let half = n / 2;
        assert(n == 2 * half && is_pow2(half));
        let x = data.take(half);
        let y = data.subrange(half, n);
        transform_undoes_itself(x);
        transform_undoes_itself(y);
        let low = hadamard(x);
        let high = hadamard(y);
        let once = hadamard(data);
        sums_transform(low, high, 1);
        sums_transform(low, high, -1);
        assert(once.take(half) =~= Seq::new(half as nat, |i: int| low[i] + 1 * high[i]));
        assert(once.subrange(half, n) =~= Seq::new(half as nat, |i: int| low[i] + (-1) * high[i]));
        let twice = hadamard(once);
        assert forall|i: int| 0 <= i < n implies #[trigger] twice[i] == n * data[i] by {
            let k = if i < half {
                i
            } else {
                i - half
            };
            let p = hadamard(once.take(half));
            let q = hadamard(once.subrange(half, n));
            assert(p[k] == hadamard(low)[k] + 1 * hadamard(high)[k]);
            assert(q[k] == hadamard(low)[k] + (-1) * hadamard(high)[k]);
            assert(hadamard(low)[k] == half * x[k]);
            assert(hadamard(high)[k] == half * y[k]);
            assert(2 * (half * data[i]) == n * data[i]) by (nonlinear_arith)
                requires
                    n == 2 * half,
            ;
        }
    } else {
        assert(data.len() == 1);
        assert(1 * data[0] == data[0]);
    }
}

proof fn equal_codes_are_no_way_apart(code: Seq<u64>)
    ensures
        differing_bits(code, code) == 0,
    decreases code.len(),
{
    if code.len() > 0 {
        equal_codes_are_no_way_apart(code.drop_last());
        let word = code.last();
        assert(word ^ word == 0) by (bit_vector);
    }
}

/// A query that equals an indexed point has the sketch of that point.
pub proof fn indexed_points_have_their_own_sketch<
    F: Fn(&[u32], &[u32], usize) -> Vec<bool>,
>(index: &PrismIndex, rotate: F, p: int)
    requires
        sketches_fit(&index.binary, &index.store, &index.config, rotate),
        index.config.binary_rerank > 0,
        index.config.metric != Metric::InnerProduct,
        0 <= p < index.store.len,
    ensures
        query_sketch(index, rotate, index.store.row(p)) == index.binary.code_of(p),
        code_distance(
            query_sketch(index, rotate, index.store.row(p)),
            index.binary.code_of(p),
        ) == 0,
{
    equal_codes_are_no_way_apart(index.binary.code_of(p));
}

/// A query that equals a clustered point has the sketch of that point.
pub proof fn clustered_points_have_their_own_sketch<
    F: Fn(&[u32], &[u32], usize) -> Vec<bool>,
>(
    index: &IvfIndex,
    rotate: F,
    queries: &QueryStore,
    q: usize,
    binary_rerank: usize,
    g: int,
)
    requires
        index.sketched(rotate),
        binary_rerank > 0,
        0 <= g < index.original_ids@.len(),
        queries is U8 <==> index.vectors is U8,
        queries is U8 ==> row_of(queries.bytes(), q as int, index.dim as int) == row_of(
            index.vectors.bytes(),
            g,
            index.dim as int,
        ),
        queries is F32 ==> row_of(queries.patterns(), q as int, index.dim as int) == row_of(
            index.vectors.patterns(),
            g,
            index.dim as int,
        ),
    ensures
        index.sketch_of(queries, rotate, q, binary_rerank) == index.binary.code_of(g),
        code_distance(
            index.sketch_of(queries, rotate, q, binary_rerank),
            index.binary.code_of(g),
        ) == 0,
{
    equal_codes_are_no_way_apart(index.binary.code_of(g));
    assert(index.binary.code_of(g) == index.binary.code_of(g));
}

} // verus!
