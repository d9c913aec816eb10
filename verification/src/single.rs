//! Single-precision numbers as bit patterns.
//!
//! Coordinates, thresholds and distances are IEEE 754 single-precision
//! numbers.  The library stores, compares and validates them as their 32-bit
//! patterns; arithmetic on them is left to the numeric kernels that callers
//! supply.  A pattern stands for an integer multiple of the smallest positive
//! subnormal number, so that its value is an exact mathematical integer.

use vstd::prelude::*;
use vstd::arithmetic::power2::*;
use vstd::arithmetic::mul::*;

verus! {

/// Pattern of the number one.
pub const ONE: u32 = 0x3f80_0000;

/// Pattern of positive infinity.
pub const INFINITY: u32 = 0x7f80_0000;

/// The sign bit alone: the pattern of negative zero.
pub const SIGN: u32 = 0x8000_0000;

/// The exponent field of a bit pattern.
pub open spec fn exponent(bits: u32) -> nat {
    ((bits / 0x80_0000) % 256) as nat
}

/// The fraction field of a bit pattern.
pub open spec fn fraction(bits: u32) -> nat {
    (bits % 0x80_0000) as nat
}

/// Whether the sign bit is set.
pub open spec fn is_negative(bits: u32) -> bool {
    bits >= SIGN
}

/// Whether the pattern is of a finite number.
pub open spec fn is_finite(bits: u32) -> bool {
    exponent(bits) != 255
}

/// Whether the pattern is of no number.
pub open spec fn is_nan(bits: u32) -> bool {
    exponent(bits) == 255 && fraction(bits) != 0
}

/// Absolute value, in units of the smallest positive subnormal number.
/// Infinity counts as the power of two that follows the largest finite number.
pub open spec fn magnitude(bits: u32) -> int {
    if exponent(bits) == 0 {
        fraction(bits) as int
    } else {
        (fraction(bits) + 0x80_0000) as int * pow2((exponent(bits) - 1) as nat)
    }
}

/// Value, in units of the smallest positive subnormal number.
pub open spec fn value(bits: u32) -> int {
    if is_negative(bits) {
        -magnitude(bits)
    } else {
        magnitude(bits)
    }
}

/// `a < b` as numbers; false when either is not a number.
pub open spec fn less(a: u32, b: u32) -> bool {
    !is_nan(a) && !is_nan(b) && value(a) < value(b)
}

/// The pattern without its sign.
pub open spec fn unsigned(bits: u32) -> u32 {
    if bits >= SIGN {
        (bits - SIGN) as u32
    } else {
        bits
    }
}

/// A coordinate is small enough for distances in `dim` dimensions: it is
/// finite and `8 * dim * x * x` does not exceed the largest finite number.
///
/// In units of the smallest subnormal number, which is `2^-149`, the largest
/// finite number `(2^24 - 1) * 2^104` gives the bound below.
pub open spec fn in_domain(bits: u32, dim: int) -> bool {
    is_finite(bits) && 8 * dim * (magnitude(bits) * magnitude(bits)) <= 0xff_ffff * pow2(402)
}

/// Among patterns without a sign, a larger pattern is a larger magnitude.
pub proof fn magnitude_grows(a: u32, b: u32)
    requires
        a < b < SIGN,
    ensures
        magnitude(a) < magnitude(b),
{
    let ea = exponent(a);
    let eb = exponent(b);
    let fa = fraction(a);
    let fb = fraction(b);
    assert(a == ea * 0x80_0000 + fa);
    assert(b == eb * 0x80_0000 + fb);
    assert(ea <= eb);
    if ea == eb {
        if ea > 0 {
            lemma_pow2_pos((ea - 1) as nat);
            let p = pow2((ea - 1) as nat) as int;
            assert((fa + 0x80_0000) * p < (fb + 0x80_0000) * p) by (nonlinear_arith)
                requires
                    fa < fb,
                    p > 0,
            ;
        }
    } else {
        lemma_pow2_pos((eb - 1) as nat);
        let q = pow2((eb - 1) as nat) as int;
        assert((fb + 0x80_0000) * q >= 0x80_0000 * q) by (nonlinear_arith)
            requires
                fb >= 0,
                q > 0,
        ;
        if ea == 0 {
            assert(0x80_0000 * q >= 0x80_0000);
        } else {
            let p = pow2((ea - 1) as nat) as int;
            lemma_pow2_pos((ea - 1) as nat);
            lemma_pow2_unfold(ea as nat);
            assert(pow2(ea) == 2 * p);
            if ea < eb - 1 {
                lemma_pow2_strictly_increases(ea, (eb - 1) as nat);
            }
            assert(2 * p <= q);
            assert((fa + 0x80_0000) * p < 0x100_0000 * p) by (nonlinear_arith)
                requires
                    fa < 0x80_0000,
                    p > 0,
            ;
        }
    }
}

/// A magnitude is at least zero.
pub proof fn magnitude_is_not_negative(bits: u32)
    ensures
        magnitude(bits) >= 0,
        magnitude(bits) == 0 <==> unsigned(bits) == 0,
        magnitude(unsigned(bits)) == magnitude(bits),
{
    if bits >= SIGN {
        let u = unsigned(bits);
        assert((u as int + 0x8000_0000) / 0x80_0000 == u as int / 0x80_0000 + 256);
        assert(exponent(bits) == exponent(u));
        assert(fraction(bits) == fraction(u));
    }
    if unsigned(bits) > 0 {
        magnitude_grows(0, unsigned(bits));
        assert(magnitude(0) == 0);
    }
}

/// Position of a pattern in the total order of numbers, negative numbers first.
/// Negative zero comes just before positive zero.
pub open spec fn order_of(bits: u32) -> u32 {
    if is_negative(bits) {
        (u32::MAX - bits) as u32
    } else {
        (bits + SIGN) as u32
    }
}

/// The total order agrees with the order of values and puts negative zero
/// before positive zero.
pub proof fn order_is_numeric(a: u32, b: u32)
    ensures
        order_of(a) < order_of(b) <==> value(a) < value(b) || (value(a) == value(b)
            && is_negative(a) && !is_negative(b)),
        order_of(a) == order_of(b) <==> a == b,
{
    magnitude_is_not_negative(a);
    magnitude_is_not_negative(b);
    let ua = unsigned(a);
    let ub = unsigned(b);
    if ua < ub {
        magnitude_grows(ua, ub);
    }
    if ub < ua {
        magnitude_grows(ub, ua);
    }
}

/// Whether the pattern is a finite number.
pub fn finite(bits: u32) -> (answer: bool)
    ensures
        answer == is_finite(bits),
{
    (bits / 0x80_0000) % 256 != 255
}

/// Whether the pattern is of zero, with either sign.
pub fn zero(bits: u32) -> (answer: bool)
    ensures
        answer == (value(bits) == 0),
{
    proof {
        magnitude_is_not_negative(bits);
    }
    bits == 0 || bits == SIGN
}

/// `a < b` as numbers.
pub fn less_than(a: u32, b: u32) -> (answer: bool)
    ensures
        answer == less(a, b),
{
    let not_a_number: bool = ((a / 0x80_0000) % 256 == 255 && a % 0x80_0000 != 0) || ((b
        / 0x80_0000) % 256 == 255 && b % 0x80_0000 != 0);
    if not_a_number {
        return false;
    }
    let a_plain: u32 = if a == SIGN { 0 } else { a };
    let b_plain: u32 = if b == SIGN { 0 } else { b };
    let a_place: u32 = if a_plain >= SIGN { u32::MAX - a_plain } else { a_plain + SIGN };
    let b_place: u32 = if b_plain >= SIGN { u32::MAX - b_plain } else { b_plain + SIGN };
    proof {
        order_is_numeric(a_plain, b_plain);
        magnitude_is_not_negative(a);
        magnitude_is_not_negative(b);
        magnitude_is_not_negative(a_plain);
        magnitude_is_not_negative(b_plain);
        assert(value(a_plain) == value(a));
        assert(value(b_plain) == value(b));
    }
    a_place < b_place
}

/// Whether a nonnegative pattern is in the domain of distances.
fn within(bits: u32, dim: usize) -> (answer: bool)
    requires
        bits < SIGN,
        dim > 0,
    ensures
        answer == in_domain(bits, dim as int),
{
    let e: u32 = bits / 0x80_0000;
    let f: u32 = bits % 0x80_0000;
    assert(e == exponent(bits));
    assert(f == fraction(bits));
    if e == 255 {
        return false;
    }
    if e == 0 {
        proof {
            small_magnitudes_fit(f as int, dim as int);
        }
        return true;
    }
    let m: u64 = f as u64 + 0x80_0000;
    if e >= 202 {
        proof {
            large_magnitudes_do_not_fit(m as int, e as int, dim as int);
        }
        return false;
    }
    assert(m * m < 0x1_0000_0000_0000) by (nonlinear_arith)
        requires
            0 <= m < 0x100_0000,
    ;
    let square: u64 = m * m;
    let scaled: u128 = dim as u128 * 8;
    assert(scaled * square < 0x8_0000_0000_0000_0000 * 0x1_0000_0000_0000) by (nonlinear_arith)
        requires
            0 <= scaled < 0x8_0000_0000_0000_0000,
            0 <= square < 0x1_0000_0000_0000,
    ;
    let left: u128 = scaled * square as u128;
    let shift: u32 = 404 - 2 * e;
    let mut right: u128 = 0xff_ffff;
    let mut i: u32 = 0;
    proof {
        lemma2_to64();
        scaled_comparison(m as int, e as int, dim as int);
        lemma_pow2_strictly_increases(0, 92);
    }
    while i < shift && i < 92
        invariant
            i <= shift,
            i <= 92,
            right == 0xff_ffff * pow2(i as nat),
            i <= 92 ==> pow2(i as nat) <= pow2(92),
            pow2(92) == 0x1000_0000_0000_0000_0000_0000,
        decreases shift - i,
    {
        proof {
            lemma_pow2_unfold((i + 1) as nat);
            if i + 1 < 92 {
                lemma_pow2_strictly_increases((i + 1) as nat, 92);
            }
        }
        right = right * 2;
        i = i + 1;
    }
    proof {
        assert(left == 8 * dim * (m * m)) by (nonlinear_arith)
            requires
                left == scaled * square,
                scaled == dim * 8,
                square == m * m,
        ;
        if i < shift {
            lemma_pow2_strictly_increases(92, shift as nat);
            assert(0xff_ffff * pow2(92) <= 0xff_ffff * pow2(shift as nat));
        }
    }
    left <= right
}

proof fn small_magnitudes_fit(f: int, dim: int)
    requires
        0 <= f < 0x80_0000,
        0 < dim <= u64::MAX,
    ensures
        8 * dim * (f * f) <= 0xff_ffff * pow2(402),
{
    lemma2_to64();
    lemma2_to64_rest();
    assert(f * f < 0x4000_0000_0000) by (nonlinear_arith)
        requires
            0 <= f < 0x80_0000,
    ;
    assert(8 * dim * (f * f) <= 0x8_0000_0000_0000_0000 * 0x4000_0000_0000) by (nonlinear_arith)
        requires
            0 <= f * f < 0x4000_0000_0000,
            0 < dim < 0x1_0000_0000_0000_0000,
    ;
    lemma_pow2_adds(64, 64);
    lemma_pow2_strictly_increases(128, 402);
}

proof fn large_magnitudes_do_not_fit(m: int, e: int, dim: int)
    requires
        0x80_0000 <= m < 0x100_0000,
        202 <= e < 255,
        0 < dim,
    ensures
        8 * dim * ((m * pow2((e - 1) as nat)) * (m * pow2((e - 1) as nat))) > 0xff_ffff * pow2(402),
{
    let p = pow2((e - 1) as nat) as int;
    lemma_pow2_pos((e - 1) as nat);
    if e > 202 {
        lemma_pow2_strictly_increases(201, (e - 1) as nat);
    }
    lemma_pow2_adds(201, 201);
    lemma_pow2_pos(201);
    let q = pow2(201) as int;
    assert(p * p >= q * q) by (nonlinear_arith)
        requires
            p >= q > 0,
    ;
    assert((m * p) * (m * p) == (m * m) * (p * p)) by (nonlinear_arith);
    assert(m * m >= 0x4000_0000_0000) by (nonlinear_arith)
        requires
            m >= 0x80_0000,
    ;
    assert(q * q > 0) by (nonlinear_arith)
        requires
            q > 0,
    ;
    assert((m * m) * (p * p) >= 0x4000_0000_0000 * (q * q)) by (nonlinear_arith)
        requires
            m * m >= 0x4000_0000_0000,
            p * p >= q * q,
            q * q > 0,
    ;
    let s = (m * m) * (p * p);
    assert(8 * dim * s >= s) by (nonlinear_arith)
        requires
            dim >= 1,
            s >= 0,
    ;
}

proof fn scaled_comparison(m: int, e: int, dim: int)
    requires
        0x80_0000 <= m < 0x100_0000,
        0 < e < 202,
    ensures
        8 * dim * ((m * pow2((e - 1) as nat)) * (m * pow2((e - 1) as nat))) <= 0xff_ffff * pow2(402)
            <==> 8 * dim * (m * m) <= 0xff_ffff * pow2((404 - 2 * e) as nat),
        pow2(92) == 0x1000_0000_0000_0000_0000_0000,
{
    lemma2_to64();
    lemma2_to64_rest();
    lemma_pow2_adds(64, 28);
    let p = pow2((e - 1) as nat) as int;
    lemma_pow2_pos((e - 1) as nat);
    lemma_pow2_adds((e - 1) as nat, (e - 1) as nat);
    lemma_pow2_adds((2 * e - 2) as nat, (404 - 2 * e) as nat);
    let r = pow2((404 - 2 * e) as nat) as int;
    assert(pow2(402) == (p * p) * r);
    assert(p * p > 0) by (nonlinear_arith)
        requires
            p > 0,
    ;
    let x = 8 * dim * (m * m);
    let y = 0xff_ffff * r;
    let w = p * p;
    assert(8 * dim * ((m * p) * (m * p)) == x * w) by (nonlinear_arith)
        requires
            x == 8 * dim * (m * m),
            w == p * p,
    ;
    assert(0xff_ffff * (w * r) == y * w) by (nonlinear_arith)
        requires
            y == 0xff_ffff * r,
    ;
    assert(x * w <= y * w <==> x <= y) by (nonlinear_arith)
        requires
            w > 0,
    ;
}

/// Pattern of the largest coordinate in the domain of distances for `dim`
/// dimensions.
pub fn component_limit(dim: usize) -> (limit: u32)
    requires
        dim > 0,
    ensures
        limit < INFINITY,
        forall|bits: u32|
            #![trigger in_domain(bits, dim as int)]
            in_domain(bits, dim as int) <==> unsigned(bits) <= limit,
{
    let mut low: u32 = 0;
    let mut high: u32 = INFINITY;
    proof {
        small_magnitudes_fit(0, dim as int);
        assert(magnitude(0) == 0);
    }
    while low + 1 < high
        invariant
            low < high <= INFINITY,
            dim > 0,
            in_domain(low, dim as int),
            !in_domain(high, dim as int),
        decreases high - low,
    {
        let mid: u32 = low + (high - low) / 2;
        if within(mid, dim) {
            low = mid;
        } else {
            high = mid;
        }
    }
    proof {
        assert forall|bits: u32| #![trigger in_domain(bits, dim as int)] in_domain(bits, dim as int) <==> unsigned(bits) <= low by {
            domain_is_downward(bits, low, high, dim as int);
        }
    }
    low
}

proof fn domain_is_downward(bits: u32, low: u32, high: u32, dim: int)
    requires
        low + 1 == high <= INFINITY,
        dim > 0,
        in_domain(low, dim),
        !in_domain(high, dim),
    ensures
        in_domain(bits, dim) <==> unsigned(bits) <= low,
{
    magnitude_is_not_negative(bits);
    let u = unsigned(bits);
    assert(is_finite(bits) == is_finite(u)) by {
        if bits >= SIGN {
            assert((u as int + 0x8000_0000) / 0x80_0000 == u as int / 0x80_0000 + 256);
        }
    }
    magnitude_is_not_negative(u);
    magnitude_is_not_negative(low);
    magnitude_is_not_negative(high);
    if u <= low {
        assert(u < 0x7f80_0000);
        assert(is_finite(u));
        if u < low {
            magnitude_grows(u, low);
        }
        scaled_square_grows(magnitude(u), magnitude(low), dim);
    } else {
        if u > high {
            magnitude_grows(high, u);
        }
        if is_finite(u) {
            assert(high < 0x7f80_0000) by {
                assert(u / 0x80_0000 < 255);
            }
            assert(is_finite(high));
            scaled_square_grows(magnitude(high), magnitude(u), dim);
        }
    }
}

proof fn scaled_square_grows(a: int, b: int, dim: int)
    requires
        0 <= a <= b,
        0 < dim,
    ensures
        8 * dim * (a * a) <= 8 * dim * (b * b),
{
    assert(a * a <= b * b) by (nonlinear_arith)
        requires
            0 <= a <= b,
    ;
    let x = a * a;
    let y = b * b;
    assert(8 * dim * x <= 8 * dim * y) by (nonlinear_arith)
        requires
            x <= y,
            0 < dim,
    ;
}

/// Every coordinate is in the domain of distances for `dim` dimensions.
pub open spec fn all_in_domain(values: Seq<u32>, dim: int) -> bool {
    forall|i: int| 0 <= i < values.len() ==> in_domain(#[trigger] values[i], dim)
}

/// Whether every coordinate is in the domain of distances.
pub fn check_domain(values: &[u32], dim: usize) -> (answer: bool)
    ensures
        answer == (dim > 0 && all_in_domain(values@, dim as int)),
{
    if dim == 0 {
        return false;
    }
    let limit: u32 = component_limit(dim);
    let mut i: usize = 0;
    while i < values.len()
        invariant
            i <= values@.len(),
            forall|bits: u32|
                #![trigger in_domain(bits, dim as int)]
                in_domain(bits, dim as int) <==> unsigned(bits) <= limit,
            forall|j: int| 0 <= j < i ==> in_domain(#[trigger] values@[j], dim as int),
        decreases values@.len() - i,
    {
        let bits: u32 = values[i];
        let plain: u32 = if bits >= SIGN { bits - SIGN } else { bits };
        assert(in_domain(bits, dim as int) <==> plain <= limit);
        if plain > limit {
            assert(!in_domain(values@[i as int], dim as int));
            return false;
        }
        i = i + 1;
    }
    true
}

/// The number as a byte: rounded to the nearest whole number, halves upward,
/// and brought into the range of bytes.  What is not a number counts as zero.
pub open spec fn rounded(bits: u32) -> u8 {
    if is_nan(bits) || is_negative(bits) {
        0
    } else if (2 * magnitude(bits) + pow2(149)) / pow2(150) as int >= 255 {
        255
    } else {
        ((2 * magnitude(bits) + pow2(149)) / pow2(150) as int) as u8
    }
}

/// Rounds a number to a byte.
pub fn round_to_byte(bits: u32) -> (byte: u8)
    ensures
        byte == rounded(bits),
{
    if bits >= SIGN {
        return 0;
    }
    let e: u32 = bits / 0x80_0000;
    let f: u32 = bits % 0x80_0000;
    assert(e == exponent(bits) && f == fraction(bits));
    if e == 255 && f != 0 {
        return 0;
    }
    proof {
        if e >= 135 {
            large_rounds_up(bits);
        } else if e < 126 {
            small_rounds_down(bits);
        } else {
            scaled_rounding(bits, (150 - e) as nat);
            lemma2_to64();
        }
    }
    if e >= 135 {
        return 255;
    }
    if e < 126 {
        return 0;
    }
    let m: u32 = f + 0x80_0000;
    let r: u32 = if e == 126 {
        (m + 0x80_0000) / 0x100_0000
    } else if e == 127 {
        (m + 0x40_0000) / 0x80_0000
    } else if e == 128 {
        (m + 0x20_0000) / 0x40_0000
    } else if e == 129 {
        (m + 0x10_0000) / 0x20_0000
    } else if e == 130 {
        (m + 0x8_0000) / 0x10_0000
    } else if e == 131 {
        (m + 0x4_0000) / 0x8_0000
    } else if e == 132 {
        (m + 0x2_0000) / 0x4_0000
    } else if e == 133 {
        (m + 0x1_0000) / 0x2_0000
    } else {
        (m + 0x8000) / 0x1_0000
    };
    if r >= 255 {
        255
    } else {
        r as u8
    }
}

/// Between one half and 256, rounding needs only the significant bits.
proof fn scaled_rounding(bits: u32, s: nat)
    requires
        bits < SIGN,
        126 <= exponent(bits) <= 134,
        s == 150 - exponent(bits),
    ensures
        (2 * magnitude(bits) + pow2(149)) / pow2(150) as int == (fraction(bits) + 0x80_0000 + pow2(
            (s - 1) as nat,
        )) as int / pow2(s) as int,
{
    let e = exponent(bits);
    let m = (fraction(bits) + 0x80_0000) as int;
    let k = pow2(e) as int;
    lemma_pow2_pos(e);
    lemma_pow2_pos(s);
    lemma_pow2_unfold(e);
    lemma_pow2_adds(e, s);
    lemma_pow2_adds(e, (s - 1) as nat);
    let p = pow2((e - 1) as nat) as int;
    assert(2 * (m * p) == m * k) by (nonlinear_arith)
        requires
            k == 2 * p,
    ;
    let h = pow2((s - 1) as nat) as int;
    let d = pow2(s) as int;
    assert(2 * magnitude(bits) + pow2(149) == k * (m + h)) by (nonlinear_arith)
        requires
            2 * magnitude(bits) == m * k,
            pow2(149) == k * h,
    ;
    vstd::arithmetic::div_mod::lemma_div_multiples_vanish_quotient(k, m + h, d);
}

/// Numbers from 256 on exceed every byte.
proof fn large_rounds_up(bits: u32)
    requires
        bits < SIGN,
        exponent(bits) >= 135,
    ensures
        (2 * magnitude(bits) + pow2(149)) / pow2(150) as int >= 255,
{
    let e = exponent(bits);
    lemma_pow2_pos(150);
    lemma_pow2_pos(149);
    lemma_pow2_pos((e - 1) as nat);
    if e > 135 {
        lemma_pow2_strictly_increases(134, (e - 1) as nat);
    }
    lemma_pow2_adds(16, 134);
    lemma2_to64();
    let p = pow2((e - 1) as nat) as int;
    let q = pow2(134) as int;
    let m = (fraction(bits) + 0x80_0000) as int;
    assert(m * p >= 0x80_0000 * q) by (nonlinear_arith)
        requires
            m >= 0x80_0000,
            p >= q,
            q > 0,
    ;
    let x = 2 * magnitude(bits) + pow2(149) as int;
    let d = pow2(150) as int;
    assert(x >= 255 * d);
    vstd::arithmetic::div_mod::lemma_div_is_ordered(255 * d, x, d);
    vstd::arithmetic::div_mod::lemma_div_multiples_vanish(255, d);
}

/// Numbers below one half round to zero.
proof fn small_rounds_down(bits: u32)
    requires
        bits < SIGN,
        exponent(bits) < 126,
    ensures
        (2 * magnitude(bits) + pow2(149)) / pow2(150) as int == 0,
{
    let half: u32 = 0x3f00_0000;
    assert(exponent(half) == 126 && fraction(half) == 0);
    assert(bits < half);
    magnitude_grows(bits, half);
    lemma_pow2_adds(23, 125);
    lemma_pow2_unfold(149);
    lemma_pow2_unfold(150);
    lemma2_to64();
    lemma_pow2_pos(150);
    assert(magnitude(half) == pow2(148));
    vstd::arithmetic::div_mod::lemma_basic_div(
        2 * magnitude(bits) + pow2(149),
        pow2(150) as int,
    );
}

/// Pattern of `count * 2^(power - 150)`: the count is doubled, and the exponent
/// lowered, until it fills the fraction.
pub open spec fn scaled_pattern(count: int, power: int) -> u32
    decreases 0x100_0000 - count,
{
    if count <= 0 {
        0
    } else if count >= 0x80_0000 {
        (power * 0x80_0000 + (count - 0x80_0000)) as u32
    } else {
        scaled_pattern(2 * count, power - 1)
    }
}

/// Pattern of a count below `2^24` as a number.
pub open spec fn pattern_of_count(count: int) -> u32 {
    scaled_pattern(count, 150)
}

/// Pattern of a byte as a number.
pub open spec fn pattern_of_byte(byte: u8) -> u32 {
    pattern_of_count(byte as int)
}

/// The exponent does not run out before the fraction is full.
proof fn doubling_ends(count: int, power: int)
    requires
        0 < count < 0x80_0000,
        127 <= power,
        0x80_0000 <= count * pow2((power - 127) as nat),
    ensures
        127 < power,
        0x80_0000 <= (2 * count) * pow2((power - 128) as nat),
{
    lemma2_to64();
    if power == 127 {
        assert(count * pow2(0) == count) by (nonlinear_arith)
            requires
                pow2(0) == 1,
        ;
    } else {
        lemma_pow2_unfold((power - 127) as nat);
        let half = pow2((power - 128) as nat) as int;
        assert((2 * count) * half == count * (2 * half)) by (nonlinear_arith);
    }
}

proof fn scaled_pattern_is_exact(count: int, power: int)
    requires
        0 < count < 0x100_0000,
        127 <= power <= 150,
        0x80_0000 <= count * pow2((power - 127) as nat),
    ensures
        scaled_pattern(count, power) < SIGN,
        is_finite(scaled_pattern(count, power)),
        magnitude(scaled_pattern(count, power)) == count * pow2((power - 1) as nat),
    decreases 0x100_0000 - count,
{
    if count < 0x80_0000 {
        doubling_ends(count, power);
        scaled_pattern_is_exact(2 * count, power - 1);
        lemma_pow2_unfold((power - 1) as nat);
        let half = pow2((power - 2) as nat) as int;
        assert((2 * count) * half == count * (2 * half)) by (nonlinear_arith);
    } else {
        let bits = scaled_pattern(count, power);
        assert(bits == power * 0x80_0000 + (count - 0x80_0000));
        assert(exponent(bits) == power);
        assert(fraction(bits) == count - 0x80_0000);
    }
}

/// The pattern of a count has the value of the count.
pub proof fn pattern_of_count_is_exact(count: int)
    requires
        0 <= count < 0x100_0000,
    ensures
        is_finite(pattern_of_count(count)),
        value(pattern_of_count(count)) == count * pow2(149),
{
    lemma2_to64();
    if count > 0 {
        assert(0x80_0000 <= count * pow2(23)) by (nonlinear_arith)
            requires
                0 < count,
                pow2(23) == 0x80_0000,
        ;
        scaled_pattern_is_exact(count, 150);
    }
}

/// Pattern of a count as a number.
pub fn count_to_pattern(count: u32) -> (bits: u32)
    requires
        count < 0x100_0000,
    ensures
        bits == pattern_of_count(count as int),
{
    if count == 0 {
        return 0;
    }
    let mut scaled: u32 = count;
    let mut power: u32 = 150;
    proof {
        lemma2_to64();
        assert(0x80_0000 <= scaled * pow2(23)) by (nonlinear_arith)
            requires
                0 < scaled,
                pow2(23) == 0x80_0000,
        ;
    }
    while scaled < 0x80_0000
        invariant
            0 < scaled < 0x100_0000,
            127 <= power <= 150,
            0x80_0000 <= scaled * pow2((power - 127) as nat),
            scaled_pattern(scaled as int, power as int) == pattern_of_count(count as int),
        decreases 0x100_0000 - scaled,
    {
        proof {
            doubling_ends(scaled as int, power as int);
        }
        scaled = 2 * scaled;
        power = power - 1;
    }
    power * 0x80_0000 + (scaled - 0x80_0000)
}

/// Pattern of a byte as a number.
pub fn byte_to_pattern(byte: u8) -> (bits: u32)
    ensures
        bits == pattern_of_byte(byte),
{
    count_to_pattern(byte as u32)
}

} // verus!
