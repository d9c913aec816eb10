//! Projections of attributes and the selection of neighbours that cover them.

use vstd::prelude::*;
use crate::config::{MAX_COVERING_SUBSETS, PrismConfig};
use crate::error::{ends, invalid_input, PrismResult, Verdict};
use crate::point::PointStore;
use crate::pure::{of3, total3};
use crate::single::{count_to_pattern, less, less_than, pattern_of_count, value, zero};

verus! {

/// Pattern of negative infinity.
pub const NEGATIVE_INFINITY: u32 = 0xff80_0000;

/// Number of ways to choose `t` of `k` things.
pub open spec fn binomial(k: nat, t: nat) -> nat
    decreases k,
{
    if t == 0 {
        1
    } else if k == 0 {
        0
    } else {
        binomial((k - 1) as nat, t) + binomial((k - 1) as nat, (t - 1) as nat)
    }
}

/// Whether the projections can be covered, and how many there are.
pub open spec fn covering_verdict(k: int, t: int) -> Verdict {
    if t > k || binomial(k as nat, t as nat) > MAX_COVERING_SUBSETS {
        Verdict::InvalidInput
    } else {
        Verdict::Accepted
    }
}

proof fn binomial_beyond(k: nat, t: nat)
    requires
        t > k,
    ensures
        binomial(k, t) == 0,
    decreases k,
{
    if k > 0 {
        binomial_beyond((k - 1) as nat, t);
        binomial_beyond((k - 1) as nat, (t - 1) as nat);
    }
}

proof fn binomial_all(k: nat)
    ensures
        binomial(k, k) == 1,
    decreases k,
{
    if k > 0 {
        binomial_all((k - 1) as nat);
        binomial_beyond((k - 1) as nat, k);
    }
}

/// Choosing what to take is choosing what to leave.
pub proof fn binomial_is_symmetric(k: nat, t: nat)
    requires
        t <= k,
    ensures
        binomial(k, t) == binomial(k, (k - t) as nat),
    decreases k,
{
    if t == 0 {
        binomial_all(k);
    } else if t == k {
        binomial_all(k);
    } else {
        binomial_is_symmetric((k - 1) as nat, t);
        binomial_is_symmetric((k - 1) as nat, (t - 1) as nat);
    }
}

/// `t` times the ways to choose `t` of `k` are `k` times the ways to choose one
/// less of one less.
proof fn binomial_product(k: nat, t: nat)
    requires
        0 < t,
        0 < k,
    ensures
        t * binomial(k, t) == k * binomial((k - 1) as nat, (t - 1) as nat),
    decreases k,
{
    let a = binomial((k - 1) as nat, t) as int;
    let b = binomial((k - 1) as nat, (t - 1) as nat) as int;
    let whole = binomial(k, t) as int;
    assert(whole == a + b);
    if k == 1 {
        if t == 1 {
            assert(binomial(0, 1) == 0);
            assert(binomial(0, 0) == 1);
            assert(t * whole == k * b) by (nonlinear_arith)
                requires
                    t == 1,
                    k == 1,
                    whole == b,
            ;
        } else {
            binomial_beyond(1, t);
            binomial_beyond(0, (t - 1) as nat);
            assert(t * whole == k * b) by (nonlinear_arith)
                requires
                    whole == 0,
                    b == 0,
            ;
        }
    } else {
        binomial_product((k - 1) as nat, t);
        let c = binomial((k - 2) as nat, (t - 1) as nat) as int;
        if t == 1 {
            assert(b == 1);
            assert(c == 1);
            assert(t * whole == k * b) by (nonlinear_arith)
                requires
                    whole == a + b,
                    t == 1,
                    b == 1,
                    c == 1,
                    t * a == (k - 1) * c,
            ;
        } else {
            binomial_product((k - 1) as nat, (t - 1) as nat);
            let d = binomial((k - 2) as nat, (t - 2) as nat) as int;
            assert(b == c + d);
            assert(t * whole == k * b) by (nonlinear_arith)
                requires
                    whole == a + b,
                    t * a == (k - 1) * c,
                    (t - 1) * b == (k - 1) * d,
                    b == c + d,
            ;
        }
    }
}

proof fn binomial_grows(k: nat, t: nat)
    requires
        0 < t,
        0 < k,
    ensures
        binomial((k - 1) as nat, (t - 1) as nat) <= binomial(k, t),
{
}

/// The first `i` steps of the product formula do not exceed the whole.
proof fn binomial_partial(k: nat, rest: nat, i: nat, t: nat)
    requires
        i <= t,
        k == rest + t,
    ensures
        binomial(rest + i, i) <= binomial(k, t),
    decreases t - i,
{
    if i < t {
        binomial_grows(rest + i + 1, i + 1);
        binomial_partial(k, rest, i + 1, t);
    }
}

/// Number of projections onto `t` of `k` attributes.
pub fn checked_covering_subset_count(k: usize, t: usize) -> (result: PrismResult<usize>)
    ensures
        ends(result, covering_verdict(k as int, t as int)),
        result matches Ok(count) ==> count == binomial(k as nat, t as nat),
{
    if t > k {
        return Err(invalid_input("covering strength cannot exceed attribute count"));
    }
    let few: usize = if t < k - t { t } else { k - t };
    proof {
        binomial_is_symmetric(k as nat, t as nat);
    }
    let ghost rest = (k - few) as nat;
    let mut count: u128 = 1;
    let mut i: usize = 0;
    assert(binomial(rest, 0) == 1);
    while i < few
        invariant
            i <= few <= k,
            t <= k,
            rest == k - few,
            count == binomial((rest + i) as nat, i as nat),
            count <= MAX_COVERING_SUBSETS,
            binomial(k as nat, few as nat) == binomial(k as nat, t as nat),
        decreases few - i,
    {
        i = i + 1;
        let numerator: u128 = (k - few + i) as u128;
        proof {
            binomial_product((rest + i) as nat, i as nat);
            assert(numerator == rest + i);
            assert(count * numerator <= 4096 * 0xffff_ffff_ffff_ffff) by (nonlinear_arith)
                requires
                    0 <= count <= 4096,
                    0 <= numerator <= 0xffff_ffff_ffff_ffff,
            ;
            let b = binomial((rest + i) as nat, i as nat) as int;
            assert(count * numerator == b * i) by (nonlinear_arith)
                requires
                    i * b == (rest + i) * count,
                    numerator == rest + i,
            ;
            vstd::arithmetic::div_mod::lemma_div_multiples_vanish(b, i as int);
            assert(i * b == b * i) by (nonlinear_arith);
        }
        count = count * numerator / (i as u128);
        if count > MAX_COVERING_SUBSETS as u128 {
            proof {
                binomial_partial(k as nat, rest, i as nat, few as nat);
            }
            return Err(
                invalid_input("covering strength requires more than 4096 subsets of attributes"),
            );
        }
    }
    Ok(count as usize)
}

/// `t` ascending numbers below `k`.
pub open spec fn is_subset(s: Seq<usize>, k: int, t: int) -> bool {
    &&& s.len() == t
    &&& forall|i: int| 0 <= i < t ==> #[trigger] s[i] < k
    &&& forall|i: int, j: int| 0 <= i < j < t ==> s[i] < s[j]
}

/// The sequences agree up to position `i`, where `a` is smaller.
pub open spec fn smaller_at(a: Seq<usize>, b: Seq<usize>, i: int) -> bool {
    &&& 0 <= i < a.len()
    &&& i < b.len()
    &&& a[i] < b[i]
    &&& forall|m: int| 0 <= m < i ==> a[m] == b[m]
}

/// `a` comes before `b` in lexicographic order.
pub open spec fn before(a: Seq<usize>, b: Seq<usize>) -> bool {
    exists|i: int| #[trigger] smaller_at(a, b, i)
}

/// Some row of the list is `s`.
pub open spec fn listed(rows: Seq<Vec<usize>>, s: Seq<usize>) -> bool {
    exists|r: int| 0 <= r < rows.len() && (#[trigger] rows[r])@ == s
}

/// The rows are subsets, in lexicographic order.
pub open spec fn subsets_in_order(rows: Seq<Vec<usize>>, k: int, t: int) -> bool {
    &&& forall|r: int| 0 <= r < rows.len() ==> is_subset((#[trigger] rows[r])@, k, t)
    &&& forall|r: int, q: int|
        0 <= r < q < rows.len() ==> before((#[trigger] rows[r])@, (#[trigger] rows[q])@)
}

proof fn before_is_transitive(a: Seq<usize>, b: Seq<usize>, c: Seq<usize>)
    requires
        a.len() == b.len() == c.len(),
        before(a, b),
        before(b, c),
    ensures
        before(a, c),
{
    let i = choose|i: int| #[trigger] smaller_at(a, b, i);
    let j = choose|j: int| #[trigger] smaller_at(b, c, j);
    let m = if i < j {
        i
    } else {
        j
    };
    assert(smaller_at(a, c, m));
}

proof fn before_is_total(a: Seq<usize>, b: Seq<usize>)
    requires
        a.len() == b.len(),
        a != b,
    ensures
        before(a, b) || before(b, a),
{
    let i = first_difference(a, b, 0);
    if a[i] < b[i] {
        assert(smaller_at(a, b, i));
    } else {
        assert(smaller_at(b, a, i));
    }
}

proof fn first_difference(a: Seq<usize>, b: Seq<usize>, from: int) -> (i: int)
    requires
        a.len() == b.len(),
        a != b,
        0 <= from <= a.len(),
        forall|m: int| 0 <= m < from ==> a[m] == b[m],
    ensures
        0 <= i < a.len(),
        a[i] != b[i],
        forall|m: int| 0 <= m < i ==> a[m] == b[m],
    decreases a.len() - from,
{
    if from == a.len() {
        assert(a =~= b);
        0
    } else if a[from] != b[from] {
        from
    } else {
        first_difference(a, b, from + 1)
    }
}

/// No sequence comes both before and after another.
proof fn before_is_strict(a: Seq<usize>, b: Seq<usize>)
    requires
        before(a, b),
    ensures
        !before(b, a),
        a != b,
{
    let i = choose|i: int| #[trigger] smaller_at(a, b, i);
    if before(b, a) {
        let j = choose|j: int| #[trigger] smaller_at(b, a, j);
        assert(i < j || j < i || i == j);
    }
}

/// All subsets in order are one list.
proof fn subset_lists_agree(one: Seq<Vec<usize>>, two: Seq<Vec<usize>>, k: int, t: int, r: int)
    requires
        subsets_in_order(one, k, t),
        subsets_in_order(two, k, t),
        forall|s: Seq<usize>| is_subset(s, k, t) ==> #[trigger] listed(one, s),
        forall|s: Seq<usize>| is_subset(s, k, t) ==> #[trigger] listed(two, s),
        0 <= r < one.len(),
    ensures
        r < two.len(),
        one[r]@ == two[r]@,
    decreases r,
{
    let s = one[r]@;
    assert(is_subset(s, k, t));
    assert(listed(two, s));
    let j = choose|j: int| 0 <= j < two.len() && (#[trigger] two[j])@ == s;
    if j < r {
        subset_lists_agree(one, two, k, t, j);
        assert(before(one[j]@, one[r]@));
        before_is_strict(one[j]@, one[r]@);
    } else if j > r {
        let u = two[r]@;
        assert(is_subset(u, k, t));
        assert(before(u, s));
        assert(listed(one, u));
        let m = choose|m: int| 0 <= m < one.len() && (#[trigger] one[m])@ == u;
        before_is_strict(u, s);
        if m < r {
            subset_lists_agree(one, two, k, t, m);
            assert(before(two[m]@, two[r]@));
            before_is_strict(two[m]@, two[r]@);
        } else if m > r {
            assert(before(one[r]@, one[m]@));
        }
    }
}

/// Two complete lists of subsets in order are the same.
pub proof fn subset_list_is_unique(one: Seq<Vec<usize>>, two: Seq<Vec<usize>>, k: int, t: int)
    requires
        subsets_in_order(one, k, t),
        subsets_in_order(two, k, t),
        forall|s: Seq<usize>| is_subset(s, k, t) ==> #[trigger] listed(one, s),
        forall|s: Seq<usize>| is_subset(s, k, t) ==> #[trigger] listed(two, s),
    ensures
        same_views(one, two),
{
    assert forall|r: int| 0 <= r < one.len() implies r < two.len() && (#[trigger] one[r])@ == two[r]@ by {
        subset_lists_agree(one, two, k, t, r);
    }
    if one.len() > 0 {
        subset_lists_agree(one, two, k, t, one.len() - 1);
    }
    if two.len() > 0 {
        subset_lists_agree(two, one, k, t, two.len() - 1);
    }
}

/// The lists hold the same rows.
pub open spec fn same_views(one: Seq<Vec<usize>>, two: Seq<Vec<usize>>) -> bool {
    one.len() == two.len() && forall|r: int| 0 <= r < one.len() ==> (#[trigger] one[r])@ == two[r]@
}

/// Ascending entries leave room for those after them.
proof fn last_bound(s: Seq<usize>, k: int, t: int, j: int)
    requires
        is_subset(s, k, t),
        0 <= j < t,
    ensures
        s[j] <= k - t + j,
    decreases t - j,
{
    if j < t - 1 {
        last_bound(s, k, t, j + 1);
        assert(s[j] < s[j + 1]);
    }
}

/// Ascending entries differ by at least their distance.
proof fn rises_by_steps(s: Seq<usize>, k: int, t: int, i: int, j: int)
    requires
        is_subset(s, k, t),
        0 <= i <= j < t,
    ensures
        s[i] + (j - i) <= s[j],
    decreases j - i,
{
    if i < j {
        rises_by_steps(s, k, t, i, j - 1);
        assert(s[j - 1] < s[j]);
    }
}

/// The subset that follows `a`: entry `p` raised, the later ones next to it.
spec fn follows(a: Seq<usize>, b: Seq<usize>, p: int) -> bool {
    &&& a.len() == b.len()
    &&& 0 <= p < a.len()
    &&& forall|i: int| 0 <= i < p ==> a[i] == b[i]
    &&& forall|i: int| p <= i < a.len() ==> b[i] == a[p] + 1 + (i - p)
}

/// No subset lies between a subset and the one that follows.
proof fn nothing_between(a: Seq<usize>, b: Seq<usize>, p: int, k: int, t: int, s: Seq<usize>)
    requires
        is_subset(a, k, t),
        is_subset(s, k, t),
        follows(a, b, p),
        forall|i: int| p < i < t ==> #[trigger] a[i] == k - t + i,
        before(a, s),
    ensures
        s == b || before(b, s),
{
    let q = choose|q: int| #[trigger] smaller_at(a, s, q);
    last_bound(s, k, t, q);
    assert(q <= p);
    if q < p {
        assert(smaller_at(b, s, q));
    } else {
        assert forall|i: int| p <= i < t implies b[i] <= s[i] by {
            rises_by_steps(s, k, t, p, i);
        }
        if s != b {
            let d = first_difference(b, s, p);
            assert(b[d] <= s[d]);
            assert(smaller_at(b, s, d));
        }
    }
}

/// Weight of a sequence as digits of a number.
spec fn weight(s: Seq<usize>, base: int) -> int
    decreases s.len(),
{
    if s.len() == 0 {
        0
    } else {
        weight(s.drop_last(), base) * base + s.last()
    }
}

spec fn power(base: int, exponent: nat) -> int
    decreases exponent,
{
    if exponent == 0 {
        1
    } else {
        power(base, (exponent - 1) as nat) * base
    }
}

proof fn weight_is_bounded(s: Seq<usize>, base: int)
    requires
        base > 0,
        forall|i: int| 0 <= i < s.len() ==> #[trigger] s[i] < base,
    ensures
        0 <= weight(s, base) < power(base, s.len()),
    decreases s.len(),
{
    if s.len() > 0 {
        let few = s.drop_last();
        assert forall|i: int| 0 <= i < few.len() implies #[trigger] few[i] < base by {
            assert(s[i] < base);
        }
        weight_is_bounded(few, base);
        let w = weight(few, base);
        let p = power(base, few.len());
        let last = s.last() as int;
        assert(last < base) by {
            assert(s[s.len() - 1] < base);
        }
        assert(0 <= w * base + last < p * base) by (nonlinear_arith)
            requires
                0 <= w < p,
                0 <= last < base,
        ;
    }
}

/// A lexicographically larger sequence weighs more.
proof fn weight_grows(a: Seq<usize>, b: Seq<usize>, base: int)
    requires
        base > 0,
        a.len() == b.len(),
        forall|i: int| 0 <= i < a.len() ==> #[trigger] a[i] < base,
        before(a, b),
    ensures
        weight(a, base) < weight(b, base),
    decreases a.len(),
{
    let i = choose|i: int| #[trigger] smaller_at(a, b, i);
    let last = a.len() - 1;
    let x = weight(a.drop_last(), base);
    let y = weight(b.drop_last(), base);
    let al = a.last() as int;
    let bl = b.last() as int;
    if i == last {
        assert(a.drop_last() =~= b.drop_last());
    } else {
        assert(smaller_at(a.drop_last(), b.drop_last(), i));
        assert forall|j: int| 0 <= j < a.drop_last().len() implies #[trigger] a.drop_last()[j] < base by {
            assert(a[j] < base);
        }
        weight_grows(a.drop_last(), b.drop_last(), base);
        assert(a[last] < base);
        assert(x * base + al < y * base + bl) by (nonlinear_arith)
            requires
                x < y,
                0 <= al < base,
                0 <= bl,
        ;
    }
}

/// All choices of `t` numbers below `k`: those without `k - 1`, then those
/// with it.
spec fn all_subsets(k: nat, t: nat) -> Seq<Seq<usize>>
    decreases k,
{
    if t == 0 {
        seq![Seq::empty()]
    } else if k == 0 {
        Seq::empty()
    } else {
        all_subsets((k - 1) as nat, t) + all_subsets((k - 1) as nat, (t - 1) as nat).map_values(
            |s: Seq<usize>| s.push((k - 1) as usize),
        )
    }
}

proof fn all_subsets_are_counted(k: nat, t: nat)
    ensures
        all_subsets(k, t).len() == binomial(k, t),
    decreases k,
{
    if t > 0 && k > 0 {
        all_subsets_are_counted((k - 1) as nat, t);
        all_subsets_are_counted((k - 1) as nat, (t - 1) as nat);
    }
}

proof fn all_subsets_hold_each(k: nat, t: nat, s: Seq<usize>)
    requires
        is_subset(s, k as int, t as int),
        k <= usize::MAX,
    ensures
        all_subsets(k, t).contains(s),
    decreases k,
{
    let all = all_subsets(k, t);
    if t == 0 {
        assert(s =~= Seq::empty());
        assert(all[0] == s);
    } else if k == 0 {
        assert(s[0] < 0);
    } else {
        let without = all_subsets((k - 1) as nat, t);
        let shorter = all_subsets((k - 1) as nat, (t - 1) as nat);
        if s.last() == k - 1 {
            let rest = s.drop_last();
            assert forall|i: int| 0 <= i < t - 1 implies #[trigger] rest[i] < k - 1 by {
                assert(s[i] < s[t - 1]);
            }
            all_subsets_hold_each((k - 1) as nat, (t - 1) as nat, rest);
            let r = choose|r: int| 0 <= r < shorter.len() && shorter[r] == rest;
            assert(s =~= rest.push((k - 1) as usize));
            assert(all[without.len() + r] == s);
        } else {
            assert forall|i: int| 0 <= i < t implies #[trigger] s[i] < k - 1 by {
                if i < t - 1 {
                    assert(s[i] < s[t - 1]);
                }
            }
            all_subsets_hold_each((k - 1) as nat, t, s);
            let r = choose|r: int| 0 <= r < without.len() && without[r] == s;
            assert(all[r] == s);
        }
    }
}

/// There are no more different subsets than ways to choose them.
proof fn subset_lists_are_bounded(rows: Seq<Vec<usize>>, k: nat, t: nat)
    requires
        subsets_in_order(rows, k as int, t as int),
        k <= usize::MAX,
    ensures
        rows.len() <= binomial(k, t),
{
    let views = rows.map_values(|row: Vec<usize>| row@);
    let all = all_subsets(k, t);
    assert forall|r: int, q: int| 0 <= r < views.len() && 0 <= q < views.len() && r != q implies views[r]
        != views[q] by {
        if r < q {
            before_is_strict(rows[r]@, rows[q]@);
        } else {
            before_is_strict(rows[q]@, rows[r]@);
        }
    }
    assert forall|s: Seq<usize>| views.to_set().contains(s) implies all.to_set().contains(s) by {
        let r = choose|r: int| 0 <= r < views.len() && views[r] == s;
        assert(is_subset(rows[r]@, k as int, t as int));
        all_subsets_hold_each(k, t, s);
    }
    views.unique_seq_to_set();
    all.lemma_cardinality_of_set();
    vstd::seq_lib::seq_to_set_is_finite(all);
    vstd::set_lib::lemma_len_subset(views.to_set(), all.to_set());
    all_subsets_are_counted(k, t);
}

/// All projections onto `t` of `k` attributes, in lexicographic order.
pub fn generate_t_subsets(k: usize, t: usize) -> (rows: Vec<Vec<usize>>)
    requires
        t <= k,
    ensures
        subsets_in_order(rows@, k as int, t as int),
        forall|s: Seq<usize>| is_subset(s, k as int, t as int) ==> #[trigger] listed(rows@, s),
        rows@.len() <= binomial(k as nat, t as nat),
{
    let mut rows: Vec<Vec<usize>> = Vec::new();
    let mut combo: Vec<usize> = Vec::new();
    while combo.len() < t
        invariant
            combo@.len() <= t,
            forall|i: int| 0 <= i < combo@.len() ==> #[trigger] combo@[i] == i,
        decreases t - combo@.len(),
    {
        combo.push(combo.len());
    }
    let ghost base = k + 1;
    proof {
        weight_is_bounded(combo@, base);
        assert forall|s: Seq<usize>| is_subset(s, k as int, t as int) && #[trigger] before(s, combo@) implies false by {
            let i = choose|i: int| #[trigger] smaller_at(s, combo@, i);
            rises_by_steps(s, k as int, t as int, 0, i);
        }
    }
    loop
        invariant_except_break
            is_subset(combo@, k as int, t as int),
            forall|r: int| 0 <= r < rows@.len() ==> before((#[trigger] rows@[r])@, combo@),
            forall|s: Seq<usize>|
                is_subset(s, k as int, t as int) && #[trigger] before(s, combo@) ==> listed(rows@, s),
        invariant
            t <= k,
            base == k + 1,
            subsets_in_order(rows@, k as int, t as int),
        ensures
            forall|s: Seq<usize>| is_subset(s, k as int, t as int) ==> #[trigger] listed(rows@, s),
        decreases power(base, t as nat) - weight(combo@, base),
    {
        let mut row: Vec<usize> = Vec::new();
        row.extend_from_slice(combo.as_slice());
        assert(row@ =~= combo@);
        let ghost done = rows@;
        rows.push(row);
        proof {
            assert(rows@[done.len() as int]@ == combo@);
            assert forall|s: Seq<usize>| listed(done, s) implies #[trigger] listed(rows@, s) by {
                let r = choose|r: int| 0 <= r < done.len() && (#[trigger] done[r])@ == s;
                assert(rows@[r]@ == s);
            }
            assert(listed(rows@, combo@));
        }
        let mut p: usize = t;
        while p > 0 && combo[p - 1] == k - t + (p - 1)
            invariant
                p <= t <= k,
                combo@.len() == t,
                forall|i: int| p <= i < t ==> #[trigger] combo@[i] == k - t + i,
            decreases p,
        {
            p = p - 1;
        }
        if p == 0 {
            proof {
                assert forall|s: Seq<usize>| is_subset(s, k as int, t as int) implies #[trigger] listed(
                    rows@,
                    s,
                ) by {
                    if s != combo@ {
                        before_is_total(s, combo@);
                        if before(combo@, s) {
                            let q = choose|q: int| #[trigger] smaller_at(combo@, s, q);
                            last_bound(s, k as int, t as int, q);
                            assert(combo@[q] == k - t + q);
                        }
                    }
                }
            }
            break;
        }
        let ghost prior = combo@;
        proof {
            last_bound(prior, k as int, t as int, p - 1);
        }
        let raised: usize = combo[p - 1] + 1;
        combo.set(p - 1, raised);
        let mut i: usize = p;
        while i < t
            invariant
                0 < p <= i <= t <= k,
                combo@.len() == t,
                prior.len() == t,
                is_subset(prior, k as int, t as int),
                prior[p - 1] < k - t + (p - 1),
                forall|j: int| 0 <= j < p - 1 ==> #[trigger] combo@[j] == prior[j],
                forall|j: int| p - 1 <= j < i ==> #[trigger] combo@[j] == prior[p - 1] + 1 + (j - (p - 1)),
            decreases t - i,
        {
            let next: usize = combo[i - 1] + 1;
            combo.set(i, next);
            i = i + 1;
        }
        proof {
            let at = p - 1;
            assert(follows(prior, combo@, at));
            assert(smaller_at(prior, combo@, at));
            assert(is_subset(combo@, k as int, t as int)) by {
                assert forall|a: int, b: int| 0 <= a < b < t implies combo@[a] < combo@[b] by {
                    if a < at {
                        assert(prior[a] < prior[at]);
                        if b < at {
                            assert(prior[a] < prior[b]);
                        }
                    }
                }
            }
            assert forall|i: int| 0 <= i < prior.len() implies #[trigger] prior[i] < base by {
            }
            weight_grows(prior, combo@, base);
            weight_is_bounded(combo@, base);
            assert forall|r: int| 0 <= r < rows@.len() implies before((#[trigger] rows@[r])@, combo@) by {
                if r < done.len() {
                    assert(before(done[r]@, prior));
                    before_is_transitive(rows@[r]@, prior, combo@);
                }
            }
            assert forall|s: Seq<usize>|
                is_subset(s, k as int, t as int) && #[trigger] before(s, combo@) implies listed(rows@, s) by {
                if s == prior {
                } else {
                    before_is_total(s, prior);
                    if before(prior, s) {
                        nothing_between(prior, combo@, at, k as int, t as int, s);
                        if s == combo@ {
                            let q = choose|q: int| #[trigger] smaller_at(s, combo@, q);
                            assert(false);
                        } else {
                            before_is_transitive(s, combo@, s);
                            let q = choose|q: int| #[trigger] smaller_at(s, s, q);
                            assert(false);
                        }
                    } else {
                        assert(listed(done, s));
                    }
                }
            }
        }
    }
    proof {
        subset_lists_are_bounded(rows@, k as nat, t as nat);
    }
    rows
}

/// Points `q` and `s` have the same values of the attributes in `combo`.
pub open spec fn agree(store: &PointStore, q: u32, s: u32, combo: Seq<usize>) -> bool {
    forall|i: int|
        0 <= i < combo.len() ==> store.attr_at(q as int, (#[trigger] combo[i]) as int) == store.attr_at(
            s as int,
            combo[i] as int,
        )
}

/// No chosen point agrees with `q` on the attributes in `combo`.
pub open spec fn is_new(store: &PointStore, q: u32, chosen: Seq<u32>, combo: Seq<usize>) -> bool {
    forall|j: int| 0 <= j < chosen.len() ==> !agree(store, q, #[trigger] chosen[j], combo)
}

/// How many of the first `upto` projections of `q` no chosen point has.
pub open spec fn new_tuples(
    store: &PointStore,
    q: u32,
    chosen: Seq<u32>,
    subsets: Seq<Vec<usize>>,
    upto: int,
) -> int
    decreases upto,
{
    if upto <= 0 {
        0
    } else {
        new_tuples(store, q, chosen, subsets, upto - 1) + (if is_new(
            store,
            q,
            chosen,
            subsets[upto - 1]@,
        ) {
            1int
        } else {
            0int
        })
    }
}

/// The first open candidate below `upto` with the highest score, and that score.
pub open spec fn leader(score: spec_fn(int) -> u32, taken: Seq<int>, upto: int) -> (Option<int>, u32)
    decreases upto,
{
    if upto <= 0 {
        (None, NEGATIVE_INFINITY)
    } else {
        let (best, high) = leader(score, taken, upto - 1);
        if !taken.contains(upto - 1) && less(high, score(upto - 1)) {
            (Some(upto - 1), score(upto - 1))
        } else {
            (best, high)
        }
    }
}

/// Identifiers of the candidates at some positions.
pub open spec fn ids_at(candidates: Seq<(u32, u32)>, positions: Seq<int>) -> Seq<u32> {
    positions.map_values(|i: int| candidates[i].0)
}

/// What a candidate at a distance is worth that brings `count` new projections:
/// where proximity has no weight, or there is no distance, the count itself;
/// else what `score` makes of the weight, the count and the distance.
pub open spec fn rating<W: Fn(u32, usize, u32) -> u32>(
    alpha: u32,
    score: W,
    count: int,
    distance: u32,
) -> u32 {
    if value(alpha) == 0 || value(distance) == 0 {
        pattern_of_count(count)
    } else {
        of3(score, alpha, count as usize, distance)
    }
}

/// Score of candidate `i` after some choices.
pub open spec fn candidate_score<W: Fn(u32, usize, u32) -> u32>(
    store: &PointStore,
    candidates: Seq<(u32, u32)>,
    subsets: Seq<Vec<usize>>,
    alpha: u32,
    score: W,
    taken: Seq<int>,
    i: int,
) -> u32 {
    rating(
        alpha,
        score,
        new_tuples(
            store,
            candidates[i].0,
            ids_at(candidates, taken),
            subsets,
            subsets.len() as int,
        ),
        candidates[i].1,
    )
}

/// Positions of the candidates chosen in `rounds` rounds: in each the open one
/// with the highest score, until none has a score.
pub open spec fn chosen<W: Fn(u32, usize, u32) -> u32>(
    store: &PointStore,
    candidates: Seq<(u32, u32)>,
    subsets: Seq<Vec<usize>>,
    alpha: u32,
    score: W,
    rounds: int,
) -> Seq<int>
    decreases rounds,
{
    if rounds <= 0 {
        Seq::empty()
    } else {
        let before = chosen(store, candidates, subsets, alpha, score, rounds - 1);
        match leader(
            |i: int| candidate_score(store, candidates, subsets, alpha, score, before, i),
            before,
            candidates.len() as int,
        ).0 {
            Some(i) => before.push(i),
            None => before,
        }
    }
}

/// How many rounds of choice there are.
pub open spec fn choice_rounds(candidates: Seq<(u32, u32)>, limit: int) -> int {
    if limit < candidates.len() {
        limit
    } else {
        candidates.len() as int
    }
}

proof fn leader_is_open(score: spec_fn(int) -> u32, taken: Seq<int>, upto: int)
    ensures
        leader(score, taken, upto).0 matches Some(i) ==> 0 <= i < upto && !taken.contains(i),
    decreases upto,
{
    if upto > 0 {
        leader_is_open(score, taken, upto - 1);
    }
}

proof fn new_tuples_agree(
    store: &PointStore,
    q: u32,
    taken: Seq<u32>,
    one: Seq<Vec<usize>>,
    two: Seq<Vec<usize>>,
    upto: int,
)
    requires
        same_views(one, two),
        upto <= one.len(),
    ensures
        new_tuples(store, q, taken, one, upto) == new_tuples(store, q, taken, two, upto),
    decreases upto,
{
    if upto > 0 {
        new_tuples_agree(store, q, taken, one, two, upto - 1);
        assert(one[upto - 1]@ == two[upto - 1]@);
    }
}

/// The choice depends on the subsets, not on who listed them.
pub proof fn choices_agree<W: Fn(u32, usize, u32) -> u32>(
    store: &PointStore,
    candidates: Seq<(u32, u32)>,
    one: Seq<Vec<usize>>,
    two: Seq<Vec<usize>>,
    alpha: u32,
    score: W,
    rounds: int,
)
    requires
        same_views(one, two),
    ensures
        chosen(store, candidates, one, alpha, score, rounds) == chosen(
            store,
            candidates,
            two,
            alpha,
            score,
            rounds,
        ),
    decreases rounds,
{
    if rounds > 0 {
        choices_agree(store, candidates, one, two, alpha, score, rounds - 1);
        let before = chosen(store, candidates, one, alpha, score, rounds - 1);
        let a = |i: int| candidate_score(store, candidates, one, alpha, score, before, i);
        let b = |i: int| candidate_score(store, candidates, two, alpha, score, before, i);
        assert forall|i: int| #[trigger] a(i) == b(i) by {
            new_tuples_agree(
                store,
                candidates[i].0,
                ids_at(candidates, before),
                one,
                two,
                one.len() as int,
            );
        }
        assert(a =~= b);
    }
}

/// The chosen positions are different candidates, one per round at most.
pub proof fn choices_are_distinct<W: Fn(u32, usize, u32) -> u32>(
    store: &PointStore,
    candidates: Seq<(u32, u32)>,
    subsets: Seq<Vec<usize>>,
    alpha: u32,
    score: W,
    rounds: int,
)
    ensures
        ({
            let taken = chosen(store, candidates, subsets, alpha, score, rounds);
            &&& taken.no_duplicates()
            &&& taken.len() <= if rounds < 0 {
                0
            } else {
                rounds
            }
            &&& forall|j: int| 0 <= j < taken.len() ==> 0 <= #[trigger] taken[j] < candidates.len()
        }),
    decreases rounds,
{
    if rounds > 0 {
        choices_are_distinct(store, candidates, subsets, alpha, score, rounds - 1);
        let before = chosen(store, candidates, subsets, alpha, score, rounds - 1);
        let scored = |i: int| candidate_score(store, candidates, subsets, alpha, score, before, i);
        leader_is_open(scored, before, candidates.len() as int);
        let after = chosen(store, candidates, subsets, alpha, score, rounds);
        assert forall|i: int, j: int| 0 <= i < after.len() && 0 <= j < after.len() && i != j implies after[i]
            != after[j] by {
            if i == before.len() {
                assert(before.contains(before[j]));
            }
            if j == before.len() {
                assert(before.contains(before[i]));
            }
        }
    }
}

/// Whether two points agree on the attributes in `combo`.
fn points_agree(store: &PointStore, q: u32, s: u32, combo: &Vec<usize>) -> (answer: bool)
    requires
        store.wf(),
        q < store.len,
        s < store.len,
        forall|i: int| 0 <= i < combo@.len() ==> #[trigger] combo@[i] < store.attrs@.len(),
    ensures
        answer == agree(store, q, s, combo@),
{
    let mut i: usize = 0;
    while i < combo.len()
        invariant
            i <= combo@.len(),
            store.wf(),
            q < store.len,
            s < store.len,
            forall|j: int| 0 <= j < combo@.len() ==> #[trigger] combo@[j] < store.attrs@.len(),
            forall|j: int|
                0 <= j < i ==> store.attr_at(q as int, (#[trigger] combo@[j]) as int) == store.attr_at(
                    s as int,
                    combo@[j] as int,
                ),
        decreases combo@.len() - i,
    {
        let j: usize = combo[i];
        assert(combo@[i as int] < store.attrs@.len());
        if store.attr_unchecked(q, j) != store.attr_unchecked(s, j) {
            assert(!agree(store, q, s, combo@));
            return false;
        }
        i = i + 1;
    }
    true
}

/// Every projection names attributes that exist.
pub open spec fn subsets_fit(subsets: Seq<Vec<usize>>, k: int) -> bool {
    forall|r: int, i: int|
        0 <= r < subsets.len() && 0 <= i < subsets[r]@.len() ==> #[trigger] subsets[r]@[i] < k
}

/// How many projections of `q` no chosen point has.
pub fn count_new_tuples(store: &PointStore, q: u32, chosen: &Vec<u32>, subsets: &Vec<Vec<usize>>) -> (count:
    usize)
    requires
        store.wf(),
        q < store.len,
        forall|j: int| 0 <= j < chosen@.len() ==> #[trigger] chosen@[j] < store.len,
        subsets_fit(subsets@, store.attrs@.len() as int),
    ensures
        count == new_tuples(store, q, chosen@, subsets@, subsets@.len() as int),
        count <= subsets@.len(),
{
    let mut count: usize = 0;
    let mut r: usize = 0;
    while r < subsets.len()
        invariant
            r <= subsets@.len(),
            count <= r,
            store.wf(),
            q < store.len,
            forall|j: int| 0 <= j < chosen@.len() ==> #[trigger] chosen@[j] < store.len,
            subsets_fit(subsets@, store.attrs@.len() as int),
            count == new_tuples(store, q, chosen@, subsets@, r as int),
        decreases subsets@.len() - r,
    {
        let combo = &subsets[r];
        let mut fresh: bool = true;
        let mut j: usize = 0;
        while j < chosen.len()
            invariant
                j <= chosen@.len(),
                r < subsets@.len(),
                *combo == subsets@[r as int],
                store.wf(),
                q < store.len,
                forall|i: int| 0 <= i < chosen@.len() ==> #[trigger] chosen@[i] < store.len,
                subsets_fit(subsets@, store.attrs@.len() as int),
                fresh == forall|i: int|
                    0 <= i < j ==> !agree(store, q, #[trigger] chosen@[i], combo@),
            decreases chosen@.len() - j,
        {
            assert(chosen@[j as int] < store.len);
            assert forall|i: int| 0 <= i < combo@.len() implies #[trigger] combo@[i] < store.attrs@.len() by {
                assert(subsets@[r as int]@[i] < store.attrs@.len());
            }
            if points_agree(store, q, chosen[j], combo) {
                fresh = false;
            }
            j = j + 1;
        }
        if fresh {
            count = count + 1;
        }
        r = r + 1;
    }
    count
}

/// What a candidate is worth.
fn rate<W: Fn(u32, usize, u32) -> u32>(alpha: u32, score: &W, count: usize, distance: u32) -> (worth:
    u32)
    requires
        count <= MAX_COVERING_SUBSETS,
        total3(*score),
    ensures
        worth == rating(alpha, *score, count as int, distance),
{
    if zero(alpha) || zero(distance) {
        count_to_pattern(count as u32)
    } else {
        score(alpha, count, distance)
    }
}

/// The neighbours that a point selects among candidates, given as identifiers
/// with distance patterns: up to `m_greedy`, one after the other the one that
/// is worth most.  `score` rates, for the weight `alpha` of proximity, a number
/// of new projections at a distance.
pub fn select_cross_neighbors<W: Fn(u32, usize, u32) -> u32>(
    store: &PointStore,
    candidates: &Vec<(u32, u32)>,
    config: &PrismConfig,
    subsets: &Vec<Vec<usize>>,
    score: &W,
) -> (selected: Vec<u32>)
    requires
        store.wf(),
        forall|i: int| 0 <= i < candidates@.len() ==> (#[trigger] candidates@[i]).0 < store.len,
        subsets_fit(subsets@, store.attrs@.len() as int),
        subsets@.len() <= MAX_COVERING_SUBSETS,
        total3(*score),
    ensures
        selected@ == ids_at(
            candidates@,
            chosen(
                store,
                candidates@,
                subsets@,
                config.alpha,
                *score,
                choice_rounds(candidates@, config.m_greedy as int),
            ),
        ),
        selected@.len() <= config.m_greedy,
{
    let limit: usize = config.m_greedy;
    let rounds: usize = if limit < candidates.len() { limit } else { candidates.len() };
    let mut selected: Vec<u32> = Vec::new();
    let mut open: Vec<bool> = Vec::new();
    while open.len() < candidates.len()
        invariant
            open@.len() <= candidates@.len(),
            forall|i: int| 0 <= i < open@.len() ==> #[trigger] open@[i],
        decreases candidates@.len() - open@.len(),
    {
        open.push(true);
    }
    let ghost mut taken: Seq<int> = Seq::empty();
    let mut round: usize = 0;
    assert(selected@ =~= ids_at(candidates@, taken));
    while round < rounds
        invariant
            round <= rounds <= limit,
            limit == config.m_greedy,
            rounds == choice_rounds(candidates@, limit as int),
            store.wf(),
            forall|i: int| 0 <= i < candidates@.len() ==> (#[trigger] candidates@[i]).0 < store.len,
            subsets_fit(subsets@, store.attrs@.len() as int),
            subsets@.len() <= MAX_COVERING_SUBSETS,
            total3(*score),
            open@.len() == candidates@.len(),
            taken == chosen(store, candidates@, subsets@, config.alpha, *score, round as int),
            selected@ == ids_at(candidates@, taken),
            forall|i: int| 0 <= i < open@.len() ==> (#[trigger] open@[i] <==> !taken.contains(i)),
        decreases rounds - round,
    {
        proof {
            choices_are_distinct(store, candidates@, subsets@, config.alpha, *score, round as int);
            assert forall|j: int| 0 <= j < selected@.len() implies #[trigger] selected@[j] < store.len by {
                assert(0 <= taken[j] < candidates@.len());
                assert(candidates@[taken[j]].0 < store.len);
            }
        }
        let ghost scored = |i: int|
            candidate_score(store, candidates@, subsets@, config.alpha, *score, taken, i);
        let mut best: Option<usize> = None;
        let mut high: u32 = NEGATIVE_INFINITY;
        let mut i: usize = 0;
        while i < candidates.len()
            invariant
                i <= candidates@.len(),
                store.wf(),
                forall|j: int| 0 <= j < candidates@.len() ==> (#[trigger] candidates@[j]).0 < store.len,
                forall|j: int| 0 <= j < selected@.len() ==> #[trigger] selected@[j] < store.len,
                subsets_fit(subsets@, store.attrs@.len() as int),
                subsets@.len() <= MAX_COVERING_SUBSETS,
                total3(*score),
                open@.len() == candidates@.len(),
                selected@ == ids_at(candidates@, taken),
                forall|j: int| 0 <= j < open@.len() ==> (#[trigger] open@[j] <==> !taken.contains(j)),
                scored == (|i: int|
                    candidate_score(store, candidates@, subsets@, config.alpha, *score, taken, i)),
                best matches Some(b) ==> b < i,
                leader(scored, taken, i as int) == (
                    match best {
                        Some(b) => Some(b as int),
                        None => None,
                    },
                    high,
                ),
            decreases candidates@.len() - i,
        {
            if open[i] {
                assert(candidates@[i as int].0 < store.len);
                let count: usize = count_new_tuples(store, candidates[i].0, &selected, subsets);
                let worth: u32 = rate(config.alpha, score, count, candidates[i].1);
                assert(worth == scored(i as int));
                if less_than(high, worth) {
                    high = worth;
                    best = Some(i);
                }
            }
            i = i + 1;
        }
        match best {
            Some(b) => {
                let ghost before = taken;
                selected.push(candidates[b].0);
                open.set(b, false);
                proof {
                    taken = before.push(b as int);
                    assert(selected@ =~= ids_at(candidates@, taken));
                    assert forall|j: int| 0 <= j < open@.len() implies (#[trigger] open@[j] <==> !taken.contains(
                        j,
                    )) by {
                        assert(taken[before.len() as int] == b as int);
                        if before.contains(j) {
                            let w = choose|w: int| 0 <= w < before.len() && before[w] == j;
                            assert(taken[w] == j);
                        }
                        if taken.contains(j) && j != b {
                            let w = choose|w: int| 0 <= w < taken.len() && taken[w] == j;
                            assert(before[w] == j);
                        }
                    }
                }
            },
            None => {
                proof {
                    stays_chosen(store, candidates@, subsets@, config.alpha, *score, round as int, rounds as int);
                }
                return selected;
            },
        }
        round = round + 1;
    }
    proof {
        choices_are_distinct(store, candidates@, subsets@, config.alpha, *score, rounds as int);
    }
    selected
}

/// Once a round chooses nothing, later rounds choose nothing.
proof fn stays_chosen<W: Fn(u32, usize, u32) -> u32>(
    store: &PointStore,
    candidates: Seq<(u32, u32)>,
    subsets: Seq<Vec<usize>>,
    alpha: u32,
    score: W,
    round: int,
    rounds: int,
)
    requires
        0 <= round < rounds,
        leader(
            |i: int|
                candidate_score(
                    store,
                    candidates,
                    subsets,
                    alpha,
                    score,
                    chosen(store, candidates, subsets, alpha, score, round),
                    i,
                ),
            chosen(store, candidates, subsets, alpha, score, round),
            candidates.len() as int,
        ).0 is None,
    ensures
        chosen(store, candidates, subsets, alpha, score, rounds) == chosen(
            store,
            candidates,
            subsets,
            alpha,
            score,
            round,
        ),
        chosen(store, candidates, subsets, alpha, score, rounds).len() <= rounds,
    decreases rounds - round,
{
    choices_are_distinct(store, candidates, subsets, alpha, score, rounds);
    if round + 1 < rounds {
        stays_chosen(store, candidates, subsets, alpha, score, round + 1, rounds);
    }
}

/// Diminishing returns: the more points are chosen, the fewer new projections
/// another point brings, and never fewer than none.
pub proof fn new_tuples_diminish(
    store: &PointStore,
    q: u32,
    fewer: Seq<u32>,
    more: Seq<u32>,
    subsets: Seq<Vec<usize>>,
    upto: int,
)
    requires
        forall|p: u32| #[trigger] fewer.contains(p) ==> more.contains(p),
    ensures
        0 <= new_tuples(store, q, more, subsets, upto) <= new_tuples(
            store,
            q,
            fewer,
            subsets,
            upto,
        ),
    decreases upto,
{
    if upto > 0 {
        new_tuples_diminish(store, q, fewer, more, subsets, upto - 1);
        let subset = subsets[upto - 1]@;
        if is_new(store, q, more, subset) {
            assert forall|i: int| 0 <= i < fewer.len() implies !agree(
                store,
                q,
                #[trigger] fewer[i],
                subset,
            ) by {
                assert(fewer.contains(fewer[i]));
                let j = choose|j: int| 0 <= j < more.len() && more[j] == fewer[i];
                assert(!agree(store, q, more[j], subset));
            }
        }
    }
}

} // verus!
