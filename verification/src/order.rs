//! Ranked values: sorting, searching and bounded selection.
//!
//! Everything the index ranks is an integer or a pair of integers.  A value's
//! rank is one mathematical integer, so that pairs compare lexicographically
//! and every comparison is linear arithmetic.

use vstd::prelude::*;
use vstd::seq_lib::*;
use vstd::multiset::*;

verus! {

/// A value with a total order given by an integer rank.
pub trait Ranked: Sized {
    spec fn rank(self) -> int;

    /// No two values share a rank.
    proof fn rank_identifies(a: Self, b: Self)
        ensures
            a.rank() == b.rank() ==> a == b,
    ;

    fn before(self, other: Self) -> (earlier: bool)
        ensures
            earlier == (self.rank() < other.rank()),
    ;
}

impl Ranked for u16 {
    open spec fn rank(self) -> int {
        self as int
    }

    proof fn rank_identifies(a: Self, b: Self) {
    }

    fn before(self, other: Self) -> (earlier: bool) {
        self < other
    }
}

impl Ranked for u32 {
    open spec fn rank(self) -> int {
        self as int
    }

    proof fn rank_identifies(a: Self, b: Self) {
    }

    fn before(self, other: Self) -> (earlier: bool) {
        self < other
    }
}

impl Ranked for i32 {
    open spec fn rank(self) -> int {
        self as int
    }

    proof fn rank_identifies(a: Self, b: Self) {
    }

    fn before(self, other: Self) -> (earlier: bool) {
        self < other
    }
}

impl Ranked for usize {
    open spec fn rank(self) -> int {
        self as int
    }

    proof fn rank_identifies(a: Self, b: Self) {
    }

    fn before(self, other: Self) -> (earlier: bool) {
        self < other
    }
}

impl Ranked for (u32, u32) {
    open spec fn rank(self) -> int {
        self.0 * 0x1_0000_0000 + self.1
    }

    proof fn rank_identifies(a: Self, b: Self) {
    }

    fn before(self, other: Self) -> (earlier: bool) {
        self.0 < other.0 || (self.0 == other.0 && self.1 < other.1)
    }
}

impl Ranked for (u64, u32) {
    open spec fn rank(self) -> int {
        self.0 * 0x1_0000_0000 + self.1
    }

    proof fn rank_identifies(a: Self, b: Self) {
    }

    fn before(self, other: Self) -> (earlier: bool) {
        self.0 < other.0 || (self.0 == other.0 && self.1 < other.1)
    }
}

impl Ranked for (u64, u64) {
    open spec fn rank(self) -> int {
        self.0 * 0x1_0000_0000_0000_0000 + self.1
    }

    proof fn rank_identifies(a: Self, b: Self) {
    }

    fn before(self, other: Self) -> (earlier: bool) {
        self.0 < other.0 || (self.0 == other.0 && self.1 < other.1)
    }
}

impl Ranked for (u16, u32, u32) {
    open spec fn rank(self) -> int {
        self.0 * 0x1_0000_0000_0000_0000 + self.1 * 0x1_0000_0000 + self.2
    }

    proof fn rank_identifies(a: Self, b: Self) {
    }

    fn before(self, other: Self) -> (earlier: bool) {
        self.0 < other.0 || (self.0 == other.0 && (self.1 < other.1 || (self.1 == other.1 && self.2
            < other.2)))
    }
}

/// Ranks never decrease along `items`.
pub open spec fn sorted<T: Ranked>(items: Seq<T>) -> bool {
    forall|i: int, j: int| 0 <= i <= j < items.len() ==> items[i].rank() <= items[j].rank()
}

/// Ranks strictly increase along `items`, so nothing occurs twice.
pub open spec fn ascending<T: Ranked>(items: Seq<T>) -> bool {
    forall|i: int, j: int| 0 <= i < j < items.len() ==> items[i].rank() < items[j].rank()
}

/// Where `item` goes in a sorted sequence: before the first entry that does
/// not rank below it.
pub open spec fn slot<T: Ranked>(items: Seq<T>, item: T) -> int
    decreases items.len(),
{
    if items.len() == 0 {
        0
    } else if items.last().rank() < item.rank() {
        items.len() as int
    } else {
        slot(items.drop_last(), item)
    }
}

/// A sorted sequence with `item` put in its place.
pub open spec fn place<T: Ranked>(items: Seq<T>, item: T) -> Seq<T> {
    items.insert(slot(items, item), item)
}

/// `items` in ascending rank.
pub open spec fn arranged<T: Ranked>(items: Seq<T>) -> Seq<T>
    decreases items.len(),
{
    if items.len() == 0 {
        Seq::empty()
    } else {
        place(arranged(items.drop_last()), items.last())
    }
}

/// The `k` lowest-ranked entries of `items`, lowest first; all of them when
/// there are fewer.
pub open spec fn lowest<T: Ranked>(items: Seq<T>, k: int) -> Seq<T> {
    let all = arranged(items);
    if k < all.len() {
        all.take(k)
    } else {
        all
    }
}

/// What comes before the slot is below the item; what follows is not.
pub proof fn slot_splits<T: Ranked>(items: Seq<T>, item: T)
    requires
        sorted(items),
    ensures
        0 <= slot(items, item) <= items.len(),
        forall|i: int| 0 <= i < slot(items, item) ==> items[i].rank() < item.rank(),
        forall|i: int| slot(items, item) <= i < items.len() ==> item.rank() <= items[i].rank(),
    decreases items.len(),
{
    if items.len() > 0 {
        if items.last().rank() < item.rank() {
            assert forall|i: int| 0 <= i < items.len() implies items[i].rank() < item.rank() by {
                assert(items[i].rank() <= items[items.len() - 1].rank());
            }
        } else {
            let front = items.drop_last();
            assert(sorted(front)) by {
                assert forall|i: int, j: int| 0 <= i <= j < front.len() implies front[i].rank() <= front[j].rank() by {
                    assert(items[i].rank() <= items[j].rank());
                }
            }
            slot_splits(front, item);
            assert forall|i: int| 0 <= i < slot(items, item) implies items[i].rank() < item.rank() by {
                assert(front[i] == items[i]);
            }
            assert forall|i: int| slot(items, item) <= i < items.len() implies item.rank() <= items[i].rank() by {
                if i < front.len() {
                    assert(front[i] == items[i]);
                }
            }
        }
    }
}

/// The split point of a sorted sequence is unique.
pub proof fn slot_is<T: Ranked>(items: Seq<T>, item: T, at: int)
    requires
        sorted(items),
        0 <= at <= items.len(),
        forall|i: int| 0 <= i < at ==> items[i].rank() < item.rank(),
        forall|i: int| at <= i < items.len() ==> item.rank() <= items[i].rank(),
    ensures
        slot(items, item) == at,
{
    slot_splits(items, item);
    let s = slot(items, item);
    if s < at {
        assert(items[s].rank() < item.rank());
    }
    if at < s {
        assert(items[at].rank() < item.rank());
    }
}

/// Placing an item keeps a list in order.
pub proof fn place_keeps_order<T: Ranked>(items: Seq<T>, item: T)
    requires
        sorted(items),
    ensures
        sorted(place(items, item)),
        place(items, item).len() == items.len() + 1,
        place(items, item).to_multiset() == items.to_multiset().insert(item),
{
    slot_splits(items, item);
    let s = slot(items, item);
    let out = place(items, item);
    assert forall|i: int, j: int| 0 <= i <= j < out.len() implies out[i].rank() <= out[j].rank() by {
        if i < s {
            assert(out[i] == items[i]);
        } else if i > s {
            assert(out[i] == items[i - 1]);
        }
        if j < s {
            assert(out[j] == items[j]);
        } else if j > s {
            assert(out[j] == items[j - 1]);
        }
    }
    to_multiset_insert(items, s, item);
}

/// Items placed one by one stand in order.
pub proof fn arranged_is_sorted<T: Ranked>(items: Seq<T>)
    ensures
        sorted(arranged(items)),
        arranged(items).len() == items.len(),
        arranged(items).to_multiset() == items.to_multiset(),
    decreases items.len(),
{
    broadcast use group_to_multiset_ensures;

    if items.len() > 0 {
        arranged_is_sorted(items.drop_last());
        place_keeps_order(arranged(items.drop_last()), items.last());
        assert(items.drop_last().push(items.last()) =~= items);
    } else {
        assert(items =~= Seq::empty());
    }
}

/// A sorted sequence is determined by what it holds.
pub proof fn sorted_is_unique<T: Ranked>(a: Seq<T>, b: Seq<T>)
    requires
        sorted(a),
        sorted(b),
        a.to_multiset() == b.to_multiset(),
    ensures
        a == b,
    decreases a.len(),
{
    broadcast use group_to_multiset_ensures;

    assert(a.to_multiset().len() == a.len());
    assert(b.to_multiset().len() == b.len());
    assert(a.len() == b.len());
    if a.len() > 0 {
        let n = a.len() - 1;
        assert(a.contains(a[n]));
        assert(b.to_multiset().count(a[n]) > 0);
        assert(b.contains(a[n]));
        let j = choose|j: int| 0 <= j < b.len() && b[j] == a[n];
        assert(b.contains(b[n]));
        assert(a.to_multiset().count(b[n]) > 0);
        assert(a.contains(b[n]));
        let i = choose|i: int| 0 <= i < a.len() && a[i] == b[n];
        assert(b[j].rank() <= b[n].rank());
        assert(a[i].rank() <= a[n].rank());
        T::rank_identifies(a[n], b[n]);
        assert(a =~= a.drop_last().push(a[n]));
        assert(b =~= b.drop_last().push(b[n]));
        assert(a.drop_last().to_multiset() =~= a.to_multiset().remove(a[n]));
        assert(b.drop_last().to_multiset() =~= b.to_multiset().remove(b[n]));
        assert(sorted(a.drop_last())) by {
            assert forall|x: int, y: int| 0 <= x <= y < n implies a.drop_last()[x].rank() <= a.drop_last()[y].rank() by {
                assert(a[x].rank() <= a[y].rank());
            }
        }
        assert(sorted(b.drop_last())) by {
            assert forall|x: int, y: int| 0 <= x <= y < n implies b.drop_last()[x].rank() <= b.drop_last()[y].rank() by {
                assert(b[x].rank() <= b[y].rank());
            }
        }
        sorted_is_unique(a.drop_last(), b.drop_last());
    } else {
        assert(a =~= b);
    }
}

/// The entries of a sorted arrangement are those of the input.
pub proof fn arranged_holds<T: Ranked>(items: Seq<T>, item: T)
    ensures
        arranged(items).contains(item) <==> items.contains(item),
{
    broadcast use group_to_multiset_ensures;

    arranged_is_sorted(items);
    assert(arranged(items).to_multiset().count(item) == items.to_multiset().count(item));
}

proof fn to_multiset_insert<T>(items: Seq<T>, at: int, item: T)
    requires
        0 <= at <= items.len(),
    ensures
        items.insert(at, item).to_multiset() == items.to_multiset().insert(item),
{
    broadcast use group_to_multiset_ensures;

    let front = items.take(at);
    let back = items.skip(at);
    assert(items =~= front + back);
    assert(items.insert(at, item) =~= front.push(item) + back);
    lemma_multiset_commutative(front, back);
    lemma_multiset_commutative(front.push(item), back);
    assert(front.push(item).to_multiset().add(back.to_multiset()) =~= front.to_multiset().add(
        back.to_multiset(),
    ).insert(item));
}

/// Merges two sorted slices.
fn merge<T: Ranked + Copy>(a: &[T], b: &[T]) -> (out: Vec<T>)
    requires
        sorted(a@),
        sorted(b@),
    ensures
        sorted(out@),
        out@.to_multiset() == a@.to_multiset().add(b@.to_multiset()),
{
    broadcast use group_to_multiset_ensures;

    let mut out: Vec<T> = Vec::new();
    let mut i: usize = 0;
    let mut j: usize = 0;
    assert(a@.take(0) =~= Seq::<T>::empty());
    assert(b@.take(0) =~= Seq::<T>::empty());
    while i < a.len() || j < b.len()
        invariant
            i <= a@.len(),
            j <= b@.len(),
            sorted(a@),
            sorted(b@),
            sorted(out@),
            forall|p: int, q: int| 0 <= p < out@.len() && i <= q < a@.len() ==> out@[p].rank() <= a@[q].rank(),
            forall|p: int, q: int| 0 <= p < out@.len() && j <= q < b@.len() ==> out@[p].rank() <= b@[q].rank(),
            out@.to_multiset() == a@.take(i as int).to_multiset().add(b@.take(j as int).to_multiset()),
        decreases a@.len() - i + b@.len() - j,
    {
        broadcast use group_to_multiset_ensures;

        let from_b: bool = i == a.len() || (j < b.len() && b[j].before(a[i]));
        let ghost before = out@;
        if from_b {
            out.push(b[j]);
            proof {
                assert(b@.take(j + 1) =~= b@.take(j as int).push(b@[j as int]));
                assert(out@.to_multiset() =~= a@.take(i as int).to_multiset().add(
                    b@.take(j + 1).to_multiset(),
                ));
            }
            j = j + 1;
        } else {
            out.push(a[i]);
            proof {
                assert(a@.take(i + 1) =~= a@.take(i as int).push(a@[i as int]));
                assert(out@.to_multiset() =~= a@.take(i + 1).to_multiset().add(
                    b@.take(j as int).to_multiset(),
                ));
            }
            i = i + 1;
        }
    }
    proof {
        assert(a@.take(i as int) =~= a@);
        assert(b@.take(j as int) =~= b@);
    }
    out
}

/// A sorted copy of `items`.
pub fn sorted_copy<T: Ranked + Copy>(items: &[T]) -> (out: Vec<T>)
    ensures
        out@ == arranged(items@),
    decreases items@.len(),
{
    broadcast use group_to_multiset_ensures;

    let mut out: Vec<T> = Vec::new();
    if items.len() <= 1 {
        if items.len() == 1 {
            out.push(items[0]);
        }
        proof {
            assert(out@ =~= items@);
            arranged_is_sorted(items@);
            sorted_is_unique(out@, arranged(items@));
        }
        return out;
    }
    let mid: usize = items.len() / 2;
    let (left, right) = items.split_at(mid);
    let a = sorted_copy(left);
    let b = sorted_copy(right);
    proof {
        arranged_is_sorted(left@);
        arranged_is_sorted(right@);
    }
    out = merge(a.as_slice(), b.as_slice());
    proof {
        arranged_is_sorted(items@);
        assert(items@ =~= left@ + right@);
        lemma_multiset_commutative(left@, right@);
        sorted_is_unique(out@, arranged(items@));
    }
    out
}

/// The distinct entries of a sorted slice.
fn without_repeats<T: Ranked + Copy>(items: &[T]) -> (out: Vec<T>)
    requires
        sorted(items@),
    ensures
        ascending(out@),
        forall|x: T| out@.contains(x) <==> items@.contains(x),
{
    let mut out: Vec<T> = Vec::new();
    let mut i: usize = 0;
    while i < items.len()
        invariant
            i <= items@.len(),
            sorted(items@),
            ascending(out@),
            i == 0 ==> out@.len() == 0,
            i > 0 ==> out@.len() > 0 && out@.last() == items@[i - 1],
            forall|x: T| out@.contains(x) <==> items@.take(i as int).contains(x),
        decreases items@.len() - i,
    {
        let ghost seen = items@.take(i as int);
        let ghost next = items@.take(i + 1);
        let ghost before = out@;
        let item: T = items[i];
        proof {
            assert(next =~= seen.push(item));
        }
        if i == 0 || items[i - 1].before(item) {
            out.push(item);
            proof {
                assert forall|x: T| out@.contains(x) <==> next.contains(x) by {
                    if before.contains(x) {
                        let w = choose|w: int| 0 <= w < before.len() && before[w] == x;
                        assert(out@[w] == x);
                    }
                    if seen.contains(x) {
                        let w = choose|w: int| 0 <= w < seen.len() && seen[w] == x;
                        assert(next[w] == x);
                    }
                    assert(next[i as int] == item);
                    assert(out@[before.len() as int] == item);
                    if next.contains(x) && x != item {
                        let w = choose|w: int| 0 <= w < next.len() && next[w] == x;
                        assert(seen[w] == x);
                    }
                    if out@.contains(x) && x != item {
                        let w = choose|w: int| 0 <= w < out@.len() && out@[w] == x;
                        assert(before[w] == x);
                    }
                }
                if i > 0 {
                    assert forall|p: int, q: int| 0 <= p < q < out@.len() implies out@[p].rank() < out@[q].rank() by {
                        if q == before.len() {
                            assert(before[p].rank() <= before.last().rank());
                        }
                    }
                }
            }
        } else {
            proof {
                T::rank_identifies(items@[i - 1], item);
                assert(seen[i - 1] == item);
                assert forall|x: T| out@.contains(x) <==> next.contains(x) by {
                    if seen.contains(x) {
                        let w = choose|w: int| 0 <= w < seen.len() && seen[w] == x;
                        assert(next[w] == x);
                    }
                    if next.contains(x) {
                        let w = choose|w: int| 0 <= w < next.len() && next[w] == x;
                        if w < i {
                            assert(seen[w] == x);
                        }
                    }
                }
            }
        }
        i = i + 1;
    }
    proof {
        assert(items@.take(items@.len() as int) =~= items@);
    }
    out
}

/// The distinct entries of `items` in ascending rank.
pub fn ascending_set<T: Ranked + Copy>(items: &[T]) -> (out: Vec<T>)
    ensures
        ascending(out@),
        forall|x: T| out@.contains(x) <==> items@.contains(x),
{
    let all = sorted_copy(items);
    proof {
        arranged_is_sorted(items@);
        assert forall|x: T| all@.contains(x) <==> items@.contains(x) by {
            arranged_holds(items@, x);
        }
    }
    without_repeats(all.as_slice())
}

/// Position of the first entry of a sorted slice that does not rank below `item`.
pub fn lower_bound<T: Ranked + Copy>(items: &[T], item: T) -> (at: usize)
    requires
        sorted(items@),
    ensures
        at == slot(items@, item),
        at <= items@.len(),
        forall|i: int| 0 <= i < at ==> items@[i].rank() < item.rank(),
        forall|i: int| at <= i < items@.len() ==> item.rank() <= items@[i].rank(),
{
    let mut low: usize = 0;
    let mut high: usize = items.len();
    while low < high
        invariant
            low <= high <= items@.len(),
            sorted(items@),
            forall|i: int| 0 <= i < low ==> items@[i].rank() < item.rank(),
            forall|i: int| high <= i < items@.len() ==> item.rank() <= items@[i].rank(),
        decreases high - low,
    {
        let mid: usize = low + (high - low) / 2;
        if items[mid].before(item) {
            low = mid + 1;
        } else {
            high = mid;
        }
    }
    proof {
        slot_is(items@, item, low as int);
    }
    low
}

/// Whether a sorted slice holds `item`.
pub fn holds<T: Ranked + Copy>(items: &[T], item: T) -> (found: bool)
    requires
        sorted(items@),
    ensures
        found == items@.contains(item),
{
    let at: usize = lower_bound(items, item);
    if at < items.len() && !item.before(items[at]) {
        proof {
            T::rank_identifies(items@[at as int], item);
            assert(items@[at as int] == item);
        }
        true
    } else {
        proof {
            if items@.contains(item) {
                let w = choose|w: int| 0 <= w < items@.len() && items@[w] == item;
                assert(w >= at);
                assert(items@[at as int].rank() <= items@[w].rank());
            }
        }
        false
    }
}

/// Puts `item` in its place in a sorted list.
pub fn insert_sorted<T: Ranked + Copy>(items: &mut Vec<T>, item: T)
    requires
        sorted(old(items)@),
    ensures
        final(items)@ == place(old(items)@, item),
        sorted(final(items)@),
{
    let at: usize = lower_bound(items.as_slice(), item);
    proof {
        place_keeps_order(items@, item);
    }
    items.insert(at, item);
}

/// An ascending sequence is sorted.
pub proof fn ascending_is_sorted<T: Ranked>(items: Seq<T>)
    requires
        ascending(items),
    ensures
        sorted(items),
        items.no_duplicates(),
{
    assert forall|i: int, j: int| 0 <= i <= j < items.len() implies items[i].rank() <= items[j].rank() by {
        if i < j {
            assert(items[i].rank() < items[j].rank());
        }
    }
}

/// Two ascending sequences with the same members are equal.
pub proof fn ascending_is_unique<T: Ranked>(a: Seq<T>, b: Seq<T>)
    requires
        ascending(a),
        ascending(b),
        forall|x: T| a.contains(x) <==> b.contains(x),
    ensures
        a == b,
{
    broadcast use group_to_multiset_ensures;

    ascending_is_sorted(a);
    ascending_is_sorted(b);
    a.lemma_multiset_has_no_duplicates();
    b.lemma_multiset_has_no_duplicates();
    assert forall|x: T| a.to_multiset().count(x) == b.to_multiset().count(x) by {
        assert(a.contains(x) <==> a.to_multiset().count(x) > 0);
        assert(b.contains(x) <==> b.to_multiset().count(x) > 0);
        if a.contains(x) {
            assert(a.to_multiset().contains(x));
            assert(b.to_multiset().contains(x));
        }
    }
    assert(a.to_multiset() =~= b.to_multiset());
    sorted_is_unique(a, b);
}

/// Entries that both sorted slices hold, as often as the scarcer one has them.
pub fn common<T: Ranked + Copy>(a: &[T], b: &[T]) -> (out: Vec<T>)
    ensures
        sorted(a@) && sorted(b@) ==> sorted(out@) && forall|x: T|
            #![trigger out@.to_multiset().count(x)]
            out@.to_multiset().count(x) == vstd::math::min(
                a@.to_multiset().count(x) as int,
                b@.to_multiset().count(x) as int,
            ),
        ascending(a@) && ascending(b@) ==> ascending(out@) && forall|x: T|
            #![trigger out@.contains(x)]
            out@.contains(x) <==> a@.contains(x) && b@.contains(x),
{
    broadcast use group_to_multiset_ensures;

    let mut out: Vec<T> = Vec::new();
    let mut i: usize = 0;
    let mut j: usize = 0;
    let ghost ordered = sorted(a@) && sorted(b@);
    assert(a@.skip(0) =~= a@);
    assert(b@.skip(0) =~= b@);
    while i < a.len() && j < b.len()
        invariant
            i <= a@.len(),
            j <= b@.len(),
            ordered == (sorted(a@) && sorted(b@)),
            ordered ==> sorted(out@),
            ordered ==> forall|p: int, q: int|
                0 <= p < out@.len() && i <= q < a@.len() ==> out@[p].rank() <= a@[q].rank(),
            ordered ==> forall|x: T|
                #![trigger out@.to_multiset().count(x)]
                out@.to_multiset().count(x) + vstd::math::min(
                    a@.skip(i as int).to_multiset().count(x) as int,
                    b@.skip(j as int).to_multiset().count(x) as int,
                ) == vstd::math::min(
                    a@.to_multiset().count(x) as int,
                    b@.to_multiset().count(x) as int,
                ),
        decreases a@.len() - i + b@.len() - j,
    {
        broadcast use group_to_multiset_ensures;

        let ghost rest_a = a@.skip(i as int);
        let ghost rest_b = b@.skip(j as int);
        let ghost before = out@;
        proof {
            assert(rest_a =~= a@.skip(i + 1).insert(0, a@[i as int]));
            to_multiset_insert(a@.skip(i + 1), 0, a@[i as int]);
            assert(rest_b =~= b@.skip(j + 1).insert(0, b@[j as int]));
            to_multiset_insert(b@.skip(j + 1), 0, b@[j as int]);
        }
        if a[i].before(b[j]) {
            proof {
                if ordered {
                    let x = a@[i as int];
                    assert(rest_b.to_multiset().count(x) == 0) by {
                        if rest_b.contains(x) {
                            let w = choose|w: int| 0 <= w < rest_b.len() && rest_b[w] == x;
                            assert(b@[j + w] == x);
                            assert(b@[j as int].rank() <= b@[j + w].rank());
                        }
                    }
                }
            }
            i = i + 1;
        } else if b[j].before(a[i]) {
            proof {
                if ordered {
                    let x = b@[j as int];
                    assert(rest_a.to_multiset().count(x) == 0) by {
                        if rest_a.contains(x) {
                            let w = choose|w: int| 0 <= w < rest_a.len() && rest_a[w] == x;
                            assert(a@[i + w] == x);
                            assert(a@[i as int].rank() <= a@[i + w].rank());
                        }
                    }
                }
            }
            j = j + 1;
        } else {
            proof {
                T::rank_identifies(a@[i as int], b@[j as int]);
            }
            out.push(a[i]);
            i = i + 1;
            j = j + 1;
        }
    }
    proof {
        if ordered {
            assert forall|x: T| #![trigger out@.to_multiset().count(x)]
                out@.to_multiset().count(x) == vstd::math::min(
                a@.to_multiset().count(x) as int,
                b@.to_multiset().count(x) as int,
            ) by {
                if i == a@.len() {
                    assert(a@.skip(i as int) =~= Seq::<T>::empty());
                } else {
                    assert(b@.skip(j as int) =~= Seq::<T>::empty());
                }
            }
        }
        if ascending(a@) && ascending(b@) {
            ascending_is_sorted(a@);
            ascending_is_sorted(b@);
            a@.lemma_multiset_has_no_duplicates();
            assert forall|x: T| #![trigger out@.contains(x)] out@.contains(x) <==> a@.contains(x) && b@.contains(x) by {
                assert(out@.contains(x) <==> out@.to_multiset().count(x) > 0);
                assert(a@.contains(x) <==> a@.to_multiset().count(x) > 0);
                assert(b@.contains(x) <==> b@.to_multiset().count(x) > 0);
            }
            assert forall|p: int, q: int| 0 <= p < q < out@.len() implies out@[p].rank() < out@[q].rank() by {
                if out@[p].rank() == out@[q].rank() {
                    let x = out@[p];
                    T::rank_identifies(x, out@[q]);
                    twice_counts_two(out@, p, q);
                    assert(out@.to_multiset().count(x) >= 2);
                    assert(a@.to_multiset().contains(x));
                    assert(a@.to_multiset().count(x) == 1);
                }
            }
        }
    }
    out
}

proof fn twice_counts_two<T>(items: Seq<T>, p: int, q: int)
    requires
        0 <= p < q < items.len(),
        items[p] == items[q],
    ensures
        items.to_multiset().count(items[p]) >= 2,
{
    broadcast use group_to_multiset_ensures;

    let rest = items.remove(q);
    assert(items =~= rest.insert(q, items[q]));
    to_multiset_insert(rest, q, items[q]);
    assert(rest[p] == items[p]);
    assert(rest.contains(items[p]));
    assert(rest.to_multiset().count(items[p]) > 0);
}

} // verus!
