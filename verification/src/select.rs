//! Bounded candidate lists.
//!
//! A candidate is a distance with the identifier it belongs to.  Lists are
//! kept in ascending `(distance, identifier)` order, so the worst candidate is
//! always the last one.

use vstd::prelude::*;
use vstd::seq_lib::*;
use crate::order::{
    arranged, arranged_is_sorted, insert_sorted, lowest, place, place_keeps_order, slot, slot_is,
    slot_splits, sorted, Ranked,
};

verus! {

/// A distance and the identifier it was measured for.
pub type Scored = (u64, u32);

/// One candidate offered to a list of at most `cap`: a full list takes it only
/// when it is strictly closer than the worst candidate, which then leaves.
pub open spec fn offered(list: Seq<Scored>, entry: Scored, cap: int) -> Seq<Scored> {
    if list.len() < cap {
        place(list, entry)
    } else if list.len() > 0 && entry.0 < list.last().0 {
        place(list.drop_last(), entry)
    } else {
        list
    }
}

/// Candidates offered one after the other.
pub open spec fn offered_all(list: Seq<Scored>, entries: Seq<Scored>, cap: int) -> Seq<Scored>
    decreases entries.len(),
{
    if entries.len() == 0 {
        list
    } else {
        offered(offered_all(list, entries.drop_last(), cap), entries.last(), cap)
    }
}

/// One candidate for a list of at most `cap` in which ties go to the lower
/// identifier.
pub open spec fn kept(list: Seq<Scored>, entry: Scored, cap: int) -> Seq<Scored> {
    if list.len() < cap {
        place(list, entry)
    } else if list.len() > 0 && entry.rank() < list.last().rank() {
        place(list.drop_last(), entry)
    } else {
        list
    }
}

/// Offers one candidate to a bounded list.
pub fn offer(list: &mut Vec<Scored>, entry: Scored, cap: usize)
    requires
        sorted(old(list)@),
        old(list)@.len() <= cap,
    ensures
        final(list)@ == offered(old(list)@, entry, cap as int),
        sorted(final(list)@),
        final(list)@.len() <= cap,
{
    proof {
        prefix_is_sorted(list@);
        place_keeps_order(list@, entry);
    }
    if list.len() < cap {
        insert_sorted(list, entry);
    } else if list.len() > 0 && entry.0 < list[list.len() - 1].0 {
        let ghost whole = list@;
        let _ = list.pop();
        proof {
            assert(list@ =~= whole.drop_last());
            place_keeps_order(list@, entry);
        }
        insert_sorted(list, entry);
    }
}

/// Adds one candidate to a bounded list in which ties go to the lower
/// identifier.
pub fn keep(list: &mut Vec<Scored>, entry: Scored, cap: usize)
    requires
        sorted(old(list)@),
        old(list)@.len() <= cap,
    ensures
        final(list)@ == kept(old(list)@, entry, cap as int),
        sorted(final(list)@),
        final(list)@.len() <= cap,
{
    proof {
        prefix_is_sorted(list@);
        place_keeps_order(list@, entry);
    }
    if list.len() < cap {
        insert_sorted(list, entry);
    } else if list.len() > 0 && entry.before(list[list.len() - 1]) {
        let ghost whole = list@;
        let _ = list.pop();
        proof {
            assert(list@ =~= whole.drop_last());
            place_keeps_order(list@, entry);
        }
        insert_sorted(list, entry);
    }
}

proof fn prefix_is_sorted<T: Ranked>(items: Seq<T>)
    requires
        sorted(items),
    ensures
        items.len() > 0 ==> sorted(items.drop_last()),
{
    if items.len() > 0 {
        let front = items.drop_last();
        assert forall|i: int, j: int| 0 <= i <= j < front.len() implies front[i].rank() <= front[j].rank() by {
            assert(items[i].rank() <= items[j].rank());
        }
    }
}

/// The first items of a sorted list are sorted.
pub proof fn take_is_sorted<T: Ranked>(items: Seq<T>, k: int)
    requires
        sorted(items),
        0 <= k <= items.len(),
    ensures
        sorted(items.take(k)),
{
    assert forall|i: int, j: int| 0 <= i <= j < k implies items.take(k)[i].rank() <= items.take(k)[j].rank() by {
        assert(items[i].rank() <= items[j].rank());
    }
}

/// A lower rank is no larger a distance.
pub proof fn rank_orders_distances(a: Scored, b: Scored)
    requires
        a.rank() <= b.rank(),
    ensures
        a.0 <= b.0,
{
}

/// Keeping candidates one by one selects the lowest-ranked ones.
pub proof fn kept_is_lowest(entries: Seq<Scored>, entry: Scored, cap: int)
    requires
        0 <= cap,
    ensures
        kept(lowest(entries, cap), entry, cap) == lowest(entries.push(entry), cap),
{
    let all = arranged(entries);
    arranged_is_sorted(entries);
    assert(entries.push(entry).drop_last() =~= entries);
    let grown = place(all, entry);
    assert(arranged(entries.push(entry)) == grown);
    place_keeps_order(all, entry);
    slot_splits(all, entry);
    let s = slot(all, entry);
    if all.len() >= cap {
        let low = all.take(cap);
        assert(lowest(entries, cap) =~= low);
        take_is_sorted(all, cap);
        if cap > 0 {
            let worst = all[cap - 1];
            assert(low.last() == worst);
            if entry.rank() < worst.rank() {
                let front = low.drop_last();
                assert(front =~= all.take(cap - 1));
                take_is_sorted(all, cap - 1);
                if s > cap - 1 {
                    assert(all[cap - 1].rank() < entry.rank());
                }
                slot_is(front, entry, s);
                assert(place(front, entry) =~= grown.take(cap));
            } else if s >= cap {
                assert(grown.take(cap) =~= low);
            } else {
                assert forall|i: int| 0 <= i < cap implies grown.take(cap)[i] == low[i] by {
                    if i >= s {
                        assert(all[i].rank() <= all[cap - 1].rank());
                        assert(entry.rank() <= all[i].rank());
                        Scored::rank_identifies(all[i], entry);
                        if i > s {
                            assert(all[i - 1].rank() <= all[cap - 1].rank());
                            assert(entry.rank() <= all[i - 1].rank());
                            Scored::rank_identifies(all[i - 1], entry);
                        }
                    }
                }
                assert(grown.take(cap) =~= low);
            }
        } else {
            assert(grown.take(0) =~= low);
        }
    }
}

/// An offer keeps a list in order and within its bound.
pub proof fn offered_keeps_order(list: Seq<Scored>, entry: Scored, cap: int)
    requires
        sorted(list),
        list.len() <= cap,
    ensures
        sorted(offered(list, entry, cap)),
        list.len() <= offered(list, entry, cap).len() <= cap,
        offered(list, entry, cap).len() == if list.len() < cap { list.len() + 1int } else { cap },
        forall|e: Scored|
            #![trigger offered(list, entry, cap).contains(e)]
            offered(list, entry, cap).contains(e) ==> list.contains(e) || e == entry,
{
    prefix_is_sorted(list);
    place_keeps_order(list, entry);
    slot_splits(list, entry);
    let out = offered(list, entry, cap);
    if list.len() > 0 {
        place_keeps_order(list.drop_last(), entry);
        slot_splits(list.drop_last(), entry);
    }
    assert forall|e: Scored| #![trigger out.contains(e)] out.contains(e) implies list.contains(e) || e == entry by {
        let w = choose|w: int| 0 <= w < out.len() && out[w] == e;
        if list.len() < cap {
            let s = slot(list, entry);
            if w < s {
                assert(list[w] == e);
            } else if w > s {
                assert(list[w - 1] == e);
            }
        } else if list.len() > 0 && entry.0 < list.last().0 {
            let s = slot(list.drop_last(), entry);
            if w < s {
                assert(list[w] == e);
            } else if w > s {
                assert(list[w - 1] == e);
            }
        }
    }
}

/// What a bounded list holds after any number of offers: as many candidates as
/// fit, each of them offered, and none that was turned away is strictly closer
/// than one that stayed.
pub proof fn offered_all_is_nearest(entries: Seq<Scored>, cap: int)
    requires
        0 <= cap,
    ensures
        sorted(offered_all(Seq::empty(), entries, cap)),
        offered_all(Seq::empty(), entries, cap).len() == if entries.len() < cap { entries.len() as int } else { cap },
        forall|e: Scored|
            #![trigger offered_all(Seq::empty(), entries, cap).contains(e)]
            offered_all(Seq::empty(), entries, cap).contains(e) ==> entries.contains(e),
        forall|e: Scored, i: int|
            entries.contains(e) && !offered_all(Seq::empty(), entries, cap).contains(e)
                && 0 <= i < offered_all(Seq::empty(), entries, cap).len() ==> (
            #[trigger] offered_all(Seq::empty(), entries, cap)[i]).0 <= (#[trigger] identity(e)).0,
    decreases entries.len(),
{
    let out = offered_all(Seq::empty(), entries, cap);
    if entries.len() > 0 {
        let front = entries.drop_last();
        let entry = entries.last();
        offered_all_is_nearest(front, cap);
        let list = offered_all(Seq::empty(), front, cap);
        offered_keeps_order(list, entry, cap);
        assert(out == offered(list, entry, cap));
        assert forall|e: Scored| #![trigger out.contains(e)] out.contains(e) implies entries.contains(e) by {
            if list.contains(e) {
                assert(front.contains(e));
                let w = choose|w: int| 0 <= w < front.len() && front[w] == e;
                assert(entries[w] == e);
            } else {
                assert(entries[entries.len() - 1] == e);
            }
        }
        assert forall|e: Scored, i: int|
            entries.contains(e) && !out.contains(e) && 0 <= i < out.len() implies (#[trigger] out[i]).0 <= (
        #[trigger] identity(e)).0 by {
            out_member(list, entry, cap);
            let x = out[i];
            assert(out.contains(x));
            let w = choose|w: int| 0 <= w < entries.len() && entries[w] == e;
            if list.len() < cap {
                slot_splits(list, entry);
                let s = slot(list, entry);
                assert(out[s] == entry);
                assert(e != entry);
                assert(front[w] == e);
                assert(front.contains(e));
                if list.contains(e) {
                    let v = choose|v: int| 0 <= v < list.len() && list[v] == e;
                    assert(out[if v < s { v } else { v + 1 }] == e);
                }
                assert(list.len() == front.len());
                lists_all(front, cap, e);
            } else {
                assert(cap == 0 || list.len() == cap);
                if cap > 0 {
                    let worst = list[list.len() - 1];
                    if entry.0 < worst.0 {
                        let low = list.drop_last();
                        prefix_is_sorted(list);
                        slot_splits(low, entry);
                        let s = slot(low, entry);
                        assert(out[s] == entry);
                        assert(e != entry);
                        assert(front[w] == e);
                        assert(front.contains(e));
                        if list.contains(e) {
                            let v = choose|v: int| 0 <= v < list.len() && list[v] == e;
                            if v < list.len() - 1 {
                                assert(low[v] == e);
                                assert(out[if v < s { v } else { v + 1 }] == e);
                            }
                            assert(e == worst);
                        } else {
                            assert(list[list.len() - 1].0 <= identity(e).0);
                        }
                        if x != entry {
                            assert(list.contains(x));
                            let u = choose|u: int| 0 <= u < list.len() && list[u] == x;
                            assert(list[u].rank() <= list[list.len() - 1].rank());
                        }
                    } else {
                        assert(list.contains(x));
                        assert(out == list);
                        if e == entry && !front.contains(e) {
                            assert(list[i].rank() <= list[list.len() - 1].rank());
                        } else {
                            if front.contains(e) {
                                assert(list[i].0 <= identity(e).0);
                            } else {
                                assert(w == entries.len() - 1) by {
                                    if w < front.len() {
                                        assert(front[w] == e);
                                    }
                                }
                            }
                        }
                    }
                }
            }
        }
    }
}

/// Names a value so that a quantifier can be instantiated at it.
pub open spec fn identity(entry: Scored) -> Scored {
    entry
}

proof fn out_member(list: Seq<Scored>, entry: Scored, cap: int)
    requires
        sorted(list),
        list.len() <= cap,
    ensures
        forall|i: int|
            0 <= i < offered(list, entry, cap).len() ==> list.contains(#[trigger] offered(list, entry, cap)[i])
                || offered(list, entry, cap)[i] == entry,
{
    offered_keeps_order(list, entry, cap);
    let out = offered(list, entry, cap);
    assert forall|i: int| 0 <= i < out.len() implies list.contains(#[trigger] out[i]) || out[i] == entry by {
        assert(out.contains(out[i]));
    }
}

/// A list that never filled up holds everything that was offered.
proof fn lists_all(entries: Seq<Scored>, cap: int, e: Scored)
    requires
        entries.len() < cap,
        entries.contains(e),
    ensures
        offered_all(Seq::empty(), entries, cap).contains(e),
    decreases entries.len(),
{
    let front = entries.drop_last();
    let entry = entries.last();
    offered_all_is_nearest(front, cap);
    let list = offered_all(Seq::empty(), front, cap);
    slot_splits(list, entry);
    let s = slot(list, entry);
    let out = offered(list, entry, cap);
    assert(out[s] == entry);
    if e != entry {
        let w = choose|w: int| 0 <= w < entries.len() && entries[w] == e;
        assert(front[w] == e);
        assert(front.contains(e));
        lists_all(front, cap, e);
        let v = choose|v: int| 0 <= v < list.len() && list[v] == e;
        assert(out[if v < s { v } else { v + 1 }] == e);
    }
}

/// The `k` nearest of a set of candidates, by `(distance, identifier)`.
pub fn nearest(entries: &Vec<Scored>, k: usize) -> (out: Vec<Scored>)
    ensures
        out@ == lowest(entries@, k as int),
{
    let mut out: Vec<Scored> = Vec::new();
    let mut i: usize = 0;
    assert(lowest(entries@.take(0), k as int) =~= Seq::<Scored>::empty()) by {
        assert(entries@.take(0) =~= Seq::<Scored>::empty());
    }
    while i < entries.len()
        invariant
            i <= entries@.len(),
            sorted(out@),
            out@.len() <= k,
            out@ == lowest(entries@.take(i as int), k as int),
        decreases entries@.len() - i,
    {
        proof {
            kept_is_lowest(entries@.take(i as int), entries@[i as int], k as int);
            assert(entries@.take(i + 1) =~= entries@.take(i as int).push(entries@[i as int]));
        }
        keep(&mut out, entries[i], k);
        i = i + 1;
    }
    assert(entries@.take(entries@.len() as int) =~= entries@);
    out
}

} // verus!
