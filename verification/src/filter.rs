//! Conjunctive attribute filters.

use vstd::prelude::*;
use crate::error::{invalid_input, refused_input, PrismResult};
use crate::order::{ascending, ascending_is_sorted, ascending_set, common, holds};
use crate::point::PointStore;

verus! {

/// One condition per entry: an attribute and the values it may have.
pub type Constraint = (usize, Vec<u32>);

/// Every condition on attribute `j` allows the value `v`.
pub open spec fn permits(constraints: Seq<Constraint>, j: usize, v: u32) -> bool {
    forall|i: int|
        0 <= i < constraints.len() && (#[trigger] constraints[i]).0 == j ==> constraints[i].1@.contains(v)
}

/// Some condition is on attribute `j`.
pub open spec fn mentions(constraints: Seq<Constraint>, j: usize) -> bool {
    exists|i: int| 0 <= i < constraints.len() && (#[trigger] constraints[i]).0 == j
}

/// An attribute tuple meets every condition.  A condition on an attribute that
/// the tuple lacks is not met.
pub open spec fn tuple_passes(constraints: Seq<Constraint>, tuple: Seq<u32>) -> bool {
    forall|i: int|
        0 <= i < constraints.len() ==> (#[trigger] constraints[i]).0 < tuple.len()
            && constraints[i].1@.contains(tuple[constraints[i].0 as int])
}

/// Every constrained attribute is below `k`.
pub open spec fn within_schema(constraints: Seq<Constraint>, k: int) -> bool {
    forall|i: int| 0 <= i < constraints.len() ==> (#[trigger] constraints[i]).0 < k
}

/// Attributes ascend, and so do the values of each.
pub open spec fn canonical(constraints: Seq<Constraint>) -> bool {
    &&& forall|i: int, j: int|
        0 <= i < j < constraints.len() ==> (#[trigger] constraints[i]).0 < (#[trigger] constraints[j]).0
    &&& forall|i: int| 0 <= i < constraints.len() ==> ascending((#[trigger] constraints[i]).1@)
}

/// A conjunction of conditions, one per attribute, each listing the values
/// that the attribute may have.
#[derive(Clone, Debug)]
pub struct Filter {
    pub constraints: Vec<Constraint>,
}

impl Filter {
    /// What holds of every valid value.
    pub open spec fn wf(&self) -> bool {
        canonical(self.constraints@)
    }

    /// Point `id` of `store` passes.
    pub open spec fn passes(&self, store: &PointStore, id: int) -> bool {
        0 <= id < store.len && tuple_passes(self.constraints@, store.tuple(id))
    }

    /// A filter from any list of conditions.  Several conditions on one
    /// attribute all have to hold.
    pub fn new(constraints: Vec<Constraint>) -> (filter: Filter)
        ensures
            filter.wf(),
            forall|j: usize| mentions(filter.constraints@, j) <==> mentions(constraints@, j),
            forall|j: usize, v: u32|
                permits(filter.constraints@, j, v) <==> permits(constraints@, j, v),
    {
        let mut normalized: Vec<Constraint> = Vec::new();
        let mut n: usize = 0;
        while n < constraints.len()
            invariant
                n <= constraints@.len(),
                canonical(normalized@),
                forall|j: usize| mentions(normalized@, j) <==> mentions(constraints@.take(n as int), j),
                forall|j: usize, v: u32|
                    permits(normalized@, j, v) <==> permits(constraints@.take(n as int), j, v),
            decreases constraints@.len() - n,
        {
            let j: usize = constraints[n].0;
            let allowed = ascending_set(constraints[n].1.as_slice());
            let mut at: usize = 0;
            while at < normalized.len() && normalized[at].0 < j
                invariant
                    at <= normalized@.len(),
                    forall|i: int| 0 <= i < at ==> (#[trigger] normalized@[i]).0 < j,
                decreases normalized@.len() - at,
            {
                at = at + 1;
            }
            let ghost before = normalized@;
            let ghost seen = constraints@.take(n as int);
            let ghost next = constraints@.take(n + 1);
            proof {
                assert(next =~= seen.push(constraints@[n as int]));
            }
            if at < normalized.len() && normalized[at].0 == j {
                let both = common(normalized[at].1.as_slice(), allowed.as_slice());
                normalized.set(at, (j, both));
                proof {
                    assert(ascending(before[at as int].1@));
                    narrowed(before, normalized@, seen, constraints@[n as int], at as int);
                }
            } else {
                normalized.insert(at, (j, allowed));
                proof {
                    assert(at < before.len() ==> j < before[at as int].0);
                    extended(before, normalized@, seen, constraints@[n as int], at as int);
                }
            }
            n = n + 1;
        }
        proof {
            assert(constraints@.take(constraints@.len() as int) =~= constraints@);
        }
        Filter { constraints: normalized }
    }

    /// The filter that every point passes.
    pub fn none() -> (filter: Filter)
        ensures
            filter.wf(),
            filter.constraints@.len() == 0,
    {
        Filter { constraints: Vec::new() }
    }

    /// The filter that asks for one value of one attribute.
    pub fn eq(j: usize, val: u32) -> (filter: Filter)
        ensures
            filter.wf(),
            filter.constraints@.len() == 1,
            filter.constraints@[0].0 == j,
            filter.constraints@[0].1@ == seq![val],
    {
        let mut values: Vec<u32> = Vec::new();
        values.push(val);
        let mut constraints: Vec<Constraint> = Vec::new();
        constraints.push((j, values));
        Filter { constraints }
    }

    /// Number of constrained attributes.
    pub fn strength(&self) -> (count: usize)
        ensures
            count == self.constraints@.len(),
    {
        self.constraints.len()
    }

    /// Whether point `id` passes.
    pub fn matches(&self, store: &PointStore, id: u32) -> (answer: bool)
        requires
            self.wf(),
            store.wf(),
        ensures
            answer == self.passes(store, id as int),
    {
        if id as usize >= store.len() {
            return false;
        }
        let mut i: usize = 0;
        while i < self.constraints.len()
            invariant
                i <= self.constraints@.len(),
                self.wf(),
                store.wf(),
                id < store.len,
                forall|c: int|
                    0 <= c < i ==> (#[trigger] self.constraints@[c]).0 < store.tuple(id as int).len()
                        && self.constraints@[c].1@.contains(
                        store.tuple(id as int)[self.constraints@[c].0 as int],
                    ),
            decreases self.constraints@.len() - i,
        {
            let j: usize = self.constraints[i].0;
            let ghost here = self.constraints@[i as int];
            match store.attr(id, j) {
                None => {
                    assert(!(here.0 < store.tuple(id as int).len()));
                    return false;
                },
                Some(value) => {
                    proof {
                        ascending_is_sorted(here.1@);
                        assert(store.tuple(id as int)[here.0 as int] == value);
                    }
                    if !holds(self.constraints[i].1.as_slice(), value) {
                        return false;
                    }
                },
            }
            i = i + 1;
        }
        true
    }

    /// The conditions, by ascending attribute.
    pub fn constraints(&self) -> (constraints: &[Constraint])
        ensures
            constraints@ == self.constraints@,
    {
        self.constraints.as_slice()
    }

    /// Checks that every constrained attribute exists.
    pub fn validate(&self, num_attributes: usize) -> (result: PrismResult<()>)
        ensures
            result is Ok <==> within_schema(self.constraints@, num_attributes as int),
            result is Err ==> refused_input(result),
    {
        let mut i: usize = 0;
        while i < self.constraints.len()
            invariant
                i <= self.constraints@.len(),
                forall|c: int| 0 <= c < i ==> (#[trigger] self.constraints@[c]).0 < num_attributes,
            decreases self.constraints@.len() - i,
        {
            if self.constraints[i].0 >= num_attributes {
                assert(!(self.constraints@[i as int].0 < num_attributes));
                return Err(invalid_input("attribute index is out of range"));
            }
            i = i + 1;
        }
        Ok(())
    }
}

proof fn narrowed(
    before: Seq<Constraint>,
    after: Seq<Constraint>,
    seen: Seq<Constraint>,
    extra: Constraint,
    at: int,
)
    requires
        canonical(before),
        0 <= at < before.len(),
        before[at].0 == extra.0,
        after.len() == before.len(),
        forall|i: int| 0 <= i < before.len() && i != at ==> #[trigger] after[i] == before[i],
        after[at].0 == extra.0,
        ascending(after[at].1@),
        forall|v: u32|
            #![trigger after[at].1@.contains(v)]
            after[at].1@.contains(v) <==> before[at].1@.contains(v) && extra.1@.contains(v),
        forall|j: usize| mentions(before, j) <==> mentions(seen, j),
        forall|j: usize, v: u32| permits(before, j, v) <==> permits(seen, j, v),
    ensures
        canonical(after),
        forall|j: usize| mentions(after, j) <==> mentions(seen.push(extra), j),
        forall|j: usize, v: u32| permits(after, j, v) <==> permits(seen.push(extra), j, v),
{
    let next = seen.push(extra);
    assert forall|i: int, j: int| 0 <= i < j < after.len() implies (#[trigger] after[i]).0 < (#[trigger] after[j]).0 by {
        assert(before[i].0 < before[j].0);
    }
    assert forall|j: usize| mentions(after, j) <==> mentions(next, j) by {
        mentions_push(seen, extra, j);
        if mentions(before, j) {
            let w = choose|w: int| 0 <= w < before.len() && (#[trigger] before[w]).0 == j;
            assert(after[w].0 == j);
        }
        if mentions(after, j) {
            let w = choose|w: int| 0 <= w < after.len() && (#[trigger] after[w]).0 == j;
            assert(before[w].0 == j);
        }
        if j == extra.0 {
            assert(before[at].0 == j);
        }
    }
    assert forall|j: usize, v: u32| permits(after, j, v) <==> permits(next, j, v) by {
        permits_push(seen, extra, j, v);
        assert(after[at].0 == extra.0);
        if permits(after, j, v) {
            assert forall|i: int| 0 <= i < before.len() && (#[trigger] before[i]).0 == j implies before[i].1@.contains(v) by {
                assert(after[i].0 == j);
            }
            if j == extra.0 {
                assert(after[at].1@.contains(v));
            }
        }
        if permits(before, j, v) && (j == extra.0 ==> extra.1@.contains(v)) {
            assert forall|i: int| 0 <= i < after.len() && (#[trigger] after[i]).0 == j implies after[i].1@.contains(v) by {
                assert(before[i].0 == j);
                assert(before[i].1@.contains(v));
            }
        }
    }
}

proof fn extended(
    before: Seq<Constraint>,
    after: Seq<Constraint>,
    seen: Seq<Constraint>,
    extra: Constraint,
    at: int,
)
    requires
        canonical(before),
        0 <= at <= before.len(),
        forall|i: int| 0 <= i < at ==> (#[trigger] before[i]).0 < extra.0,
        at < before.len() ==> extra.0 < before[at].0,
        after.len() == before.len() + 1,
        after == before.insert(at, after[at]),
        after[at].0 == extra.0,
        ascending(after[at].1@),
        forall|v: u32| #![trigger after[at].1@.contains(v)] after[at].1@.contains(v) <==> extra.1@.contains(v),
        forall|j: usize| mentions(before, j) <==> mentions(seen, j),
        forall|j: usize, v: u32| permits(before, j, v) <==> permits(seen, j, v),
    ensures
        canonical(after),
        forall|j: usize| mentions(after, j) <==> mentions(seen.push(extra), j),
        forall|j: usize, v: u32| permits(after, j, v) <==> permits(seen.push(extra), j, v),
{
    let next = seen.push(extra);
    assert forall|i: int| 0 <= i < after.len() && i != at implies #[trigger] after[i] == before[if i < at { i } else { i - 1 }] by {
    }
    assert forall|i: int, j: int| 0 <= i < j < after.len() implies (#[trigger] after[i]).0 < (#[trigger] after[j]).0 by {
        let p = if i < at { i } else { i - 1 };
        let q = if j < at { j } else { j - 1 };
        if i != at && j != at {
            assert(before[p].0 < before[q].0);
        } else if i == at {
            assert(extra.0 < before[q].0) by {
                if q > at {
                    assert(before[at].0 < before[q].0);
                }
            }
        }
    }
    assert forall|i: int| 0 <= i < after.len() implies ascending((#[trigger] after[i]).1@) by {
        if i != at {
            assert(ascending(before[if i < at { i } else { i - 1 }].1@));
        }
    }
    assert forall|j: usize| mentions(after, j) <==> mentions(next, j) by {
        mentions_push(seen, extra, j);
        if mentions(before, j) {
            let w = choose|w: int| 0 <= w < before.len() && (#[trigger] before[w]).0 == j;
            assert(after[if w < at { w } else { w + 1 }].0 == j);
        }
        if mentions(after, j) && j != extra.0 {
            let w = choose|w: int| 0 <= w < after.len() && (#[trigger] after[w]).0 == j;
            assert(before[if w < at { w } else { w - 1 }].0 == j);
        }
        assert(after[at].0 == extra.0);
    }
    assert forall|j: usize, v: u32| permits(after, j, v) <==> permits(next, j, v) by {
        permits_push(seen, extra, j, v);
        if permits(after, j, v) {
            assert forall|i: int| 0 <= i < before.len() && (#[trigger] before[i]).0 == j implies before[i].1@.contains(v) by {
                assert(after[if i < at { i } else { i + 1 }].0 == j);
            }
            if j == extra.0 {
                assert(after[at].1@.contains(v));
            }
        }
        if permits(before, j, v) && (j == extra.0 ==> extra.1@.contains(v)) {
            assert forall|i: int| 0 <= i < after.len() && (#[trigger] after[i]).0 == j implies after[i].1@.contains(v) by {
                if i == at {
                    assert(after[at].1@.contains(v));
                } else {
                    assert(before[if i < at { i } else { i - 1 }].0 == j);
                }
            }
        }
    }
}

proof fn mentions_push(seen: Seq<Constraint>, extra: Constraint, j: usize)
    ensures
        mentions(seen.push(extra), j) <==> mentions(seen, j) || extra.0 == j,
{
    let next = seen.push(extra);
    if mentions(seen, j) {
        let w = choose|w: int| 0 <= w < seen.len() && (#[trigger] seen[w]).0 == j;
        assert(next[w].0 == j);
    }
    if extra.0 == j {
        assert(next[seen.len() as int].0 == j);
    }
    if mentions(next, j) && extra.0 != j {
        let w = choose|w: int| 0 <= w < next.len() && (#[trigger] next[w]).0 == j;
        assert(seen[w].0 == j);
    }
}

proof fn permits_push(seen: Seq<Constraint>, extra: Constraint, j: usize, v: u32)
    ensures
        permits(seen.push(extra), j, v) <==> permits(seen, j, v) && (extra.0 == j
            ==> extra.1@.contains(v)),
{
    let next = seen.push(extra);
    if permits(next, j, v) {
        assert forall|i: int| 0 <= i < seen.len() && (#[trigger] seen[i]).0 == j implies seen[i].1@.contains(v) by {
            assert(next[i].0 == j);
        }
        assert(next[seen.len() as int] == extra);
    }
    if permits(seen, j, v) && (extra.0 == j ==> extra.1@.contains(v)) {
        assert forall|i: int| 0 <= i < next.len() && (#[trigger] next[i]).0 == j implies next[i].1@.contains(v) by {
            if i < seen.len() {
                assert(seen[i].0 == j);
            }
        }
    }
}

/// Putting conditions into canonical form changes nothing about which
/// attribute tuples pass: with IN within an attribute and AND across
/// conditions, a tuple passes the filter exactly when it passes every
/// condition that the filter was made from.
pub proof fn canonical_form_keeps_meaning(
    constraints: Seq<Constraint>,
    normal: Seq<Constraint>,
    tuple: Seq<u32>,
)
    requires
        forall|j: usize| mentions(normal, j) <==> mentions(constraints, j),
        forall|j: usize, v: u32| permits(normal, j, v) <==> permits(constraints, j, v),
    ensures
        tuple_passes(normal, tuple) <==> tuple_passes(constraints, tuple),
{
    if tuple_passes(normal, tuple) {
        passing_transfers(normal, constraints, tuple);
    }
    if tuple_passes(constraints, tuple) {
        passing_transfers(constraints, normal, tuple);
    }
}

proof fn passing_transfers(from: Seq<Constraint>, to: Seq<Constraint>, tuple: Seq<u32>)
    requires
        tuple_passes(from, tuple),
        forall|j: usize| mentions(to, j) <==> mentions(from, j),
        forall|j: usize, v: u32| permits(to, j, v) <==> permits(from, j, v),
    ensures
        tuple_passes(to, tuple),
{
    assert forall|i: int| 0 <= i < to.len() implies (#[trigger] to[i]).0 < tuple.len() && to[i].1@.contains(
        tuple[to[i].0 as int],
    ) by {
        let j = to[i].0;
        assert(mentions(to, j));
        assert(mentions(from, j));
        let w = choose|w: int| 0 <= w < from.len() && (#[trigger] from[w]).0 == j;
        assert(from[w].0 < tuple.len());
        let v = tuple[j as int];
        assert(permits(from, j, v)) by {
            assert forall|c: int| 0 <= c < from.len() && (#[trigger] from[c]).0 == j implies from[c].1@.contains(v) by {
            }
        }
        assert(permits(to, j, v));
    }
}

} // verus!
