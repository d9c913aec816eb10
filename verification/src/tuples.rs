//! Lexicographic order of attribute tuples.

use vstd::prelude::*;

verus! {

/// Where one tuple stands relative to another of the same length.
#[derive(Clone, Copy, Debug, PartialEq, Eq, Structural)]
pub enum Side {
    Before,
    Same,
    After,
}

/// The tuples agree up to position `i` and differ there.
pub open spec fn differ_first_at(a: Seq<u32>, b: Seq<u32>, i: int) -> bool {
    &&& 0 <= i < a.len()
    &&& i < b.len()
    &&& a[i] != b[i]
    &&& forall|m: int| 0 <= m < i ==> a[m] == b[m]
}

/// `a` comes before `b`: it has the smaller value where they first differ.
pub open spec fn lex_less(a: Seq<u32>, b: Seq<u32>) -> bool {
    exists|i: int| #[trigger] differ_first_at(a, b, i) && a[i] < b[i]
}

/// Two tuples do not each come before the other.
pub proof fn lex_less_is_asymmetric(a: Seq<u32>, b: Seq<u32>)
    requires
        lex_less(a, b),
    ensures
        !lex_less(b, a),
        a != b,
{
    let i = choose|i: int| #[trigger] differ_first_at(a, b, i) && a[i] < b[i];
    if lex_less(b, a) {
        let j = choose|j: int| #[trigger] differ_first_at(b, a, j) && b[j] < a[j];
        if i < j {
            assert(b[i] == a[i]);
        } else if j < i {
            assert(a[j] == b[j]);
        }
    }
}

/// The order of tuples is transitive.
pub proof fn lex_less_is_transitive(a: Seq<u32>, b: Seq<u32>, c: Seq<u32>)
    requires
        a.len() == b.len() == c.len(),
        lex_less(a, b),
        lex_less(b, c),
    ensures
        lex_less(a, c),
{
    let i = choose|i: int| #[trigger] differ_first_at(a, b, i) && a[i] < b[i];
    let j = choose|j: int| #[trigger] differ_first_at(b, c, j) && b[j] < c[j];
    let m = if i < j { i } else { j };
    assert forall|p: int| 0 <= p < m implies a[p] == c[p] by {
        assert(a[p] == b[p]);
        assert(b[p] == c[p]);
    }
    if i < j {
        assert(b[i] == c[i]);
    } else if j < i {
        assert(a[j] == b[j]);
    }
    assert(differ_first_at(a, c, m) && a[m] < c[m]);
}

/// Compares two tuples of the same length.
pub fn side_of(a: &[u32], b: &[u32]) -> (side: Side)
    requires
        a@.len() == b@.len(),
    ensures
        side == Side::Before <==> lex_less(a@, b@),
        side == Side::Same <==> a@ == b@,
        side == Side::After <==> lex_less(b@, a@),
{
    let mut i: usize = 0;
    while i < a.len()
        invariant
            i <= a@.len(),
            a@.len() == b@.len(),
            forall|m: int| 0 <= m < i ==> a@[m] == b@[m],
        decreases a@.len() - i,
    {
        if a[i] != b[i] {
            proof {
                assert(differ_first_at(a@, b@, i as int));
                assert(differ_first_at(b@, a@, i as int));
                if a@[i as int] < b@[i as int] {
                    assert(lex_less(a@, b@));
                    lex_less_is_asymmetric(a@, b@);
                } else {
                    assert(lex_less(b@, a@));
                    lex_less_is_asymmetric(b@, a@);
                }
            }
            if a[i] < b[i] {
                return Side::Before;
            } else {
                return Side::After;
            }
        }
        i = i + 1;
    }
    proof {
        assert(a@ =~= b@);
        if lex_less(a@, b@) {
            lex_less_is_asymmetric(a@, b@);
        }
    }
    Side::Same
}

} // verus!
