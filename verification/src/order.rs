//! What it means for a sequence to be sorted, and the facts about sorted
//! sequences that the bucket sort's proof and its callers rely on.

use vstd::prelude::*;
use vstd::relations::{sorted_by, total_ordering};
use vstd::seq_lib::lemma_sorted_unique;

verus! {

/// A sequence is sorted when every adjacent pair is in ascending order.
pub open spec fn sorted(s: Seq<i32>) -> bool {
    forall|i: int| 0 <= i < s.len() - 1 ==> #[trigger] s[i] <= s[i + 1]
}

/// In a sorted sequence, an earlier element never exceeds a later one.
pub proof fn lemma_sorted_pairwise(s: Seq<i32>, i: int, j: int)
    requires
        sorted(s),
        0 <= i <= j < s.len(),
    ensures
        s[i] <= s[j],
    decreases j - i,
{
    if i < j {
        lemma_sorted_pairwise(s, i, j - 1);
        assert(s[j - 1] <= s[j]);
    }
}

/// Concatenating two sorted sequences is sorted when the boundary pair is
/// in order.
pub proof fn lemma_sorted_concat(a: Seq<i32>, b: Seq<i32>)
    requires
        sorted(a),
        sorted(b),
        a.len() > 0 && b.len() > 0 ==> a.last() <= b.first(),
    ensures
        sorted(a + b),
{
    let c = a + b;
    assert forall|i: int| 0 <= i < c.len() - 1 implies #[trigger] c[i] <= c[i + 1] by {
        if i + 1 < a.len() {
            assert(c[i] == a[i] && c[i + 1] == a[i + 1]);
        } else if i >= a.len() {
            assert(c[i] == b[i - a.len()] && c[i + 1] == b[i + 1 - a.len()]);
        } else {
            assert(c[i] == a.last() && c[i + 1] == b.first());
        }
    }
}

/// A sorted rearrangement is unique: two sorted sequences over the same
/// multiset of values are equal. In particular, sorting is idempotent —
/// a sorted result fed through the sort again comes back unchanged — and
/// any two sorts of the same input agree.
pub proof fn lemma_sorted_unique_i32(a: Seq<i32>, b: Seq<i32>)
    requires
        sorted(a),
        sorted(b),
        a.to_multiset() == b.to_multiset(),
    ensures
        a == b,
{
    let leq = (|x: i32, y: i32| x <= y);
    assert forall|i: int, j: int| 0 <= i < j < a.len() implies #[trigger] leq(a[i], a[j]) by {
        lemma_sorted_pairwise(a, i, j);
    }
    assert forall|i: int, j: int| 0 <= i < j < b.len() implies #[trigger] leq(b[i], b[j]) by {
        lemma_sorted_pairwise(b, i, j);
    }
    assert(sorted_by(a, leq));
    assert(sorted_by(b, leq));
    assert(total_ordering(leq));
    lemma_sorted_unique(a, b, leq);
    assert(a =~= b);
}

/// Checks that every adjacent pair of the vector is in ascending order.
pub fn is_sorted(v: &Vec<i32>) -> (r: bool)
    ensures
        r == sorted(v@),
{
    let n = v.len();
    let mut i: usize = 1;
    while i < n
        invariant
            n == v@.len(),
            1 <= i,
            i <= n || i == 1,
            forall|j: int| 0 <= j < i - 1 ==> #[trigger] v@[j] <= v@[j + 1],
        decreases n - i,
    {
        if v[i - 1] > v[i] {
            proof {
                assert(v@[i - 1] > v@[i as int]);
            }
            return false;
        }
        i = i + 1;
    }
    true
}

} // verus!
