//! The bucket sort itself: route every element to its bucket, sort each
//! bucket, and concatenate the buckets in index order.

use vstd::prelude::*;
use vstd::seq_lib::lemma_multiset_commutative;
use crate::order::{lemma_sorted_concat, sorted};
use crate::parallel::{bucket_pred, par_filter_bucket, par_max, par_min, par_sort};
use crate::plan::{
    bucket_of, compute_step, lemma_bucket_in_range, lemma_bucket_order, num_buckets, step_for,
};

verus! {

/// Holds of the values whose bucket lies strictly below `bound`.
pub open spec fn below_pred(lo: i32, step: u64, bound: int) -> spec_fn(i32) -> bool {
    |x: i32| bucket_of(x as int, lo as int, step as int) < bound
}

/// Filtering with a predicate that accepts every element of the sequence
/// returns the sequence itself.
proof fn lemma_filter_all(s: Seq<i32>, pred: spec_fn(i32) -> bool)
    requires
        forall|i: int| 0 <= i < s.len() ==> pred(#[trigger] s[i]),
    ensures
        s.filter(pred) == s,
    decreases s.len(),
{
    reveal(Seq::filter);
    if s.len() > 0 {
        lemma_filter_all(s.drop_last(), pred);
        assert(s.drop_last().push(s.last()) =~= s);
    }
}

/// Filtering with a predicate that rejects every element of the sequence
/// returns the empty sequence.
proof fn lemma_filter_none(s: Seq<i32>, pred: spec_fn(i32) -> bool)
    requires
        forall|i: int| 0 <= i < s.len() ==> !pred(#[trigger] s[i]),
    ensures
        s.filter(pred) == Seq::<i32>::empty(),
    decreases s.len(),
{
    reveal(Seq::filter);
    if s.len() > 0 {
        lemma_filter_none(s.drop_last(), pred);
        assert(s.filter(pred) =~= Seq::<i32>::empty());
    } else {
        assert(s.filter(pred) =~= Seq::<i32>::empty());
    }
}

/// Splitting a filter at one bucket: the values below bucket `i + 1` are
/// the values below bucket `i` together with the values at exactly `i`.
proof fn lemma_filter_split(s: Seq<i32>, lo: i32, step: u64, i: usize)
    ensures
        s.filter(below_pred(lo, step, i + 1)).to_multiset() == s.filter(
            below_pred(lo, step, i as int),
        ).to_multiset().add(s.filter(bucket_pred(lo, step, i)).to_multiset()),
    decreases s.len(),
{
    reveal(Seq::filter);
    broadcast use vstd::seq_lib::group_to_multiset_ensures;
    broadcast use vstd::multiset::group_multiset_axioms;

    let all = below_pred(lo, step, i + 1);
    let below = below_pred(lo, step, i as int);
    let at = bucket_pred(lo, step, i);
    if s.len() > 0 {
        let t = s.drop_last();
        let x = s.last();
        lemma_filter_split(t, lo, step, i);
        if bucket_of(x as int, lo as int, step as int) < i as int {
            assert(t.filter(below).to_multiset().insert(x).add(t.filter(at).to_multiset())
                =~= t.filter(below).to_multiset().add(t.filter(at).to_multiset()).insert(x));
        } else if bucket_of(x as int, lo as int, step as int) == i as int {
            assert(t.filter(below).to_multiset().add(t.filter(at).to_multiset().insert(x))
                =~= t.filter(below).to_multiset().add(t.filter(at).to_multiset()).insert(x));
        }
    }
}

/// Every element of a sequence whose multiset equals the multiset of a
/// filtered sequence satisfies the filter's predicate.
proof fn lemma_multiset_filter_members(b: Seq<i32>, s: Seq<i32>, pred: spec_fn(i32) -> bool)
    requires
        b.to_multiset() == s.filter(pred).to_multiset(),
    ensures
        forall|j: int| 0 <= j < b.len() ==> pred(#[trigger] b[j]),
{
    broadcast use vstd::seq_lib::group_to_multiset_ensures;

    let f = s.filter(pred);
    assert forall|j: int| 0 <= j < b.len() implies pred(#[trigger] b[j]) by {
        assert(b.contains(b[j]));
        assert(f.to_multiset().count(b[j]) > 0);
        assert(f.contains(b[j]));
        let k = choose|k: int| 0 <= k < f.len() && f[k] == b[j];
        s.lemma_filter_pred(pred, k);
    }
}

/// Sorts the vector ascending. The buckets of the plan partition the
/// input by value range; each bucket is filled and sorted through rayon,
/// and the buckets are concatenated in index order. The result carries
/// exactly the multiset of values of the input, in ascending order.
pub fn bucket_sort(vector: &mut Vec<i32>)
    ensures
        sorted(final(vector)@),
        final(vector)@.to_multiset() == old(vector)@.to_multiset(),
{
    let n = vector.len();
    if n <= 1 {
        return;
    }
    let lo = par_min(vector);
    let hi = par_max(vector);
    let nb = num_buckets(n);
    let step: u64 = compute_step(lo, hi, nb);
    let ghost orig: Seq<i32> = vector@;
    let mut result: Vec<i32> = Vec::new();
    proof {
        assert forall|j: int| 0 <= j < orig.len() implies !(below_pred(lo, step, 0)(
            #[trigger] orig[j],
        )) by {
            lemma_bucket_in_range(orig[j] as int, lo as int, hi as int, nb as int);
        }
        lemma_filter_none(orig, below_pred(lo, step, 0));
        assert(result@.to_multiset() =~= orig.filter(below_pred(lo, step, 0)).to_multiset());
    }
    let mut i: usize = 0;
    while i < nb
        invariant
            i <= nb,
            nb >= 1,
            step >= 1,
            step as int == step_for(lo as int, hi as int, nb as int),
            vector@ == orig,
            forall|j: int| 0 <= j < orig.len() ==> lo <= #[trigger] orig[j] && orig[j] <= hi,
            sorted(result@),
            forall|j: int|
                0 <= j < result@.len() ==> bucket_of(
                    #[trigger] result@[j] as int,
                    lo as int,
                    step as int,
                ) < i as int,
            result@.to_multiset() == orig.filter(below_pred(lo, step, i as int)).to_multiset(),
        decreases nb - i,
    {
        let mut bucket = par_filter_bucket(vector, lo, step, i);
        par_sort(&mut bucket);
        proof {
            lemma_multiset_filter_members(bucket@, orig, bucket_pred(lo, step, i));
            if result@.len() > 0 && bucket@.len() > 0 {
                assert(bucket_of(result@.last() as int, lo as int, step as int) < i as int);
                assert(bucket_pred(lo, step, i)(bucket@.first()));
                lemma_bucket_order(
                    result@.last() as int,
                    bucket@.first() as int,
                    lo as int,
                    step as int,
                );
            }
            lemma_sorted_concat(result@, bucket@);
            lemma_filter_split(orig, lo, step, i);
            lemma_multiset_commutative(result@, bucket@);
        }
        result.append(&mut bucket);
        i = i + 1;
    }
    proof {
        assert forall|j: int| 0 <= j < orig.len() implies below_pred(lo, step, nb as int)(
            #[trigger] orig[j],
        ) by {
            lemma_bucket_in_range(orig[j] as int, lo as int, hi as int, nb as int);
        }
        lemma_filter_all(orig, below_pred(lo, step, nb as int));
    }
    *vector = result;
}

} // verus!
