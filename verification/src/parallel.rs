//! The calls into rayon that the sort makes, each behind a contract, and
//! the verified bucket-membership test that rayon's filter runs.

use vstd::prelude::*;
use rayon::iter::{IntoParallelRefIterator, ParallelIterator};
use rayon::slice::ParallelSliceMut;
use crate::order::sorted;
use crate::plan::bucket_of;

verus! {

/// Holds of the values that fall in the bucket at `index` of a plan with
/// lower extreme `lo` and bucket width `step`.
pub open spec fn bucket_pred(lo: i32, step: u64, index: usize) -> spec_fn(i32) -> bool {
    |x: i32| bucket_of(x as int, lo as int, step as int) == index as int
}

/// Decides whether a value belongs to the bucket at `index`.
pub fn in_bucket(value: i32, lo: i32, step: u64, index: usize) -> (r: bool)
    requires
        lo <= value,
        step >= 1,
    ensures
        r == bucket_pred(lo, step, index)(value),
{
    let diff: u64 = (value as i64 - lo as i64) as u64;
    diff / step == index as u64
}

/// Relies on rayon's `par_iter().min()`: the least element of the slice,
/// `None` only when the slice is empty.
#[verifier::external_body]
pub(crate) fn par_min(v: &Vec<i32>) -> (r: i32)
    requires
        v@.len() > 0,
    ensures
        v@.contains(r),
        forall|i: int| 0 <= i < v@.len() ==> r <= #[trigger] v@[i],
{
    *v.par_iter().min().unwrap()
}

/// Relies on rayon's `par_iter().max()`: the greatest element of the slice,
/// `None` only when the slice is empty.
#[verifier::external_body]
pub(crate) fn par_max(v: &Vec<i32>) -> (r: i32)
    requires
        v@.len() > 0,
    ensures
        v@.contains(r),
        forall|i: int| 0 <= i < v@.len() ==> #[trigger] v@[i] <= r,
{
    *v.par_iter().max().unwrap()
}

/// Relies on rayon's `par_sort_unstable`: sorts the slice ascending in
/// place, rearranging its elements and nothing more.
#[verifier::external_body]
pub(crate) fn par_sort(v: &mut Vec<i32>)
    ensures
        sorted(final(v)@),
        final(v)@.to_multiset() == old(v)@.to_multiset(),
{
    v.par_sort_unstable();
}

/// Relies on rayon's `par_iter`, `filter` and `collect`: the collected
/// vector holds exactly the elements the predicate accepts, each as often
/// as it occurs in the input.
#[verifier::external_body]
pub(crate) fn par_filter_bucket(v: &Vec<i32>, lo: i32, step: u64, index: usize) -> (r: Vec<i32>)
    requires
        step >= 1,
        forall|i: int| 0 <= i < v@.len() ==> lo <= #[trigger] v@[i],
    ensures
        r@.to_multiset() == v@.filter(bucket_pred(lo, step, index)).to_multiset(),
{
    v.par_iter()
        .cloned()
        .filter(|value| in_bucket(*value, lo, step, index))
        .collect::<Vec<i32>>()
}

} // verus!
