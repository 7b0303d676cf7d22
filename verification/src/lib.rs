//! Three interchangeable sorts over any totally ordered element type:
//! insertion sort, quicksort and merge sort. The two divide-and-conquer
//! sorts run their halves on scoped threads.
//!
//! Every entry point is proved to return a permutation of its input, and to
//! return it in ascending order whenever the element type's comparison is a
//! total order. Under such an order each sort also states its exact result,
//! which settles where elements that compare equal come to stand: insertion
//! sort and merge sort leave them in the order they came in, quicksort may
//! not.
//!
//! Beside the sorts stands `rot`, the rotation of ASCII letters through the
//! alphabet.
use vstd::prelude::*;

pub mod insertionsort;
pub mod mergesort;
pub mod order;
pub mod quicksort;
pub mod rot;
pub mod slice_ops;

verus! {

use crate::order::{permutation, sorted, ties_identical, ties_of, total_order};

/// Sorts the slice in place by quicksort, splitting around the middle element
/// and sorting the two sides concurrently. An ascending slice comes back
/// unchanged where its equal elements are the same value.
pub fn qsort<T: Ord + Send>(list: &mut [T])
    ensures
        permutation(old(list)@, final(list)@),
        final(list)@.len() == old(list)@.len(),
        total_order::<T>() ==> sorted(final(list)@),
        old(list)@.len() <= 1 ==> final(list)@ == old(list)@,
        total_order::<T>() && sorted(old(list)@) && ties_identical(old(list)@) ==> final(list)@ == old(list)@,
        total_order::<T>() ==> final(list)@ == quicksort::quick_sorted(old(list)@),
{
    quicksort::sort(list);
}

/// Sorts the vector in place by merge sort, without copying an element.
pub fn msort<T: Ord + Send>(list: &mut Vec<T>)
    ensures
        permutation(old(list)@, final(list)@),
        final(list)@.len() == old(list)@.len(),
        total_order::<T>() ==> sorted(final(list)@),
        old(list)@.len() <= 1 ==> final(list)@ == old(list)@,
        total_order::<T>() && sorted(old(list)@) ==> final(list)@ == old(list)@,
        total_order::<T>() ==> final(list)@ == mergesort::merge_sorted(old(list)@),
        total_order::<T>() ==> forall|x: T| #[trigger] ties_of(final(list)@, x) == ties_of(old(list)@, x),
{
    mergesort::sort(list);
}

/// Returns the elements of the vector in ascending order, by merge sort.
pub fn msort_vec<T: Ord + Send>(list: Vec<T>) -> (out: Vec<T>)
    ensures
        permutation(list@, out@),
        out@.len() == list@.len(),
        total_order::<T>() ==> sorted(out@),
        list@.len() <= 1 ==> out@ == list@,
        total_order::<T>() && sorted(list@) ==> out@ == list@,
        total_order::<T>() ==> out@ == mergesort::merge_sorted(list@),
        total_order::<T>() ==> forall|x: T| #[trigger] ties_of(out@, x) == ties_of(list@, x),
{
    mergesort::sort_vec(list)
}

/// Sorts the slice in place by binary insertion.
pub fn inssort<T: Ord>(list: &mut [T])
    ensures
        permutation(old(list)@, final(list)@),
        final(list)@.len() == old(list)@.len(),
        total_order::<T>() ==> sorted(final(list)@),
        old(list)@.len() <= 1 ==> final(list)@ == old(list)@,
        total_order::<T>() && sorted(old(list)@) ==> final(list)@ == old(list)@,
        total_order::<T>() ==> final(list)@ == insertionsort::inserted(old(list)@, old(list)@.len()),
        total_order::<T>() ==> forall|x: T| #[trigger] ties_of(final(list)@, x) == ties_of(old(list)@, x),
{
    insertionsort::sort(list)
}

} // verus!
