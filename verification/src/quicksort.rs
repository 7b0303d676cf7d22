//! Quicksort, in place, with the two sides of each split sorted on threads
//! of their own.
use vstd::prelude::*;

verus! {

use crate::order::{is_le, le, lemma_le_reflexive, lemma_le_total, lemma_le_transitive, lemma_permutation_concat, lemma_permutation_member, lemma_sort_laws, lemma_sorted_concat, lt, permutation, sorted, ties_identical, total_order};
use crate::slice_ops::{lemma_swapped_permutation, swapped};

/// `s` is split at `at` around the element that stands there: nothing before
/// it is above that element, everything after it is strictly above.
pub open spec fn split_around<T: Ord>(s: Seq<T>, at: int) -> bool {
    &&& 0 <= at < s.len()
    &&& forall|k: int| 0 <= k < at ==> le(#[trigger] s[k], s[at])
    &&& forall|k: int| at < k < s.len() ==> lt(s[at], #[trigger] s[k])
}

/// The scan of a partition after it has looked at the first `j` elements:
/// the arrangement, and how many elements it has found that are not above the
/// last one. Each such element is exchanged with the first of those found
/// above it.
pub open spec fn scanned<T: Ord>(s: Seq<T>, j: nat) -> (Seq<T>, int)
    decreases j,
{
    if j == 0 {
        (s, 0)
    } else {
        let (t, i) = scanned(s, (j - 1) as nat);
        if le(t[j - 1], t[t.len() - 1]) {
            (swapped(t, i, j - 1), i + 1)
        } else {
            (t, i)
        }
    }
}

/// The partition of `s` around the element at `pivot_ind`, with its boundary:
/// that element goes to the end, the scan runs over all the others, and the
/// element is brought back to the boundary.
pub open spec fn partitioned<T: Ord>(s: Seq<T>, pivot_ind: int) -> (Seq<T>, int) {
    let end = s.len() - 1;
    let (t, i) = scanned(swapped(s, pivot_ind, end), end as nat);
    (swapped(t, i, end), i)
}

/// What the scan has achieved after `j` elements: the last element is where
/// it was, the elements found not above it stand in front, and those found
/// above it follow them.
pub proof fn lemma_scanned<T: Ord>(s: Seq<T>, j: nat)
    requires
        total_order::<T>(),
        j < s.len(),
    ensures
        ({
            let (t, i) = scanned(s, j);
            let pivot = s[s.len() - 1];
            &&& t.len() == s.len()
            &&& 0 <= i <= j
            &&& permutation(s, t)
            &&& t[t.len() - 1] == pivot
            &&& forall|k: int| 0 <= k < i ==> le(#[trigger] t[k], pivot)
            &&& forall|k: int| i <= k < j ==> lt(pivot, #[trigger] t[k])
        }),
    decreases j,
{
    if j > 0 {
        lemma_scanned(s, (j - 1) as nat);
        let (t, i) = scanned(s, (j - 1) as nat);
        let pivot = s[s.len() - 1];
        if le(t[j - 1], t[t.len() - 1]) {
            lemma_swapped_permutation(t, i, j - 1);
            let u = swapped(t, i, j - 1);
            assert forall|k: int| 0 <= k < i + 1 implies le(#[trigger] u[k], pivot) by {
                if k < i {
                    assert(u[k] == t[k]);
                }
            }
            assert forall|k: int| i + 1 <= k < j implies lt(pivot, #[trigger] u[k]) by {
                if k < j - 1 {
                    assert(u[k] == t[k]);
                } else {
                    assert(u[k] == t[i]);
                }
            }
        } else {
            lemma_le_total(t[j - 1], pivot);
        }
    }
}

/// A partition rearranges the sequence, puts the chosen element at the
/// boundary, and splits the sequence around it.
pub proof fn lemma_partitioned<T: Ord>(s: Seq<T>, pivot_ind: int)
    requires
        total_order::<T>(),
        0 <= pivot_ind < s.len(),
    ensures
        ({
            let (t, i) = partitioned(s, pivot_ind);
            &&& t.len() == s.len()
            &&& permutation(s, t)
            &&& t[i] == s[pivot_ind]
            &&& split_around(t, i)
        }),
{
    let end = s.len() - 1;
    let start = swapped(s, pivot_ind, end);
    lemma_swapped_permutation(s, pivot_ind, end);
    lemma_scanned(start, end as nat);
    let (u, i) = scanned(start, end as nat);
    lemma_swapped_permutation(u, i, end);
    let t = swapped(u, i, end);
    assert forall|k: int| i < k < t.len() implies lt(t[i], #[trigger] t[k]) by {
        if k == end {
            assert(t[k] == u[i]);
        } else {
            assert(t[k] == u[k]);
        }
    }
    assert forall|k: int| 0 <= k < i implies le(#[trigger] t[k], t[i]) by {
        assert(t[k] == u[k]);
    }
}

/// The first element is strictly below every other.
pub open spec fn head_lowest<T: Ord>(s: Seq<T>) -> bool {
    forall|k: int| 1 <= k < s.len() ==> lt(s[0], #[trigger] s[k])
}

/// The result of quicksort under a total order: a sequence of two or more
/// elements is partitioned around its middle element, and what stands before
/// the boundary and what stands from the boundary on are sorted in turn.
pub open spec fn quick_sorted<T: Ord>(s: Seq<T>) -> Seq<T>
    decreases s.len(), (if head_lowest(s) { 0nat } else { 1nat }),
    when total_order::<T>()
    via quick_sorted_decreases::<T>
{
    if s.len() <= 1 {
        s
    } else {
        let (t, i) = partitioned(s, s.len() as int / 2);
        quick_sorted(t.subrange(0, i)) + quick_sorted(t.subrange(i, t.len() as int))
    }
}

/// Both parts are shorter than the whole, but for a boundary of zero: then
/// the second part is the whole with its lowest element in front, which the
/// whole did not have there.
#[via_fn]
proof fn quick_sorted_decreases<T: Ord>(s: Seq<T>) {
    if s.len() > 1 {
        lemma_partitioned(s, s.len() as int / 2);
        lemma_second_part_smaller(s);
    }
}

/// Quicksort sorts: its result is ascending and holds what the input held.
pub proof fn lemma_quick_sorted<T: Ord>(s: Seq<T>)
    requires
        total_order::<T>(),
    ensures
        permutation(s, quick_sorted(s)),
        sorted(quick_sorted(s)),
    decreases s.len(), (if head_lowest(s) { 0nat } else { 1nat }),
{
    if s.len() > 1 {
        let p = s.len() as int / 2;
        lemma_partitioned(s, p);
        let (t, i) = partitioned(s, p);
        let low = t.subrange(0, i);
        let high = t.subrange(i, t.len() as int);
        lemma_second_part_smaller(s);
        lemma_quick_sorted(low);
        lemma_quick_sorted(high);
        assert(t =~= low + high);
        lemma_permutation_concat(low, high, quick_sorted(low), quick_sorted(high));
        lemma_sides_ordered(t, i, quick_sorted(low), quick_sorted(high));
        lemma_sorted_concat(quick_sorted(low), quick_sorted(high));
    }
}

/// Where the boundary of a partition is zero, the second part is the whole
/// with its lowest element in front, which the whole did not have there.
pub proof fn lemma_second_part_smaller<T: Ord>(s: Seq<T>)
    requires
        total_order::<T>(),
        s.len() > 1,
    ensures
        ({
            let (t, i) = partitioned(s, s.len() as int / 2);
            i == 0 ==> head_lowest(t.subrange(i, t.len() as int)) && !head_lowest(s)
        }),
{
    let p = s.len() as int / 2;
    lemma_partitioned(s, p);
    let (t, i) = partitioned(s, p);
    if i == 0 {
        let high = t.subrange(i, t.len() as int);
        assert(high =~= t);
        assert(head_lowest(high));
        if head_lowest(s) {
            lemma_permutation_member(t, s, 0);
            let k = choose|k: int| 0 <= k < t.len() && t[k] == s[0];
            lemma_le_reflexive(s[0]);
            lemma_le_total(s[0], s[0]);
            if k == 0 {
                assert(lt(s[0], s[p]));
            } else {
                assert(lt(t[0], t[k]));
                lemma_le_total(s[0], s[p]);
                lemma_le_total(s[p], s[0]);
            }
            assert(false);
        }
    }
}

/// Sorts the slice in place. A slice of two or more elements is split around
/// its middle element, and the part before the boundary and the part from the
/// boundary on are sorted concurrently.
///
/// Elements that compare equal may change their order, so an ascending slice
/// is promised back unchanged only where such elements are the same value.
/// Under a total order the recursion ends, by the measure of `quick_sorted`;
/// for an `Ord` that is no total order nothing bounds it.
pub fn sort<T: Ord + Send>(list: &mut [T])
    ensures
        permutation(old(list)@, final(list)@),
        final(list)@.len() == old(list)@.len(),
        total_order::<T>() ==> sorted(final(list)@),
        old(list)@.len() <= 1 ==> final(list)@ == old(list)@,
        total_order::<T>() && sorted(old(list)@) && ties_identical(old(list)@) ==> final(list)@ == old(list)@,
        total_order::<T>() ==> final(list)@ == quick_sorted(old(list)@),
{
    let ghost before = list@;
    if list.len() > 1 {
        let pivot_pos = find_pivot(list);
        let separator = partition(list, pivot_pos);
        let ghost mid = list@;
        let (prior, latter) = list.split_at_mut(separator);
        let ghost low = prior@;
        let ghost high = latter@;
        sort_both(prior, latter);
        proof {
            assert(mid =~= low + high);
            lemma_permutation_concat(low, high, prior@, latter@);
            if total_order::<T>() {
                lemma_quick_sorted(low);
                lemma_quick_sorted(high);
                lemma_sides_ordered(mid, separator as int, prior@, latter@);
                lemma_sorted_concat(prior@, latter@);
                assert(low == mid.subrange(0, separator as int));
                assert(high == mid.subrange(separator as int, mid.len() as int));
                assert(partitioned(before, before.len() as int / 2) == (mid, separator as int));
            }
        }
    } else {
        proof {
            assert(sorted(list@));
        }
    }
    proof {
        lemma_sort_laws(before, list@);
    }
}

/// After a split, however the two sides are rearranged, no element of the
/// first is above any element of the second.
pub proof fn lemma_sides_ordered<T: Ord>(s: Seq<T>, at: int, low: Seq<T>, high: Seq<T>)
    requires
        total_order::<T>(),
        split_around(s, at),
        permutation(s.subrange(0, at), low),
        permutation(s.subrange(at, s.len() as int), high),
    ensures
        forall|i: int, j: int| 0 <= i < low.len() && 0 <= j < high.len() ==> le(#[trigger] low[i], #[trigger] high[j]),
{
    let a = s.subrange(0, at);
    let b = s.subrange(at, s.len() as int);
    assert forall|i: int, j: int| 0 <= i < low.len() && 0 <= j < high.len() implies le(#[trigger] low[i], #[trigger] high[j]) by {
        lemma_permutation_member(a, low, i);
        lemma_permutation_member(b, high, j);
        let ka = choose|k: int| 0 <= k < a.len() && a[k] == low[i];
        let kb = choose|k: int| 0 <= k < b.len() && b[k] == high[j];
        assert(a[ka] == s[ka]);
        assert(b[kb] == s[at + kb]);
        lemma_le_reflexive(s[at]);
        lemma_le_transitive(s[ka], s[at], s[at + kb]);
    }
}

/// Sorts two disjoint slices at once, each on a scoped thread of
/// `crossbeam_utils::thread::scope`, and returns when both threads have
/// ended. Taken on trust: the scope runs each of the two closures once and to
/// its end before it returns, so that each slice is left as `sort` leaves it,
/// rearranged and, under a total order, equal to `quick_sorted` of what it
/// held. If a thread cannot be started or panics, the call panics in its
/// turn.
#[verifier::external_body]
fn sort_both<T: Ord + Send>(prior: &mut [T], latter: &mut [T])
    ensures
        permutation(old(prior)@, final(prior)@),
        permutation(old(latter)@, final(latter)@),
        total_order::<T>() ==> final(prior)@ == quick_sorted(old(prior)@),
        total_order::<T>() ==> final(latter)@ == quick_sorted(old(latter)@),
{
    crossbeam_utils::thread::scope(
        |s| {
            s.spawn(|_| sort(prior));
            s.spawn(|_| sort(latter));
        },
    ).unwrap();
}

/// Rearranges the slice around the element at `pivot_ind` and returns the
/// boundary, where that element then stands: what is not above it comes
/// before the boundary, what is above it after.
pub fn partition<T: Ord>(list: &mut [T], pivot_ind: usize) -> (boundary: usize)
    requires
        pivot_ind < old(list)@.len(),
    ensures
        boundary < old(list)@.len(),
        permutation(old(list)@, final(list)@),
        final(list)@.len() == old(list)@.len(),
        final(list)@[boundary as int] == old(list)@[pivot_ind as int],
        total_order::<T>() ==> split_around(final(list)@, boundary as int),
        total_order::<T>() ==> (final(list)@, boundary as int) == partitioned(old(list)@, pivot_ind as int),
{
    let ghost before = list@;
    let ghost pivot = before[pivot_ind as int];
    let end: usize = list.len() - 1;
    // move pivot to the end
    list.swap(pivot_ind, end);
    let ghost start = list@;
    proof {
        lemma_swapped_permutation(before, pivot_ind as int, end as int);
    }
    let mut i: usize = 0;
    let mut j: usize = 0;
    while j < end
        invariant
            i <= j <= end,
            end + 1 == list@.len(),
            list@.len() == before.len(),
            permutation(before, list@),
            list@[end as int] == pivot,
            total_order::<T>() ==> forall|k: int| 0 <= k < i ==> le(#[trigger] list@[k], pivot),
            total_order::<T>() ==> forall|k: int| i <= k < j ==> lt(pivot, #[trigger] list@[k]),
            start == swapped(before, pivot_ind as int, end as int),
            total_order::<T>() ==> (list@, i as int) == scanned(start, j as nat),
        decreases end - j,
    {
        let ghost cur = list@;
        if is_le(&list[j], &list[end]) {
            list.swap(i, j);
            proof {
                lemma_swapped_permutation(cur, i as int, j as int);
            }
            i += 1;
        } else {
            proof {
                if total_order::<T>() {
                    lemma_le_total(cur[j as int], pivot);
                }
            }
        }
        j += 1;
    }
    // swap the pivot value back into place
    let ghost cur = list@;
    list.swap(i, end);
    proof {
        lemma_swapped_permutation(cur, i as int, end as int);
        if total_order::<T>() {
            assert forall|k: int| i < k < list@.len() implies lt(list@[i as int], #[trigger] list@[k]) by {
                if k == end {
                    assert(list@[k] == cur[i as int]);
                } else {
                    assert(list@[k] == cur[k]);
                }
            }
            assert forall|k: int| 0 <= k < i implies le(#[trigger] list@[k], list@[i as int]) by {
                assert(list@[k] == cur[k]);
            }
        }
    }
    i
}

/// The index of the element to split around: the middle one.
pub fn find_pivot<T: Ord>(list: &[T]) -> (p: usize)
    ensures
        p == list@.len() / 2,
{
    list.len() / 2
}

} // verus!
