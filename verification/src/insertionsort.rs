//! Binary insertion sort, in place.
use vstd::prelude::*;

verus! {

use crate::order::{is_lt, is_tied, le, lemma_le_reflexive, lemma_le_total, lemma_le_transitive, lemma_no_ties, lemma_sort_laws, lt, permutation, sorted, tied, tied_to, ties_of, total_order};
use crate::slice_ops::swapped;

/// `p` is a place at which `x` can stand among the first `n` elements of `s`:
/// nothing before it is above `x`, nothing from it on is below `x`.
pub open spec fn fits_at<T: Ord>(s: Seq<T>, n: int, x: T, p: int) -> bool {
    &&& 0 <= p <= n <= s.len()
    &&& forall|k: int| 0 <= k < p ==> le(#[trigger] s[k], x)
    &&& forall|k: int| p <= k < n ==> le(x, #[trigger] s[k])
}

/// `p` is the place that insertion gives `x` among the first `n` elements of
/// `s`: one past the last element that is not above `x`, and so after every
/// element equal to `x`.
pub open spec fn slot_of<T: Ord>(s: Seq<T>, n: int, x: T, p: int) -> bool {
    &&& fits_at(s, n, x, p)
    &&& forall|k: int| p <= k < n ==> lt(x, #[trigger] s[k])
}

/// There is one such place only.
pub proof fn lemma_slot_unique<T: Ord>(s: Seq<T>, n: int, x: T, p: int, q: int)
    requires
        total_order::<T>(),
        slot_of(s, n, x, p),
        slot_of(s, n, x, q),
    ensures
        p == q,
{
    let (lo, hi) = if p < q { (p, q) } else { (q, p) };
    if lo < hi {
        // the element at lo is strictly above x for one place and not above
        // it for the other
        lemma_le_total(s[lo], x);
    }
}

/// The place that insertion gives the element at `n` among the `n` elements
/// before it.
pub open spec fn slot<T: Ord>(s: Seq<T>, n: int) -> int {
    choose|p: int| slot_of(s, n, s[n], p)
}

/// `s` after its first `n` elements have been sorted by insertion: each in
/// turn moved to its place among those before it.
pub open spec fn inserted<T: Ord>(s: Seq<T>, n: nat) -> Seq<T>
    decreases n,
{
    if n <= 1 {
        s
    } else {
        let prev = inserted(s, (n - 1) as nat);
        moved(prev, n - 1, slot(prev, n - 1))
    }
}

/// The first of the first `m` elements of `s` that is strictly above `x`, or
/// `m` where none is.
pub open spec fn first_above<T: Ord>(s: Seq<T>, x: T, m: int) -> int
    decreases m,
{
    if m <= 0 {
        0
    } else {
        let c = first_above(s, x, m - 1);
        if c < m - 1 || !le(s[m - 1], x) {
            c
        } else {
            m
        }
    }
}

/// Among ascending elements every element has its place.
pub proof fn lemma_slot_exists<T: Ord>(s: Seq<T>, n: int)
    requires
        total_order::<T>(),
        0 <= n < s.len(),
        sorted(s.subrange(0, n)),
    ensures
        slot_of(s, n, s[n], slot(s, n)),
        0 <= slot(s, n) <= n,
{
    let x = s[n];
    let pre = s.subrange(0, n);
    lemma_first_above(s, x, n);
    let c = first_above(s, x, n);
    assert forall|k: int| c <= k < n implies lt(x, #[trigger] s[k]) by {
        lemma_le_total(s[c], x);
        if k > c {
            assert(le(pre[c], pre[k]));
            lemma_le_total(x, s[c]);
            lemma_le_transitive(x, s[c], s[k]);
        }
    }
    assert(slot_of(s, n, x, c));
}

/// Nothing before the first element strictly above `x` is above `x`.
pub proof fn lemma_first_above<T: Ord>(s: Seq<T>, x: T, m: int)
    requires
        total_order::<T>(),
        0 <= m <= s.len(),
    ensures
        0 <= first_above(s, x, m) <= m,
        forall|k: int| 0 <= k < first_above(s, x, m) ==> le(#[trigger] s[k], x),
        first_above(s, x, m) < m ==> !le(s[first_above(s, x, m)], x),
    decreases m,
{
    if m > 0 {
        lemma_first_above(s, x, m - 1);
    }
}

/// Insertion sorts: after `n` steps the first `n` elements are ascending,
/// and the sequence holds what it held.
pub proof fn lemma_inserted<T: Ord>(s: Seq<T>, n: nat)
    requires
        total_order::<T>(),
        n <= s.len(),
    ensures
        permutation(s, inserted(s, n)),
        inserted(s, n).len() == s.len(),
        sorted(inserted(s, n).subrange(0, n as int)),
    decreases n,
{
    if n <= 1 {
        assert(sorted(s.subrange(0, n as int)));
    } else {
        lemma_inserted(s, (n - 1) as nat);
        let prev = inserted(s, (n - 1) as nat);
        lemma_slot_exists(prev, n - 1);
        lemma_moved_permutation(prev, n - 1, slot(prev, n - 1));
        lemma_moved_sorted(prev, n - 1, slot(prev, n - 1));
    }
}

/// Insertion leaves an ascending sequence as it is, element for element:
/// each element already stands after everything that is not above it.
pub proof fn lemma_inserted_unchanged<T: Ord>(s: Seq<T>, n: nat)
    requires
        total_order::<T>(),
        sorted(s),
        n <= s.len(),
    ensures
        inserted(s, n) == s,
    decreases n,
{
    if n > 1 {
        lemma_inserted_unchanged(s, (n - 1) as nat);
        let x = s[n - 1];
        assert(slot_of(s, n - 1, x, n - 1));
        assert(sorted(s.subrange(0, n - 1))) by {
            let pre = s.subrange(0, n - 1);
            assert forall|i: int, j: int| 0 <= i < j < pre.len() implies le(#[trigger] pre[i], #[trigger] pre[j]) by {
                assert(pre[i] == s[i] && pre[j] == s[j]);
            }
        }
        lemma_slot_exists(s, n - 1);
        lemma_slot_unique(s, n - 1, x, n - 1, slot(s, n - 1));
        assert(moved(s, n - 1, n - 1) =~= s);
    }
}

/// Moving an element to its place carries it past elements strictly above
/// it only, so elements that compare equal keep their order.
pub proof fn lemma_moved_ties<T: Ord>(s: Seq<T>, n: int, p: int, y: T)
    requires
        total_order::<T>(),
        0 <= n < s.len(),
        slot_of(s, n, s[n], p),
    ensures
        ties_of(moved(s, n, p), y) == ties_of(s, y),
{
    let pred = tied_to(y);
    let x = s[n];
    let pre = s.subrange(0, p);
    let mid = s.subrange(p, n);
    let one = seq![x];
    let rest = s.subrange(n + 1, s.len() as int);
    assert(s =~= ((pre + mid) + one) + rest);
    assert(moved(s, n, p) =~= ((pre + one) + mid) + rest);
    Seq::filter_distributes_over_add((pre + mid) + one, rest, pred);
    Seq::filter_distributes_over_add(pre + mid, one, pred);
    Seq::filter_distributes_over_add(pre, mid, pred);
    Seq::filter_distributes_over_add((pre + one) + mid, rest, pred);
    Seq::filter_distributes_over_add(pre + one, mid, pred);
    Seq::filter_distributes_over_add(pre, one, pred);
    if tied(x, y) {
        assert forall|k: int| 0 <= k < mid.len() implies !tied(#[trigger] mid[k], y) by {
            assert(mid[k] == s[p + k]);
            assert(lt(x, s[p + k]));
            if tied(mid[k], y) {
                lemma_le_total(x, y);
                lemma_le_total(y, x);
                lemma_le_total(mid[k], y);
                lemma_le_total(y, mid[k]);
                lemma_le_transitive(mid[k], y, x);
                lemma_le_total(mid[k], x);
            }
        }
        lemma_no_ties(mid, y);
    } else {
        assert forall|k: int| 0 <= k < one.len() implies !tied(#[trigger] one[k], y) by {}
        lemma_no_ties(one, y);
    }
    assert(((pre.filter(pred) + mid.filter(pred)) + one.filter(pred)) + rest.filter(pred) =~= ((pre.filter(pred)
        + one.filter(pred)) + mid.filter(pred)) + rest.filter(pred));
}

/// Insertion keeps elements that compare equal in the order they came in.
pub proof fn lemma_inserted_ties<T: Ord>(s: Seq<T>, n: nat, y: T)
    requires
        total_order::<T>(),
        n <= s.len(),
    ensures
        ties_of(inserted(s, n), y) == ties_of(s, y),
    decreases n,
{
    if n > 1 {
        lemma_inserted_ties(s, (n - 1) as nat, y);
        lemma_inserted(s, (n - 1) as nat);
        let prev = inserted(s, (n - 1) as nat);
        lemma_slot_exists(prev, n - 1);
        lemma_moved_ties(prev, n - 1, slot(prev, n - 1), y);
    }
}

/// `s` after the element at `from` has been taken out and put back at `to`.
pub open spec fn moved<T>(s: Seq<T>, from: int, to: int) -> Seq<T> {
    s.remove(from).insert(to, s[from])
}

/// Moving one element to a place where it fits extends an ascending prefix
/// by one.
pub proof fn lemma_moved_sorted<T: Ord>(s: Seq<T>, n: int, p: int)
    requires
        total_order::<T>(),
        0 <= n < s.len(),
        sorted(s.subrange(0, n)),
        fits_at(s, n, s[n], p),
    ensures
        sorted(moved(s, n, p).subrange(0, n + 1)),
{
    let pre = s.subrange(0, n);
    let r = moved(s, n, p).subrange(0, n + 1);
    assert forall|i: int, j: int| 0 <= i < j < r.len() implies le(#[trigger] r[i], #[trigger] r[j]) by {
        if j < p {
            assert(r[i] == pre[i] && r[j] == pre[j]);
        } else if j == p {
            assert(r[i] == s[i]);
        } else if i < p {
            assert(r[i] == s[i] && r[j] == s[j - 1]);
            lemma_le_transitive(s[i], s[n], s[j - 1]);
        } else if i == p {
            assert(r[j] == s[j - 1]);
        } else {
            assert(r[i] == pre[i - 1] && r[j] == pre[j - 1]);
        }
    }
}

/// Moving one element rearranges a sequence.
pub proof fn lemma_moved_permutation<T>(s: Seq<T>, from: int, to: int)
    requires
        0 <= to <= from < s.len(),
    ensures
        permutation(s, moved(s, from, to)),
        moved(s, from, to).len() == s.len(),
{
    broadcast use vstd::seq_lib::group_to_multiset_ensures;
    assert(s.to_multiset().count(s[from]) > 0) by {
        assert(s.contains(s[from]));
    }
    assert(moved(s, from, to).to_multiset() =~= s.to_multiset());
}

/// Looks for `key` in an ascending slice by halving. `Ok` carries the index
/// of an element that compares equal to `key`; `Err`, when there is none, the
/// one place where `key` can be put in.
pub fn binary_search<T: Ord>(slice: &[T], key: &T) -> (found: Result<usize, usize>)
    ensures
        match found {
            Ok(i) => i < slice@.len(),
            Err(i) => i <= slice@.len(),
        },
        total_order::<T>() && sorted(slice@) ==> match found {
            Ok(i) => tied(slice@[i as int], *key),
            Err(i) => {
                &&& forall|k: int| 0 <= k < i ==> lt(#[trigger] slice@[k], *key)
                &&& forall|k: int| i <= k < slice@.len() ==> lt(*key, #[trigger] slice@[k])
            },
        },
{
    let ghost good = total_order::<T>() && sorted(slice@);
    let mut lo: usize = 0;
    let mut hi: usize = slice.len();
    while lo < hi
        invariant
            lo <= hi <= slice@.len(),
            good == (total_order::<T>() && sorted(slice@)),
            good ==> forall|k: int| 0 <= k < lo ==> lt(#[trigger] slice@[k], *key),
            good ==> forall|k: int| hi <= k < slice@.len() ==> lt(*key, #[trigger] slice@[k]),
        decreases hi - lo,
    {
        let mid: usize = lo + (hi - lo) / 2;
        if is_lt(&slice[mid], key) {
            proof {
                if good {
                    assert forall|k: int| 0 <= k < mid + 1 implies lt(#[trigger] slice@[k], *key) by {
                        if k < mid {
                            lemma_le_transitive(slice@[k], slice@[mid as int], *key);
                        }
                    }
                }
            }
            lo = mid + 1;
        } else if is_lt(key, &slice[mid]) {
            proof {
                if good {
                    assert forall|k: int| mid <= k < slice@.len() implies lt(*key, #[trigger] slice@[k]) by {
                        if k > mid {
                            lemma_le_transitive(*key, slice@[mid as int], slice@[k]);
                        }
                    }
                }
            }
            hi = mid;
        } else {
            proof {
                if good {
                    lemma_le_total(slice@[mid as int], *key);
                    lemma_le_total(*key, slice@[mid as int]);
                }
            }
            return Ok(mid);
        }
    }
    Err(lo)
}

/// The index at which the run of equal elements that holds `slice[i]` ends.
pub fn rightmost<T: Ord>(slice: &[T], i: usize) -> (r: usize)
    requires
        i < slice@.len(),
    ensures
        i <= r < slice@.len(),
        total_order::<T>() ==> {
            &&& forall|k: int| i <= k <= r ==> tied(#[trigger] slice@[k], slice@[i as int])
            &&& r + 1 < slice@.len() ==> !tied(slice@[r as int], slice@[r + 1])
        },
{
    let mut r: usize = i;
    proof {
        if total_order::<T>() {
            lemma_le_reflexive(slice@[i as int]);
        }
    }
    while r + 1 < slice.len() && is_tied(&slice[r], &slice[r + 1])
        invariant
            i <= r < slice.len(),
            total_order::<T>() ==> forall|k: int| i <= k <= r ==> tied(#[trigger] slice@[k], slice@[i as int]),
        decreases slice.len() - r,
    {
        proof {
            if total_order::<T>() {
                lemma_tied_chain(slice@[r + 1], slice@[r as int], slice@[i as int]);
            }
        }
        r += 1;
    }
    r
}

/// Comparing equal carries over from one element to the next.
pub proof fn lemma_tied_chain<T: Ord>(a: T, b: T, c: T)
    requires
        total_order::<T>(),
        tied(b, a),
        tied(b, c),
    ensures
        tied(a, c),
{
    lemma_le_total(a, b);
    lemma_le_total(b, a);
    lemma_le_total(b, c);
    lemma_le_total(c, b);
    lemma_le_total(a, c);
    lemma_le_total(c, a);
    lemma_le_transitive(a, b, c);
    lemma_le_transitive(c, b, a);
}

/// Takes the element at `from` out and puts it back at `to`, further left;
/// the elements in between move one place to the right.
pub fn shift_left<T>(slice: &mut [T], from: usize, to: usize)
    requires
        to <= from < old(slice)@.len(),
    ensures
        final(slice)@ == moved(old(slice)@, from as int, to as int),
{
    let ghost before = slice@;
    let mut i: usize = from;
    proof {
        assert(slice@ =~= moved(before, from as int, i as int));
    }
    while i > to
        invariant
            to <= i <= from < before.len(),
            slice@ == moved(before, from as int, i as int),
        decreases i,
    {
        let ghost cur = slice@;
        slice.swap(i - 1, i);
        proof {
            assert(swapped(cur, i - 1, i as int) =~= moved(before, from as int, i - 1));
        }
        i -= 1;
    }
}

/// Sorts the slice in place: each element in turn is moved left into the
/// ascending run before it, to stand after everything there that is not
/// above it. Elements that compare equal keep the order they came in.
pub fn sort<T: Ord>(list: &mut [T])
    ensures
        permutation(old(list)@, final(list)@),
        final(list)@.len() == old(list)@.len(),
        total_order::<T>() ==> sorted(final(list)@),
        old(list)@.len() <= 1 ==> final(list)@ == old(list)@,
        total_order::<T>() && sorted(old(list)@) ==> final(list)@ == old(list)@,
        total_order::<T>() ==> final(list)@ == inserted(old(list)@, old(list)@.len()),
        total_order::<T>() ==> forall|x: T| #[trigger] ties_of(final(list)@, x) == ties_of(old(list)@, x),
{
    let ghost before = list@;
    let n: usize = list.len();
    if n <= 1 {
        proof {
            assert(sorted(list@));
            lemma_sort_laws(before, list@);
        }
        return;
    }
    let mut unsorted_start: usize = 1;
    while unsorted_start < n
        invariant
            1 <= unsorted_start <= n,
            n == list@.len(),
            permutation(before, list@),
            total_order::<T>() ==> sorted(list@.subrange(0, unsorted_start as int)),
            total_order::<T>() ==> list@ == inserted(before, unsorted_start as nat),
        decreases n - unsorted_start,
    {
        let ghost cur = list@;
        let ins_at: usize = find_slot(list, unsorted_start);
        shift_left(list, unsorted_start, ins_at);
        proof {
            lemma_moved_permutation(cur, unsorted_start as int, ins_at as int);
            if total_order::<T>() {
                lemma_moved_sorted(cur, unsorted_start as int, ins_at as int);
                lemma_slot_unique(
                    cur,
                    unsorted_start as int,
                    cur[unsorted_start as int],
                    ins_at as int,
                    slot(cur, unsorted_start as int),
                );
                assert(inserted(before, (unsorted_start + 1) as nat) == moved(
                    cur,
                    unsorted_start as int,
                    slot(cur, unsorted_start as int),
                ));
            }
        }
        unsorted_start += 1;
    }
    proof {
        assert(list@.subrange(0, n as int) =~= list@);
        lemma_sort_laws(before, list@);
        if total_order::<T>() && sorted(before) {
            lemma_inserted_unchanged(before, before.len());
        }
        if total_order::<T>() {
            assert forall|x: T| #[trigger] ties_of(list@, x) == ties_of(before, x) by {
                lemma_inserted_ties(before, before.len(), x);
            }
        }
    }
}

/// Where the element at `n` goes among the `n` ascending elements before it.
pub fn find_slot<T: Ord>(list: &[T], n: usize) -> (p: usize)
    requires
        n < list@.len(),
    ensures
        p <= n,
        total_order::<T>() && sorted(list@.subrange(0, n as int)) ==> slot_of(
            list@,
            n as int,
            list@[n as int],
            p as int,
        ),
{
    let sorted_list = vstd::slice::slice_subrange(list, 0, n);
    let key = &list[n];
    let ghost s = list@;
    let ghost pre = sorted_list@;
    let ghost x = s[n as int];
    match binary_search(sorted_list, key) {
        Ok(i) => {
            let r = rightmost(sorted_list, i);
            proof {
                if total_order::<T>() && sorted(pre) {
                    assert(tied(pre[r as int], pre[i as int]));
                    lemma_le_total(pre[r as int], pre[i as int]);
                    lemma_tied_chain(pre[r as int], pre[i as int], x);
                    lemma_le_total(pre[r as int], x);
                    lemma_le_total(x, pre[r as int]);
                    assert(s[r as int] == pre[r as int]);
                    assert forall|k: int| 0 <= k < r + 1 implies le(#[trigger] s[k], x) by {
                        assert(s[k] == pre[k]);
                        if k < r {
                            lemma_le_transitive(s[k], pre[r as int], x);
                        }
                    }
                    assert forall|k: int| r + 1 <= k < n implies lt(x, #[trigger] s[k]) by {
                        assert(s[k] == pre[k]);
                        assert(le(pre[r as int], pre[r + 1]));
                        lemma_le_total(pre[r + 1], pre[r as int]);
                        lemma_le_total(pre[r as int], pre[r + 1]);
                        if k > r + 1 {
                            lemma_le_transitive(pre[r as int], pre[r + 1], pre[k]);
                        }
                        lemma_le_transitive(x, pre[r as int], pre[k]);
                    }
                }
            }
            r + 1
        },
        Err(i) => {
            proof {
                if total_order::<T>() && sorted(pre) {
                    assert forall|k: int| 0 <= k < i implies lt(#[trigger] s[k], x) by {
                        assert(s[k] == pre[k]);
                    }
                    assert forall|k: int| i <= k < n implies lt(x, #[trigger] s[k]) by {
                        assert(s[k] == pre[k]);
                    }
                }
            }
            i
        },
    }
}

} // verus!
