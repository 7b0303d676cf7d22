//! Merge sort on owned vectors, with the two halves of each split sorted on
//! threads of their own, and the two-way merge it is built on.
use vstd::prelude::*;

verus! {

use crate::insertionsort::{inserted, lemma_inserted, lemma_inserted_ties, lemma_inserted_unchanged};
use crate::order::{is_lt, le, lemma_le_total, lemma_le_transitive, lemma_no_ties, lemma_permutation_concat, lemma_sort_laws, lemma_stable_unique, lt, permutation, sorted, tied, tied_to, ties_of, total_order};

/// Up to this length a vector is sorted by insertion, on the calling thread.
pub const MIN_SIZE: usize = 10;

/// The two-way merge: while both sequences have elements, the head of `b`
/// goes first if it is strictly below the head of `a`, the head of `a`
/// otherwise, so that of two heads that compare equal the one of `a` is
/// taken; what is left of one when the other runs out follows unchanged.
pub open spec fn merged<T: Ord>(a: Seq<T>, b: Seq<T>) -> Seq<T>
    decreases a.len() + b.len(),
{
    if a.len() == 0 {
        b
    } else if b.len() == 0 {
        a
    } else if !lt(b[0], a[0]) {
        seq![a[0]] + merged(a.drop_first(), b)
    } else {
        seq![b[0]] + merged(a, b.drop_first())
    }
}

/// The result of merge sort: a sequence of at most `MIN_SIZE` elements is
/// sorted by insertion; a longer one is cut at its middle, and the sorted
/// halves are merged.
pub open spec fn merge_sorted<T: Ord>(s: Seq<T>) -> Seq<T>
    decreases s.len(),
{
    if s.len() <= MIN_SIZE {
        inserted(s, s.len())
    } else {
        let mid = s.len() as int / 2;
        merged(merge_sorted(s.subrange(0, mid)), merge_sorted(s.subrange(mid, s.len() as int)))
    }
}

/// `s` read from its end.
pub open spec fn mirror<T>(s: Seq<T>) -> Seq<T> {
    Seq::new(s.len(), |i: int| s[s.len() - 1 - i])
}

/// Sorts the vector in place: every element is moved out into a buffer of
/// its own, the buffer is sorted by `sort_vec`, and the result is moved back.
/// No element is copied.
pub fn sort<T: Ord + Send>(list: &mut Vec<T>)
    ensures
        permutation(old(list)@, final(list)@),
        final(list)@.len() == old(list)@.len(),
        total_order::<T>() ==> sorted(final(list)@),
        old(list)@.len() <= 1 ==> final(list)@ == old(list)@,
        total_order::<T>() && sorted(old(list)@) ==> final(list)@ == old(list)@,
        total_order::<T>() ==> final(list)@ == merge_sorted(old(list)@),
        total_order::<T>() ==> forall|x: T| #[trigger] ties_of(final(list)@, x) == ties_of(old(list)@, x),
{
    let ghost before = list@;
    let intermediate = take_all(list);
    let sorted_list = sort_vec(intermediate);
    put_back(sorted_list, list);
    proof {
        lemma_sort_laws(before, list@);
    }
}

/// Moves every element of `list` into a new vector and leaves `list` empty.
pub fn take_all<T>(list: &mut Vec<T>) -> (taken: Vec<T>)
    ensures
        taken@ == old(list)@,
        final(list)@.len() == 0,
{
    let mut taken: Vec<T> = Vec::new();
    taken.append(list);
    proof {
        assert(taken@ =~= old(list)@);
    }
    taken
}

/// Moves every element of `src` into `dest`, which `take_all` has emptied.
pub fn put_back<T>(src: Vec<T>, dest: &mut Vec<T>)
    requires
        old(dest)@.len() == 0,
    ensures
        final(dest)@ == src@,
{
    let ghost elements = src@;
    let mut src = src;
    dest.append(&mut src);
    proof {
        assert(dest@ =~= elements);
    }
}

/// Returns the elements of `list` in ascending order. A vector of at most
/// `MIN_SIZE` elements is sorted by insertion; a longer one is split at its
/// middle, the halves are sorted concurrently, and the results are merged.
pub fn sort_vec<T: Ord + Send>(list: Vec<T>) -> (out: Vec<T>)
    ensures
        permutation(list@, out@),
        out@.len() == list@.len(),
        total_order::<T>() ==> sorted(out@),
        list@.len() <= 1 ==> out@ == list@,
        total_order::<T>() && sorted(list@) ==> out@ == list@,
        total_order::<T>() ==> out@ == merge_sorted(list@),
        total_order::<T>() ==> forall|x: T| #[trigger] ties_of(out@, x) == ties_of(list@, x),
{
    let mut list = list;
    let ghost whole = list@;
    if list.len() <= MIN_SIZE {
        crate::inssort(list.as_mut_slice());
        return list;
    }
    let mid: usize = list.len() / 2;
    // split the other list off into a new Vec
    let other_list = list.split_off(mid);
    let ghost front = list@;
    let ghost back = other_list@;
    let (a, b) = sort_halves(list, other_list);
    let out = merge(a, b);
    proof {
        assert(whole =~= front + back);
        lemma_permutation_concat(front, back, a@, b@);
        if total_order::<T>() {
            lemma_merge_sorted(front);
            lemma_merge_sorted(back);
            if sorted(whole) {
                lemma_merge_sorted_unchanged(whole);
            }
            assert forall|x: T| #[trigger] ties_of(out@, x) == ties_of(whole, x) by {
                lemma_merge_sorted_ties(whole, x);
            }
        }
        lemma_sort_laws(whole, out@);
    }
    out
}

/// Sorts two vectors at once, each on a scoped thread of
/// `crossbeam_utils::thread::scope`, and hands both results back when both
/// threads have been joined. Taken on trust: the scope runs each of the two
/// closures once and returns what they returned, so that each result is what
/// `sort_vec` gives for that vector: a rearrangement of it and, under a total
/// order, `merge_sorted` of it. If a thread cannot be started or panics, the
/// call panics in its turn.
#[verifier::external_body]
fn sort_halves<T: Ord + Send>(list: Vec<T>, other_list: Vec<T>) -> (halves: (Vec<T>, Vec<T>))
    ensures
        permutation(list@, halves.0@),
        permutation(other_list@, halves.1@),
        total_order::<T>() ==> halves.0@ == merge_sorted(list@),
        total_order::<T>() ==> halves.1@ == merge_sorted(other_list@),
{
    crossbeam_utils::thread::scope(
        |s| {
            let h1 = s.spawn(move |_| sort_vec(list));
            let h2 = s.spawn(move |_| sort_vec(other_list));
            (h1.join().expect("a thread panicked!"), h2.join().expect("a thread panicked!"))
        },
    ).unwrap()
}

/// Merges two vectors into one. The result holds every element of both; for
/// a total order it is exactly `merged`, and so ascending when both inputs
/// are, with the element of the first vector in front where the two heads
/// compare equal.
pub fn merge<T: Ord>(list_a: Vec<T>, list_b: Vec<T>) -> (out: Vec<T>)
    ensures
        permutation(list_a@ + list_b@, out@),
        out@.len() == list_a@.len() + list_b@.len(),
        total_order::<T>() ==> out@ == merged(list_a@, list_b@),
        total_order::<T>() && sorted(list_a@) && sorted(list_b@) ==> sorted(out@),
{
    let ghost a = list_a@;
    let ghost b = list_b@;
    let mut out: Vec<T> = Vec::new();
    // both inputs become stacks with their heads on top
    let mut ra = reversed(list_a);
    let mut rb = reversed(list_b);
    let ghost mut ia: int = 0;
    let ghost mut ib: int = 0;
    proof {
        assert(a.subrange(0, a.len() as int) =~= a);
        assert(b.subrange(0, b.len() as int) =~= b);
        assert(out@ + merged(a, b) =~= merged(a, b));
        assert(out@ + a + b =~= a + b);
    }
    while ra.len() > 0 || rb.len() > 0
        invariant
            0 <= ia <= a.len(),
            0 <= ib <= b.len(),
            ra@ == mirror(a).subrange(0, a.len() - ia),
            rb@ == mirror(b).subrange(0, b.len() - ib),
            permutation(out@ + a.subrange(ia, a.len() as int) + b.subrange(ib, b.len() as int), a + b),
            total_order::<T>() ==> out@ + merged(a.subrange(ia, a.len() as int), b.subrange(ib, b.len() as int))
                == merged(a, b),
        decreases ra.len() + rb.len(),
    {
        let ghost rest_a = a.subrange(ia, a.len() as int);
        let ghost rest_b = b.subrange(ib, b.len() as int);
        let ghost done = out@;
        let from_a = if ra.len() == 0 {
            false
        } else if rb.len() == 0 {
            true
        } else {
            !is_lt(&rb[rb.len() - 1], &ra[ra.len() - 1])
        };
        if from_a {
            let next = ra.pop().unwrap();
            out.push(next);
            proof {
                assert(next == rest_a[0]);
                assert(a.subrange(ia + 1, a.len() as int) =~= rest_a.drop_first());
                assert(done.push(next) + rest_a.drop_first() + rest_b =~= done + rest_a + rest_b);
                if total_order::<T>() {
                    assert(merged(rest_a, rest_b) =~= seq![next] + merged(rest_a.drop_first(), rest_b));
                    assert(done.push(next) + merged(rest_a.drop_first(), rest_b) =~= done + merged(
                        rest_a,
                        rest_b,
                    ));
                }
                ia = ia + 1;
            }
        } else {
            let next = rb.pop().unwrap();
            out.push(next);
            proof {
                assert(next == rest_b[0]);
                assert(b.subrange(ib + 1, b.len() as int) =~= rest_b.drop_first());
                lemma_head_moved(done, rest_a, rest_b);
                if total_order::<T>() {
                    assert(merged(rest_a, rest_b) =~= seq![next] + merged(rest_a, rest_b.drop_first()));
                    assert(done.push(next) + merged(rest_a, rest_b.drop_first()) =~= done + merged(
                        rest_a,
                        rest_b,
                    ));
                }
                ib = ib + 1;
            }
        }
    }
    proof {
        assert(a.subrange(ia, a.len() as int) =~= Seq::<T>::empty());
        assert(b.subrange(ib, b.len() as int) =~= Seq::<T>::empty());
        assert(out@ + Seq::<T>::empty() + Seq::<T>::empty() =~= out@);
        assert(out@ + merged(Seq::<T>::empty(), Seq::<T>::empty()) =~= out@);
        if total_order::<T>() && sorted(a) && sorted(b) {
            lemma_merged_sorted(a, b);
        }
        crate::order::lemma_permutation_len(a + b, out@);
    }
    out
}

/// Taking the head of the last of three parts to the end of the first
/// rearranges their concatenation and changes nothing else.
pub proof fn lemma_head_moved<T>(done: Seq<T>, rest_a: Seq<T>, rest_b: Seq<T>)
    requires
        rest_b.len() > 0,
    ensures
        (done.push(rest_b[0]) + rest_a + rest_b.drop_first()).to_multiset() == (done + rest_a
            + rest_b).to_multiset(),
{
    let x = seq![rest_b[0]];
    let tail = rest_b.drop_first();
    vstd::seq_lib::lemma_seq_union_to_multiset_commutative(x, rest_a);
    vstd::seq_lib::lemma_multiset_commutative(done, x + rest_a);
    vstd::seq_lib::lemma_multiset_commutative(done, rest_a + x);
    vstd::seq_lib::lemma_multiset_commutative(done + (x + rest_a), tail);
    vstd::seq_lib::lemma_multiset_commutative(done + (rest_a + x), tail);
    assert(done.push(rest_b[0]) + rest_a + tail =~= (done + (x + rest_a)) + tail);
    assert(done + rest_a + rest_b =~= (done + (rest_a + x)) + tail);
}

/// The vector with its elements in the opposite order.
pub fn reversed<T>(list: Vec<T>) -> (out: Vec<T>)
    ensures
        out@ == mirror(list@),
{
    let mut list = list;
    let ghost whole = list@;
    let mut out: Vec<T> = Vec::new();
    while list.len() > 0
        invariant
            list@.len() + out@.len() == whole.len(),
            list@ == whole.subrange(0, list@.len() as int),
            out@ == mirror(whole).subrange(0, out@.len() as int),
        decreases list.len(),
    {
        let next = list.pop().unwrap();
        out.push(next);
        proof {
            assert(out@ =~= mirror(whole).subrange(0, out@.len() as int));
            assert(list@ =~= whole.subrange(0, list@.len() as int));
        }
    }
    proof {
        assert(out@ =~= mirror(whole));
    }
    out
}

/// Every element of a merge is the element of one of its inputs.
pub proof fn lemma_merged_permutation<T: Ord>(a: Seq<T>, b: Seq<T>)
    ensures
        permutation(a + b, merged(a, b)),
        merged(a, b).len() == a.len() + b.len(),
    decreases a.len() + b.len(),
{
    if a.len() == 0 {
        assert(a + b =~= b);
    } else if b.len() == 0 {
        assert(a + b =~= a);
    } else if !lt(b[0], a[0]) {
        lemma_merged_permutation(a.drop_first(), b);
        let rest = merged(a.drop_first(), b);
        vstd::seq_lib::lemma_multiset_commutative(seq![a[0]], rest);
        vstd::seq_lib::lemma_multiset_commutative(seq![a[0]], a.drop_first() + b);
        assert(a + b =~= seq![a[0]] + (a.drop_first() + b));
    } else {
        lemma_merged_permutation(a, b.drop_first());
        let rest = merged(a, b.drop_first());
        vstd::seq_lib::lemma_multiset_commutative(seq![b[0]], rest);
        vstd::seq_lib::lemma_multiset_commutative(seq![b[0]], a + b.drop_first());
        lemma_head_moved(Seq::<T>::empty(), a, b);
        assert(Seq::<T>::empty().push(b[0]) + a + b.drop_first() =~= seq![b[0]] + (a + b.drop_first()));
        assert(Seq::<T>::empty() + a + b =~= a + b);
    }
}

/// A merge begins with the head of the second sequence exactly when that
/// head is strictly below the head of the first. When the two heads compare
/// equal, the head of the first goes first.
pub proof fn lemma_merged_head<T: Ord>(a: Seq<T>, b: Seq<T>)
    requires
        total_order::<T>(),
        a.len() > 0,
        b.len() > 0,
    ensures
        merged(a, b).len() > 0,
        merged(a, b)[0] == (if lt(b[0], a[0]) {
            b[0]
        } else {
            a[0]
        }),
        tied(a[0], b[0]) ==> merged(a, b)[0] == a[0],
{
    lemma_le_total(a[0], b[0]);
    lemma_le_total(b[0], a[0]);
}

/// The merge of two ascending sequences is ascending and has the length of
/// both together.
pub proof fn lemma_merged_sorted<T: Ord>(a: Seq<T>, b: Seq<T>)
    requires
        total_order::<T>(),
        sorted(a),
        sorted(b),
    ensures
        sorted(merged(a, b)),
        merged(a, b).len() == a.len() + b.len(),
    decreases a.len() + b.len(),
{
    lemma_merged_permutation(a, b);
    if a.len() == 0 || b.len() == 0 {
    } else if !lt(b[0], a[0]) {
        let ta = a.drop_first();
        assert(sorted(ta)) by {
            assert forall|i: int, j: int| 0 <= i < j < ta.len() implies le(#[trigger] ta[i], #[trigger] ta[j]) by {
                assert(ta[i] == a[i + 1] && ta[j] == a[j + 1]);
            }
        }
        lemma_merged_sorted(ta, b);
        let rest = merged(ta, b);
        assert(merged(a, b) =~= seq![a[0]] + rest);
        assert(le(a[0], rest[0])) by {
            lemma_le_total(a[0], b[0]);
            if ta.len() > 0 {
                lemma_merged_head(ta, b);
                assert(ta[0] == a[1]);
                assert(le(a[0], a[1]));
            }
        }
        lemma_cons_sorted(a[0], rest);
    } else {
        let tb = b.drop_first();
        assert(sorted(tb)) by {
            assert forall|i: int, j: int| 0 <= i < j < tb.len() implies le(#[trigger] tb[i], #[trigger] tb[j]) by {
                assert(tb[i] == b[i + 1] && tb[j] == b[j + 1]);
            }
        }
        lemma_merged_sorted(a, tb);
        let rest = merged(a, tb);
        assert(merged(a, b) =~= seq![b[0]] + rest);
        assert(le(b[0], rest[0])) by {
            if tb.len() > 0 {
                lemma_merged_head(a, tb);
                assert(tb[0] == b[1]);
                assert(le(b[0], b[1]));
            }
        }
        lemma_cons_sorted(b[0], rest);
    }
}

/// The merge of two ascending sequences keeps the first in front: of the
/// elements that compare equal to any `x`, those of the first sequence come
/// first, in their order, and those of the second follow, in theirs.
pub proof fn lemma_merged_ties<T: Ord>(a: Seq<T>, b: Seq<T>, x: T)
    requires
        total_order::<T>(),
        sorted(a),
        sorted(b),
    ensures
        ties_of(merged(a, b), x) == ties_of(a, x) + ties_of(b, x),
    decreases a.len() + b.len(),
{
    let pred = tied_to(x);
    if a.len() == 0 {
        lemma_no_ties(a, x);
        assert(ties_of(a, x) + ties_of(b, x) =~= ties_of(b, x));
    } else if b.len() == 0 {
        lemma_no_ties(b, x);
        assert(ties_of(a, x) + ties_of(b, x) =~= ties_of(a, x));
    } else if !lt(b[0], a[0]) {
        let ta = a.drop_first();
        assert forall|i: int, j: int| 0 <= i < j < ta.len() implies le(#[trigger] ta[i], #[trigger] ta[j]) by {
            assert(ta[i] == a[i + 1] && ta[j] == a[j + 1]);
        }
        lemma_merged_ties(ta, b, x);
        let head = seq![a[0]];
        assert(a =~= head + ta);
        assert(merged(a, b) =~= head + merged(ta, b));
        Seq::filter_distributes_over_add(head, ta, pred);
        Seq::filter_distributes_over_add(head, merged(ta, b), pred);
        assert(head.filter(pred) + (ta.filter(pred) + b.filter(pred)) =~= (head.filter(pred) + ta.filter(pred))
            + b.filter(pred));
    } else {
        let tb = b.drop_first();
        assert forall|i: int, j: int| 0 <= i < j < tb.len() implies le(#[trigger] tb[i], #[trigger] tb[j]) by {
            assert(tb[i] == b[i + 1] && tb[j] == b[j + 1]);
        }
        lemma_merged_ties(a, tb, x);
        let head = seq![b[0]];
        assert(b =~= head + tb);
        assert(merged(a, b) =~= head + merged(a, tb));
        Seq::filter_distributes_over_add(head, tb, pred);
        Seq::filter_distributes_over_add(head, merged(a, tb), pred);
        if tied(b[0], x) {
            // everything in a is strictly above the head of b, and so above x
            assert forall|i: int| 0 <= i < a.len() implies !tied(#[trigger] a[i], x) by {
                if i > 0 {
                    assert(le(a[0], a[i]));
                } else {
                    lemma_le_total(a[0], a[0]);
                }
                lemma_le_total(b[0], a[0]);
                lemma_le_transitive(b[0], a[0], a[i]);
                if tied(a[i], x) {
                    lemma_le_total(b[0], x);
                    lemma_le_total(x, b[0]);
                    lemma_le_total(a[i], x);
                    lemma_le_total(x, a[i]);
                    lemma_le_transitive(a[i], x, b[0]);
                    lemma_le_total(a[i], b[0]);
                }
            }
            lemma_no_ties(a, x);
            assert(head.filter(pred) + (a.filter(pred) + tb.filter(pred)) =~= a.filter(pred) + (head.filter(
                pred,
            ) + tb.filter(pred)));
        } else {
            assert forall|i: int| 0 <= i < head.len() implies !tied(#[trigger] head[i], x) by {}
            lemma_no_ties(head, x);
            assert(head.filter(pred) + (a.filter(pred) + tb.filter(pred)) =~= a.filter(pred) + (head.filter(
                pred,
            ) + tb.filter(pred)));
        }
    }
}

/// Where nothing in the first sequence is above anything in the second, the
/// merge is the first followed by the second.
pub proof fn lemma_merged_in_order<T: Ord>(a: Seq<T>, b: Seq<T>)
    requires
        total_order::<T>(),
        forall|i: int, j: int| 0 <= i < a.len() && 0 <= j < b.len() ==> le(#[trigger] a[i], #[trigger] b[j]),
    ensures
        merged(a, b) == a + b,
    decreases a.len(),
{
    if a.len() == 0 {
        assert(a + b =~= b);
    } else if b.len() == 0 {
        assert(a + b =~= a);
    } else {
        lemma_le_total(a[0], b[0]);
        let ta = a.drop_first();
        assert forall|i: int, j: int| 0 <= i < ta.len() && 0 <= j < b.len() implies le(#[trigger] ta[i], #[trigger] b[j]) by {
            assert(ta[i] == a[i + 1]);
        }
        lemma_merged_in_order(ta, b);
        assert(seq![a[0]] + (ta + b) =~= a + b);
    }
}

/// Merge sort leaves an ascending sequence as it is, element for element.
pub proof fn lemma_merge_sorted_unchanged<T: Ord>(s: Seq<T>)
    requires
        total_order::<T>(),
        sorted(s),
    ensures
        merge_sorted(s) == s,
    decreases s.len(),
{
    if s.len() <= MIN_SIZE {
        lemma_inserted_unchanged(s, s.len());
    } else {
        let mid = s.len() as int / 2;
        let front = s.subrange(0, mid);
        let back = s.subrange(mid, s.len() as int);
        assert forall|i: int, j: int| 0 <= i < j < front.len() implies le(#[trigger] front[i], #[trigger] front[j]) by {
            assert(front[i] == s[i] && front[j] == s[j]);
        }
        assert forall|i: int, j: int| 0 <= i < j < back.len() implies le(#[trigger] back[i], #[trigger] back[j]) by {
            assert(back[i] == s[mid + i] && back[j] == s[mid + j]);
        }
        assert forall|i: int, j: int| 0 <= i < front.len() && 0 <= j < back.len() implies le(#[trigger] front[i], #[trigger] back[j]) by {
            assert(front[i] == s[i] && back[j] == s[mid + j]);
        }
        lemma_merge_sorted_unchanged(front);
        lemma_merge_sorted_unchanged(back);
        lemma_merged_in_order(front, back);
        assert(s =~= front + back);
    }
}

/// Merge sort sorts: its result is ascending and holds what the input held.
pub proof fn lemma_merge_sorted<T: Ord>(s: Seq<T>)
    requires
        total_order::<T>(),
    ensures
        permutation(s, merge_sorted(s)),
        sorted(merge_sorted(s)),
    decreases s.len(),
{
    if s.len() <= MIN_SIZE {
        lemma_inserted(s, s.len());
        assert(inserted(s, s.len()).subrange(0, s.len() as int) =~= inserted(s, s.len()));
    } else {
        let mid = s.len() as int / 2;
        let front = s.subrange(0, mid);
        let back = s.subrange(mid, s.len() as int);
        lemma_merge_sorted(front);
        lemma_merge_sorted(back);
        lemma_merged_sorted(merge_sorted(front), merge_sorted(back));
        lemma_merged_permutation(merge_sorted(front), merge_sorted(back));
        lemma_permutation_concat(front, back, merge_sorted(front), merge_sorted(back));
        assert(s =~= front + back);
    }
}

/// Merge sort keeps elements that compare equal in the order they came in.
pub proof fn lemma_merge_sorted_ties<T: Ord>(s: Seq<T>, x: T)
    requires
        total_order::<T>(),
    ensures
        ties_of(merge_sorted(s), x) == ties_of(s, x),
    decreases s.len(),
{
    if s.len() <= MIN_SIZE {
        lemma_inserted_ties(s, s.len(), x);
    } else {
        let mid = s.len() as int / 2;
        let front = s.subrange(0, mid);
        let back = s.subrange(mid, s.len() as int);
        lemma_merge_sorted(front);
        lemma_merge_sorted(back);
        lemma_merge_sorted_ties(front, x);
        lemma_merge_sorted_ties(back, x);
        lemma_merged_ties(merge_sorted(front), merge_sorted(back), x);
        Seq::filter_distributes_over_add(front, back, tied_to(x));
        assert(s =~= front + back);
    }
}

/// Insertion sort and merge sort give the same result on every input.
pub proof fn lemma_merge_sorted_is_inserted<T: Ord>(s: Seq<T>)
    requires
        total_order::<T>(),
    ensures
        merge_sorted(s) == inserted(s, s.len()),
{
    let by_insertion = inserted(s, s.len());
    lemma_inserted(s, s.len());
    assert(by_insertion.subrange(0, s.len() as int) =~= by_insertion);
    lemma_merge_sorted(s);
    assert forall|x: T| #[trigger] ties_of(merge_sorted(s), x) == ties_of(by_insertion, x) by {
        lemma_merge_sorted_ties(s, x);
        lemma_inserted_ties(s, s.len(), x);
    }
    lemma_stable_unique(merge_sorted(s), by_insertion);
}

/// An element that is not above the head of an ascending sequence can be
/// put in front of it.
pub proof fn lemma_cons_sorted<T: Ord>(x: T, s: Seq<T>)
    requires
        total_order::<T>(),
        sorted(s),
        s.len() > 0 ==> le(x, s[0]),
    ensures
        sorted(seq![x] + s),
{
    let c = seq![x] + s;
    assert forall|i: int, j: int| 0 <= i < j < c.len() implies le(#[trigger] c[i], #[trigger] c[j]) by {
        assert(c[j] == s[j - 1]);
        if i == 0 {
            if j > 1 {
                assert(le(s[0], s[j - 1]));
                lemma_le_transitive(x, s[0], s[j - 1]);
            }
        } else {
            assert(c[i] == s[i - 1]);
        }
    }
}

} // verus!
