//! The mathematical vocabulary of the sorts: the order that `Ord` declares,
//! as `cmp_spec` models it, and what it means for a sequence to be ascending
//! and to be a rearrangement of another.
//!
//! Nothing here asks that `T` be well behaved. What a sort promises of the
//! order of its result it promises under `total_order::<T>()`; for the
//! integer types and tuples of them, `vstd::laws_cmp::group_laws_cmp`
//! establishes it.
use std::cmp::Ordering;
use vstd::prelude::*;
use vstd::std_specs::cmp::{OrdSpec, PartialOrdSpec};

verus! {

/// The comparison operators of `T` compute what `cmp_spec` says, and
/// `cmp_spec` is a total order: any two elements compare, and the comparison
/// is transitive. Two elements may compare equal without being the same value.
pub open spec fn total_order<T: Ord>() -> bool {
    vstd::laws_cmp::obeys_cmp::<T>()
}

/// `a` is not above `b`.
pub open spec fn le<T: Ord>(a: T, b: T) -> bool {
    a.cmp_spec(&b) != Ordering::Greater
}

/// `a` is strictly below `b`.
pub open spec fn lt<T: Ord>(a: T, b: T) -> bool {
    a.cmp_spec(&b) == Ordering::Less
}

/// `a` and `b` compare equal.
pub open spec fn tied<T: Ord>(a: T, b: T) -> bool {
    a.cmp_spec(&b) == Ordering::Equal
}

/// Ascending: no element is below one that stands before it.
pub open spec fn sorted<T: Ord>(s: Seq<T>) -> bool {
    forall|i: int, j: int| 0 <= i < j < s.len() ==> le(#[trigger] s[i], #[trigger] s[j])
}

/// `b` holds exactly the elements of `a`, each as often as `a` does.
pub open spec fn permutation<T>(a: Seq<T>, b: Seq<T>) -> bool {
    a.to_multiset() == b.to_multiset()
}

/// Every element compares equal to itself.
pub proof fn lemma_le_reflexive<T: Ord>(a: T)
    requires
        total_order::<T>(),
    ensures
        tied(a, a),
        le(a, a),
{
    reveal(vstd::laws_cmp::obeys_cmp_ord);
    reveal(vstd::laws_cmp::obeys_partial_cmp_spec_properties);
    assert(a.partial_cmp_spec(&a) == Some(a.cmp_spec(&a)));
}

/// Of two elements, exactly one of "a is not above b" and "b is strictly
/// below a" holds; and the three outcomes of a comparison mirror each other.
pub proof fn lemma_le_total<T: Ord>(a: T, b: T)
    requires
        total_order::<T>(),
    ensures
        le(a, b) <==> !lt(b, a),
        tied(a, b) <==> tied(b, a),
        le(a, b) || le(b, a),
{
    reveal(vstd::laws_cmp::obeys_cmp_ord);
    reveal(vstd::laws_cmp::obeys_partial_cmp_spec_properties);
    reveal(vstd::laws_eq::obeys_eq_spec_properties);
    assert(a.partial_cmp_spec(&b) == Some(a.cmp_spec(&b)));
    assert(b.partial_cmp_spec(&a) == Some(b.cmp_spec(&a)));
}

/// The order is transitive, also across ties.
pub proof fn lemma_le_transitive<T: Ord>(a: T, b: T, c: T)
    requires
        total_order::<T>(),
        le(a, b),
        le(b, c),
    ensures
        le(a, c),
        lt(a, b) || lt(b, c) ==> lt(a, c),
{
    reveal(vstd::laws_cmp::obeys_cmp_ord);
    reveal(vstd::laws_cmp::obeys_partial_cmp_spec_properties);
    reveal(vstd::laws_eq::obeys_eq_spec_properties);
    assert(a.partial_cmp_spec(&b) == Some(a.cmp_spec(&b)));
    assert(b.partial_cmp_spec(&a) == Some(b.cmp_spec(&a)));
    assert(b.partial_cmp_spec(&c) == Some(b.cmp_spec(&c)));
    assert(c.partial_cmp_spec(&b) == Some(c.cmp_spec(&b)));
    assert(a.partial_cmp_spec(&c) == Some(a.cmp_spec(&c)));
    assert(c.partial_cmp_spec(&a) == Some(c.cmp_spec(&a)));
}

/// Every element of a rearrangement stands somewhere in what was rearranged.
pub proof fn lemma_permutation_member<T>(a: Seq<T>, b: Seq<T>, j: int)
    requires
        permutation(a, b),
        0 <= j < b.len(),
    ensures
        exists|k: int| 0 <= k < a.len() && a[k] == b[j],
{
    broadcast use vstd::seq_lib::group_to_multiset_ensures;
    assert(b.contains(b[j]));
    assert(b.to_multiset().count(b[j]) > 0);
    assert(a.to_multiset().count(b[j]) > 0);
    assert(a.contains(b[j]));
}

/// A rearrangement keeps the length.
pub proof fn lemma_permutation_len<T>(a: Seq<T>, b: Seq<T>)
    requires
        permutation(a, b),
    ensures
        a.len() == b.len(),
{
    vstd::seq_lib::to_multiset_len(a);
    vstd::seq_lib::to_multiset_len(b);
}

/// Rearranging two parts separately rearranges the whole.
pub proof fn lemma_permutation_concat<T>(a1: Seq<T>, b1: Seq<T>, a2: Seq<T>, b2: Seq<T>)
    requires
        permutation(a1, a2),
        permutation(b1, b2),
    ensures
        permutation(a1 + b1, a2 + b2),
{
    vstd::seq_lib::lemma_multiset_commutative(a1, b1);
    vstd::seq_lib::lemma_multiset_commutative(a2, b2);
}

/// Two ascending parts, the first nowhere above the second, make an
/// ascending whole.
pub proof fn lemma_sorted_concat<T: Ord>(a: Seq<T>, b: Seq<T>)
    requires
        sorted(a),
        sorted(b),
        forall|i: int, j: int| 0 <= i < a.len() && 0 <= j < b.len() ==> le(#[trigger] a[i], #[trigger] b[j]),
    ensures
        sorted(a + b),
{
    let c = a + b;
    assert forall|i: int, j: int| 0 <= i < j < c.len() implies le(#[trigger] c[i], #[trigger] c[j]) by {
        if j < a.len() {
            assert(c[i] == a[i] && c[j] == a[j]);
        } else if i < a.len() {
            assert(c[i] == a[i] && c[j] == b[j - a.len()]);
        } else {
            assert(c[i] == b[i - a.len()] && c[j] == b[j - a.len()]);
        }
    }
}

/// Elements of `s` that compare equal are the same value.
pub open spec fn ties_identical<T: Ord>(s: Seq<T>) -> bool {
    forall|i: int, j: int|
        0 <= i < s.len() && 0 <= j < s.len() && tied(#[trigger] s[i], #[trigger] s[j]) ==> s[i] == s[j]
}

/// A sequence of at most one element has no other arrangement.
pub proof fn lemma_short_permutation<T>(s: Seq<T>, t: Seq<T>)
    requires
        permutation(s, t),
        s.len() <= 1,
    ensures
        s == t,
{
    lemma_permutation_len(s, t);
    if s.len() == 1 {
        lemma_permutation_member(s, t, 0);
    }
    assert(s =~= t);
}

/// An ascending sequence in which equal elements are the same value is the
/// only ascending arrangement of its elements.
pub proof fn lemma_sorted_unique<T: Ord>(s: Seq<T>, t: Seq<T>)
    requires
        total_order::<T>(),
        sorted(s),
        sorted(t),
        permutation(s, t),
        ties_identical(s),
    ensures
        s == t,
    decreases s.len(),
{
    lemma_permutation_len(s, t);
    if s.len() > 0 {
        lemma_permutation_member(s, t, 0);
        let k = choose|k: int| 0 <= k < s.len() && s[k] == t[0];
        lemma_permutation_member(t, s, 0);
        let m = choose|m: int| 0 <= m < t.len() && t[m] == s[0];
        lemma_le_reflexive(s[0]);
        assert(le(s[0], s[k]));
        assert(le(t[0], t[m]));
        lemma_le_total(s[0], t[0]);
        lemma_le_total(t[0], s[0]);
        assert(tied(s[0], s[k]));
        assert(s[0] == t[0]);
        let s1 = s.drop_first();
        let t1 = t.drop_first();
        assert(s1 =~= s.remove(0));
        assert(t1 =~= t.remove(0));
        vstd::seq_lib::to_multiset_remove(s, 0);
        vstd::seq_lib::to_multiset_remove(t, 0);
        assert forall|i: int, j: int| 0 <= i < j < s1.len() implies le(#[trigger] s1[i], #[trigger] s1[j]) by {
            assert(s1[i] == s[i + 1] && s1[j] == s[j + 1]);
        }
        assert forall|i: int, j: int| 0 <= i < j < t1.len() implies le(#[trigger] t1[i], #[trigger] t1[j]) by {
            assert(t1[i] == t[i + 1] && t1[j] == t[j + 1]);
        }
        assert forall|i: int, j: int|
            0 <= i < s1.len() && 0 <= j < s1.len() && tied(#[trigger] s1[i], #[trigger] s1[j]) implies s1[i]
            == s1[j] by {
            assert(s1[i] == s[i + 1] && s1[j] == s[j + 1]);
        }
        lemma_sorted_unique(s1, t1);
        assert(s =~= seq![s[0]] + s1);
        assert(t =~= seq![t[0]] + t1);
    } else {
        assert(s =~= t);
    }
}

/// Any two ways of sorting give the same result: two ascending
/// rearrangements of one input are the same sequence, where equal elements
/// of the input are the same value.
pub proof fn lemma_sorts_agree<T: Ord>(input: Seq<T>, first: Seq<T>, second: Seq<T>)
    requires
        total_order::<T>(),
        ties_identical(input),
        permutation(input, first),
        permutation(input, second),
        sorted(first),
        sorted(second),
    ensures
        first == second,
{
    assert forall|i: int, j: int|
        0 <= i < first.len() && 0 <= j < first.len() && tied(#[trigger] first[i], #[trigger] first[j]) implies first[i]
        == first[j] by {
        lemma_permutation_member(input, first, i);
        lemma_permutation_member(input, first, j);
    }
    lemma_sorted_unique(first, second);
}

/// What follows for any sort from its result being an ascending
/// rearrangement: the length is kept, a sequence of at most one element is
/// left as it is, and so is an ascending one in which equal elements are the
/// same value.
pub proof fn lemma_sort_laws<T: Ord>(before: Seq<T>, after: Seq<T>)
    requires
        permutation(before, after),
        total_order::<T>() ==> sorted(after),
    ensures
        after.len() == before.len(),
        before.len() <= 1 ==> after == before,
        total_order::<T>() && sorted(before) && ties_identical(before) ==> after == before,
{
    lemma_permutation_len(before, after);
    if before.len() <= 1 {
        lemma_short_permutation(before, after);
    }
    if total_order::<T>() && sorted(before) && ties_identical(before) {
        lemma_sorted_unique(before, after);
    }
}

/// Whether an element compares equal to `x`.
pub open spec fn tied_to<T: Ord>(x: T) -> spec_fn(T) -> bool {
    |e: T| tied(e, x)
}

/// The elements of `s` that compare equal to `x`, in the order they have in
/// `s`.
pub open spec fn ties_of<T: Ord>(s: Seq<T>, x: T) -> Seq<T> {
    s.filter(tied_to(x))
}

/// A sequence without an element equal to `x` has no ties with it.
pub proof fn lemma_no_ties<T: Ord>(s: Seq<T>, x: T)
    requires
        forall|i: int| 0 <= i < s.len() ==> !tied(#[trigger] s[i], x),
    ensures
        ties_of(s, x) == Seq::<T>::empty(),
{
    let f = s.filter(tied_to(x));
    if f.len() > 0 {
        s.lemma_filter_pred(tied_to(x), 0);
        s.lemma_filter_contains_rev(tied_to(x), f[0]);
        let i = choose|i: int| 0 <= i < s.len() && s[i] == f[0];
        assert(tied(s[i], x));
    }
    assert(f =~= Seq::<T>::empty());
}

/// The ties of a sequence that begins with `e`: `e`, if it compares equal to
/// `x`, and then the ties of what follows.
pub proof fn lemma_ties_of_cons<T: Ord>(e: T, rest: Seq<T>, x: T)
    ensures
        ties_of(seq![e] + rest, x) == (if tied(e, x) {
            seq![e] + ties_of(rest, x)
        } else {
            ties_of(rest, x)
        }),
{
    let one = seq![e];
    Seq::filter_distributes_over_add(one, rest, tied_to(x));
    if tied(e, x) {
        one.lemma_filter_len(tied_to(x));
        one.lemma_filter_contains(tied_to(x), 0);
        let f = one.filter(tied_to(x));
        one.lemma_filter_contains_rev(tied_to(x), f[0]);
        assert(f =~= one);
    } else {
        assert forall|i: int| 0 <= i < one.len() implies !tied(#[trigger] one[i], x) by {}
        lemma_no_ties(one, x);
        assert(Seq::<T>::empty() + ties_of(rest, x) =~= ties_of(rest, x));
    }
}

/// Two ascending sequences that hold, for every `x`, the same elements equal
/// to `x` in the same order are the same sequence.
pub proof fn lemma_stable_unique<T: Ord>(s: Seq<T>, t: Seq<T>)
    requires
        total_order::<T>(),
        sorted(s),
        sorted(t),
        forall|x: T| #[trigger] ties_of(s, x) == ties_of(t, x),
    ensures
        s == t,
    decreases s.len() + t.len(),
{
    if s.len() == 0 && t.len() == 0 {
        assert(s =~= t);
    } else if s.len() == 0 || t.len() == 0 {
        // the one that has an element has a tie with it, the other has none
        let (full, none) = if s.len() == 0 { (t, s) } else { (s, t) };
        let x = full[0];
        lemma_le_reflexive(x);
        full.lemma_filter_contains(tied_to(x), 0);
        lemma_no_ties(none, x);
        assert(ties_of(s, x) == ties_of(t, x));
        assert(false);
    } else {
        let s0 = s[0];
        let t0 = t[0];
        let s1 = s.drop_first();
        let t1 = t.drop_first();
        assert(s =~= seq![s0] + s1);
        assert(t =~= seq![t0] + t1);
        lemma_le_reflexive(s0);
        lemma_le_reflexive(t0);
        // an element of t is tied with the head of s, and the head of t is
        // not above it
        assert(ties_of(s, s0) == ties_of(t, s0));
        s.lemma_filter_contains(tied_to(s0), 0);
        let e = ties_of(t, s0)[0];
        t.lemma_filter_pred(tied_to(s0), 0);
        t.lemma_filter_contains_rev(tied_to(s0), e);
        let k = choose|k: int| 0 <= k < t.len() && t[k] == e;
        lemma_le_total(t[k], s0);
        lemma_le_total(s0, t[k]);
        if k > 0 {
            assert(le(t[0], t[k]));
        }
        lemma_le_transitive(t0, t[k], s0);
        // and the other way round
        assert(ties_of(s, t0) == ties_of(t, t0));
        t.lemma_filter_contains(tied_to(t0), 0);
        let d = ties_of(s, t0)[0];
        s.lemma_filter_pred(tied_to(t0), 0);
        s.lemma_filter_contains_rev(tied_to(t0), d);
        let m = choose|m: int| 0 <= m < s.len() && s[m] == d;
        lemma_le_total(s[m], t0);
        lemma_le_total(t0, s[m]);
        if m > 0 {
            assert(le(s[0], s[m]));
        }
        lemma_le_transitive(s0, s[m], t0);
        lemma_le_total(s0, t0);
        lemma_le_total(t0, s0);
        assert(tied(t0, s0));
        // so both begin the ties with the head of s, and are the same value
        lemma_ties_of_cons(s0, s1, s0);
        lemma_ties_of_cons(t0, t1, s0);
        assert(ties_of(s, s0)[0] == s0);
        assert(ties_of(t, s0)[0] == t0);
        assert(s0 == t0);
        assert forall|x: T| #[trigger] ties_of(s1, x) == ties_of(t1, x) by {
            lemma_ties_of_cons(s0, s1, x);
            lemma_ties_of_cons(t0, t1, x);
            assert(ties_of(s, x) == ties_of(t, x));
            let a = ties_of(s1, x);
            let b = ties_of(t1, x);
            if tied(s0, x) {
                assert((seq![s0] + a).len() == (seq![s0] + b).len());
                assert forall|i: int| 0 <= i < a.len() implies a[i] == b[i] by {
                    assert((seq![s0] + a)[i + 1] == a[i]);
                    assert((seq![s0] + b)[i + 1] == b[i]);
                }
            }
            assert(a =~= b);
        }
        assert forall|i: int, j: int| 0 <= i < j < s1.len() implies le(#[trigger] s1[i], #[trigger] s1[j]) by {
            assert(s1[i] == s[i + 1] && s1[j] == s[j + 1]);
        }
        assert forall|i: int, j: int| 0 <= i < j < t1.len() implies le(#[trigger] t1[i], #[trigger] t1[j]) by {
            assert(t1[i] == t[i + 1] && t1[j] == t[j + 1]);
        }
        lemma_stable_unique(s1, t1);
    }
}

/// Whether `*a <= *b`.
pub fn is_le<T: Ord>(a: &T, b: &T) -> (r: bool)
    ensures
        total_order::<T>() ==> r == le(*a, *b),
{
    proof {
        if total_order::<T>() {
            reveal(vstd::laws_cmp::obeys_cmp_ord);
            reveal(vstd::laws_cmp::obeys_cmp_partial_ord);
            assert(a.partial_cmp_spec(b) == Some(a.cmp_spec(b)));
        }
    }
    *a <= *b
}

/// Whether `*a < *b`.
pub fn is_lt<T: Ord>(a: &T, b: &T) -> (r: bool)
    ensures
        total_order::<T>() ==> r == lt(*a, *b),
{
    proof {
        if total_order::<T>() {
            reveal(vstd::laws_cmp::obeys_cmp_ord);
            reveal(vstd::laws_cmp::obeys_cmp_partial_ord);
            assert(a.partial_cmp_spec(b) == Some(a.cmp_spec(b)));
        }
    }
    *a < *b
}

/// Whether `*a == *b`.
pub fn is_tied<T: Ord>(a: &T, b: &T) -> (r: bool)
    ensures
        total_order::<T>() ==> r == tied(*a, *b),
{
    proof {
        if total_order::<T>() {
            reveal(vstd::laws_cmp::obeys_cmp_ord);
            reveal(vstd::laws_cmp::obeys_cmp_partial_ord);
            reveal(vstd::laws_cmp::obeys_partial_cmp_spec_properties);
            assert(a.partial_cmp_spec(b) == Some(a.cmp_spec(b)));
        }
    }
    *a == *b
}

} // verus!
