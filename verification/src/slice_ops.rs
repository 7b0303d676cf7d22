//! What this library takes on trust about the standard slice operations
//! that its sorts are built from.
use vstd::prelude::*;

verus! {

/// `<[T]>::swap`: exchanges the elements at `a` and `b` and touches nothing
/// else. The standard library panics when an index is out of bounds, so both
/// must be in bounds here.
pub assume_specification<E>[ <[E]>::swap ](slice: &mut [E], a: usize, b: usize)
    requires
        a < old(slice)@.len(),
        b < old(slice)@.len(),
    ensures
        final(slice)@ == swapped(old(slice)@, a as int, b as int),
;

/// `s` with the elements at `a` and `b` exchanged.
pub open spec fn swapped<T>(s: Seq<T>, a: int, b: int) -> Seq<T> {
    s.update(a, s[b]).update(b, s[a])
}

/// Exchanging two elements rearranges a sequence and changes nothing else.
pub proof fn lemma_swapped_permutation<T>(s: Seq<T>, a: int, b: int)
    requires
        0 <= a < s.len(),
        0 <= b < s.len(),
    ensures
        swapped(s, a, b).to_multiset() == s.to_multiset(),
        swapped(s, a, b).len() == s.len(),
{
    broadcast use vstd::seq_lib::group_to_multiset_ensures;
    if a == b {
        assert(swapped(s, a, b) =~= s);
    } else {
        let (lo, hi) = if a < b { (a, b) } else { (b, a) };
        let t = s.remove(hi).remove(lo);
        assert(s.remove(hi)[lo] == s[lo]);
        assert(t.to_multiset() == s.to_multiset().remove(s[hi]).remove(s[lo]));
        let u = t.insert(lo, s[hi]).insert(hi, s[lo]);
        assert(u =~= swapped(s, a, b));
        assert(u.to_multiset() == t.to_multiset().insert(s[hi]).insert(s[lo]));
        assert(s.to_multiset().count(s[hi]) > 0) by {
            assert(s.contains(s[hi]));
        }
        assert(s.to_multiset().count(s[lo]) > 0) by {
            assert(s.contains(s[lo]));
        }
        assert(s.remove(hi).to_multiset().count(s[lo]) > 0) by {
            assert(s.remove(hi).contains(s[lo]));
        }
        assert(u.to_multiset() =~= s.to_multiset());
    }
}

} // verus!
