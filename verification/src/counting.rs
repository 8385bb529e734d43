//! How many vertex identifiers a set can hold.

use vstd::prelude::*;

verus! {

/// A set of identifiers from `1..=hi` is finite and has at most `hi` elements.
pub proof fn lemma_bounded_set(s: Set<i32>, hi: int)
    requires
        forall|x: i32| s.contains(x) ==> 1 <= x <= hi,
        hi <= i32::MAX,
    ensures
        s.finite(),
        s.len() <= hi || (hi < 0 && s.len() == 0),
    decreases hi,
{
    if hi <= 0 {
        assert(s =~= Set::empty());
    } else {
        let top = hi as i32;
        let rest = s.remove(top);
        lemma_bounded_set(rest, hi - 1);
        if s.contains(top) {
            assert(s =~= rest.insert(top));
        } else {
            assert(s =~= rest);
        }
    }
}

/// The set of the identifiers `1..=n` has `n` elements.
pub proof fn lemma_full_range(s: Set<i32>, n: int)
    requires
        forall|x: i32| s.contains(x) <==> 1 <= x <= n,
        0 <= n <= i32::MAX,
    ensures
        s.finite(),
        s.len() == n,
    decreases n,
{
    if n == 0 {
        assert(s =~= Set::empty());
    } else {
        let top = n as i32;
        let rest = s.remove(top);
        lemma_full_range(rest, n - 1);
        assert(s =~= rest.insert(top));
    }
}

} // verus!
