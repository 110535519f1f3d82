//! Counting helpers for sets of identities.

use vstd::prelude::*;

verus! {

/// The set of identities strictly below `n`.
pub open spec fn ids_below(n: usize) -> Set<usize> {
    Set::new(|i: usize| i < n)
}

/// `ids_below(n)` is finite and has exactly `n` elements.
pub proof fn lemma_ids_below_len(n: usize)
    ensures
        ids_below(n).finite(),
        ids_below(n).len() == n,
    decreases n,
{
    if n == 0 {
        assert(ids_below(0) =~= Set::<usize>::empty());
    } else {
        lemma_ids_below_len((n - 1) as usize);
        assert(ids_below(n) =~= ids_below((n - 1) as usize).insert((n - 1) as usize));
    }
}

/// Two disjoint finite sets have a union of exactly the combined size.
pub proof fn lemma_disjoint_union_len<A>(s1: Set<A>, s2: Set<A>)
    requires
        s1.finite(),
        s2.finite(),
        s1.disjoint(s2),
    ensures
        s1.union(s2).len() == s1.len() + s2.len(),
    decreases s1.len(),
{
    if s1.is_empty() {
        assert(s1.union(s2) =~= s2);
    } else {
        let a = s1.choose();
        assert(s1.union(s2).remove(a) =~= s1.remove(a).union(s2));
        lemma_disjoint_union_len(s1.remove(a), s2);
        assert(s1.union(s2).contains(a));
        assert(s1.union(s2).len() == s1.union(s2).remove(a).len() + 1);
    }
}

} // verus!
