//! Reachability over the link structure of the object pool.
//!
//! The pool is abstracted as a sequence of link pairs, one per record: the
//! optional `head` and `tail` targets.  Reachability is the reflexive,
//! transitive closure of the "points to" relation, defined through bounded
//! path length so that proofs can proceed by induction on the path.

use vstd::prelude::*;

verus! {

/// Does the link pair `l` point at identity `j` (through head or tail)?
pub open spec fn points_to(l: (Option<usize>, Option<usize>), j: usize) -> bool {
    l.0 == Some(j) || l.1 == Some(j)
}

/// Is there a path of exactly `n` link steps from `src` to `dst`?
pub open spec fn reaches_in(
    ls: Seq<(Option<usize>, Option<usize>)>,
    src: usize,
    dst: usize,
    n: nat,
) -> bool
    decreases n,
{
    if n == 0 {
        src == dst
    } else {
        exists|mid: usize|
            reaches_in(ls, src, mid, (n - 1) as nat) && mid < ls.len() && points_to(
                ls[mid as int],
                dst,
            )
    }
}

/// Is `dst` reachable from `src` (in any number of steps)?
pub open spec fn reaches(ls: Seq<(Option<usize>, Option<usize>)>, src: usize, dst: usize) -> bool {
    exists|n: nat| reaches_in(ls, src, dst, n)
}

/// Every identity reaches itself.
pub proof fn lemma_reaches_refl(ls: Seq<(Option<usize>, Option<usize>)>, src: usize)
    ensures
        reaches(ls, src, src),
{
    assert(reaches_in(ls, src, src, 0));
}

/// Following one more link from a reachable identity stays reachable.
pub proof fn lemma_reaches_step(
    ls: Seq<(Option<usize>, Option<usize>)>,
    src: usize,
    mid: usize,
    dst: usize,
)
    requires
        reaches(ls, src, mid),
        mid < ls.len(),
        points_to(ls[mid as int], dst),
    ensures
        reaches(ls, src, dst),
{
    let n = choose|n: nat| reaches_in(ls, src, mid, n);
    assert(reaches_in(ls, src, dst, n + 1));
}

/// A link out of `src` itself extends any path that starts at its target.
pub proof fn lemma_reaches_prepend(
    ls: Seq<(Option<usize>, Option<usize>)>,
    src: usize,
    mid: usize,
    dst: usize,
)
    requires
        src < ls.len(),
        points_to(ls[src as int], mid),
        reaches(ls, mid, dst),
    ensures
        reaches(ls, src, dst),
{
    let n = choose|n: nat| reaches_in(ls, mid, dst, n);
    lemma_reaches_in_prepend(ls, src, mid, dst, n);
}

proof fn lemma_reaches_in_prepend(
    ls: Seq<(Option<usize>, Option<usize>)>,
    src: usize,
    mid: usize,
    dst: usize,
    n: nat,
)
    requires
        src < ls.len(),
        points_to(ls[src as int], mid),
        reaches_in(ls, mid, dst, n),
    ensures
        reaches(ls, src, dst),
    decreases n,
{
    if n == 0 {
        assert(reaches_in(ls, src, dst, 1)) by {
            assert(reaches_in(ls, src, src, 0));
        }
    } else {
        let m = choose|m: usize|
            reaches_in(ls, mid, m, (n - 1) as nat) && m < ls.len() && points_to(ls[m as int], dst);
        lemma_reaches_in_prepend(ls, src, mid, m, (n - 1) as nat);
        let k = choose|k: nat| reaches_in(ls, src, m, k);
        assert(reaches_in(ls, src, dst, k + 1));
    }
}

/// Every identity reachable from a valid `src` is either `src` itself or the
/// target of some in-range link.
pub proof fn lemma_reaches_valid(
    ls: Seq<(Option<usize>, Option<usize>)>,
    src: usize,
    dst: usize,
)
    requires
        reaches(ls, src, dst),
        dst != src,
    ensures
        exists|mid: usize| mid < ls.len() && points_to(ls[mid as int], dst),
{
    let n = choose|n: nat| reaches_in(ls, src, dst, n);
    lemma_reaches_in_valid(ls, src, dst, n);
}

proof fn lemma_reaches_in_valid(
    ls: Seq<(Option<usize>, Option<usize>)>,
    src: usize,
    dst: usize,
    n: nat,
)
    requires
        reaches_in(ls, src, dst, n),
        dst != src,
    ensures
        exists|mid: usize| mid < ls.len() && points_to(ls[mid as int], dst),
{
}

/// A set that contains `src` and is closed under the links contains
/// everything reachable from `src`.
pub proof fn lemma_reaches_in_closed_set(
    ls: Seq<(Option<usize>, Option<usize>)>,
    s: Set<usize>,
    src: usize,
    dst: usize,
)
    requires
        s.contains(src),
        forall|i: usize, j: usize|
            s.contains(i) && i < ls.len() && #[trigger] points_to(ls[i as int], j) ==> s.contains(
                j,
            ),
        reaches(ls, src, dst),
    ensures
        s.contains(dst),
{
    let n = choose|n: nat| reaches_in(ls, src, dst, n);
    lemma_reaches_in_closed_set_rec(ls, s, src, dst, n);
}

proof fn lemma_reaches_in_closed_set_rec(
    ls: Seq<(Option<usize>, Option<usize>)>,
    s: Set<usize>,
    src: usize,
    dst: usize,
    n: nat,
)
    requires
        s.contains(src),
        forall|i: usize, j: usize|
            s.contains(i) && i < ls.len() && #[trigger] points_to(ls[i as int], j) ==> s.contains(
                j,
            ),
        reaches_in(ls, src, dst, n),
    ensures
        s.contains(dst),
    decreases n,
{
    if n > 0 {
        let mid = choose|mid: usize|
            reaches_in(ls, src, mid, (n - 1) as nat) && mid < ls.len() && points_to(
                ls[mid as int],
                dst,
            );
        lemma_reaches_in_closed_set_rec(ls, s, src, mid, (n - 1) as nat);
    }
}

/// Reachability only looks at the links of identities it passes through: if
/// two pools agree on the links of everything reachable from `src` in the
/// first, they have the same reachable identities from `src`.
pub proof fn lemma_reaches_agree(
    ls1: Seq<(Option<usize>, Option<usize>)>,
    ls2: Seq<(Option<usize>, Option<usize>)>,
    src: usize,
    dst: usize,
)
    requires
        ls1.len() == ls2.len(),
        forall|mid: usize|
            #[trigger] reaches(ls1, src, mid) && mid < ls1.len() ==> ls1[mid as int] == ls2[mid as int],
        reaches(ls1, src, dst),
    ensures
        reaches(ls2, src, dst),
{
    let n = choose|n: nat| reaches_in(ls1, src, dst, n);
    lemma_reaches_agree_rec(ls1, ls2, src, dst, n);
}

proof fn lemma_reaches_agree_rec(
    ls1: Seq<(Option<usize>, Option<usize>)>,
    ls2: Seq<(Option<usize>, Option<usize>)>,
    src: usize,
    dst: usize,
    n: nat,
)
    requires
        ls1.len() == ls2.len(),
        forall|mid: usize|
            #[trigger] reaches(ls1, src, mid) && mid < ls1.len() ==> ls1[mid as int] == ls2[mid as int],
        reaches_in(ls1, src, dst, n),
    ensures
        reaches(ls2, src, dst),
    decreases n,
{
    if n == 0 {
        lemma_reaches_refl(ls2, src);
    } else {
        let mid = choose|mid: usize|
            reaches_in(ls1, src, mid, (n - 1) as nat) && mid < ls1.len() && points_to(
                ls1[mid as int],
                dst,
            );
        lemma_reaches_agree_rec(ls1, ls2, src, mid, (n - 1) as nat);
        assert(reaches(ls1, src, mid));
        lemma_reaches_step(ls2, src, mid, dst);
    }
}

/// Growing the links of a pool pointwise (every old target is kept) preserves
/// every reachability fact.
pub proof fn lemma_reaches_monotone(
    ls1: Seq<(Option<usize>, Option<usize>)>,
    ls2: Seq<(Option<usize>, Option<usize>)>,
    src: usize,
    dst: usize,
)
    requires
        ls1.len() == ls2.len(),
        forall|i: usize, j: usize|
            i < ls1.len() && #[trigger] points_to(ls1[i as int], j) ==> points_to(
                ls2[i as int],
                j,
            ),
        reaches(ls1, src, dst),
    ensures
        reaches(ls2, src, dst),
{
    let n = choose|n: nat| reaches_in(ls1, src, dst, n);
    lemma_reaches_monotone_rec(ls1, ls2, src, dst, n);
}

proof fn lemma_reaches_monotone_rec(
    ls1: Seq<(Option<usize>, Option<usize>)>,
    ls2: Seq<(Option<usize>, Option<usize>)>,
    src: usize,
    dst: usize,
    n: nat,
)
    requires
        ls1.len() == ls2.len(),
        forall|i: usize, j: usize|
            i < ls1.len() && #[trigger] points_to(ls1[i as int], j) ==> points_to(
                ls2[i as int],
                j,
            ),
        reaches_in(ls1, src, dst, n),
    ensures
        reaches(ls2, src, dst),
    decreases n,
{
    if n == 0 {
        lemma_reaches_refl(ls2, src);
    } else {
        let mid = choose|mid: usize|
            reaches_in(ls1, src, mid, (n - 1) as nat) && mid < ls1.len() && points_to(
                ls1[mid as int],
                dst,
            );
        lemma_reaches_monotone_rec(ls1, ls2, src, mid, (n - 1) as nat);
        lemma_reaches_step(ls2, src, mid, dst);
    }
}

} // verus!
