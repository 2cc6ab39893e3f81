//! Facts about sequences and their multisets that several modules share.

use vstd::prelude::*;
use vstd::seq_lib::lemma_multiset_commutative;

verus! {

broadcast use {vstd::seq_lib::group_to_multiset_ensures, vstd::multiset::group_multiset_axioms};

/// Rewriting a middle window of a sequence by a permutation of itself
/// leaves the multiset of any enclosing window unchanged.
pub proof fn lemma_splice_multiset<T>(s0: Seq<T>, s1: Seq<T>, lo: int, lo2: int, hi2: int, hi: int)
    requires
        s0.len() == s1.len(),
        0 <= lo <= lo2 <= hi2 <= hi <= s0.len(),
        s1.subrange(lo2, hi2).to_multiset() == s0.subrange(lo2, hi2).to_multiset(),
        forall|k: int| lo <= k < lo2 ==> s1[k] == s0[k],
        forall|k: int| hi2 <= k < hi ==> s1[k] == s0[k],
    ensures
        s1.subrange(lo, hi).to_multiset() == s0.subrange(lo, hi).to_multiset(),
{
    let a0 = s0.subrange(lo, lo2);
    let b0 = s0.subrange(lo2, hi2);
    let c0 = s0.subrange(hi2, hi);
    let a1 = s1.subrange(lo, lo2);
    let b1 = s1.subrange(lo2, hi2);
    let c1 = s1.subrange(hi2, hi);
    assert(a1 =~= a0);
    assert(c1 =~= c0);
    assert(s0.subrange(lo, hi) =~= a0 + b0 + c0);
    assert(s1.subrange(lo, hi) =~= a0 + b1 + c0);
    lemma_multiset_commutative(a0 + b0, c0);
    lemma_multiset_commutative(a0 + b1, c0);
    lemma_multiset_commutative(a0, b0);
    lemma_multiset_commutative(a0, b1);
    assert((a0 + b0 + c0).to_multiset() =~= (a0 + b1 + c0).to_multiset());
}

/// A property that holds of every element of a window keeps holding
/// after the window is permuted: each new element occurs in the old
/// window. Stated through multiset membership.
pub proof fn lemma_window_member<T>(s0: Seq<T>, s1: Seq<T>, lo: int, hi: int, k: int) -> (k0: int)
    requires
        s0.len() == s1.len(),
        0 <= lo <= hi <= s0.len(),
        s1.subrange(lo, hi).to_multiset() == s0.subrange(lo, hi).to_multiset(),
        lo <= k < hi,
    ensures
        lo <= k0 < hi,
        s0[k0] == s1[k],
{
    let w1 = s1.subrange(lo, hi);
    let w0 = s0.subrange(lo, hi);
    assert(w1[k - lo] == s1[k]);
    assert(w1.to_multiset().contains(s1[k]));
    assert(w0.to_multiset().contains(s1[k]));
    assert(w0.contains(s1[k]));
    let i = choose|i: int| 0 <= i < w0.len() && w0[i] == s1[k];
    i + lo
}

/// The whole sequence is one window: a permuted window with everything
/// else fixed is a permutation of the whole.
pub proof fn lemma_splice_whole<T>(s0: Seq<T>, s1: Seq<T>, lo2: int, hi2: int)
    requires
        s0.len() == s1.len(),
        0 <= lo2 <= hi2 <= s0.len(),
        s1.subrange(lo2, hi2).to_multiset() == s0.subrange(lo2, hi2).to_multiset(),
        forall|k: int| 0 <= k < lo2 ==> s1[k] == s0[k],
        forall|k: int| hi2 <= k < s0.len() ==> s1[k] == s0[k],
    ensures
        s1.to_multiset() == s0.to_multiset(),
{
    lemma_splice_multiset(s0, s1, 0, lo2, hi2, s0.len() as int);
    assert(s0.subrange(0, s0.len() as int) =~= s0);
    assert(s1.subrange(0, s1.len() as int) =~= s1);
}

/// Multiset equality is transitive.
pub proof fn lemma_trans_multiset<T>(a: Seq<T>, b: Seq<T>, c: Seq<T>)
    requires
        b.to_multiset() == a.to_multiset(),
        c.to_multiset() == b.to_multiset(),
    ensures
        c.to_multiset() == a.to_multiset(),
{
}

} // verus!
