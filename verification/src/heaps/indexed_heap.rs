//! An index-tracked heap: the heap array of the core, kept in lockstep
//! with an item-to-position index so that removal and key adjustment find
//! their slot without scanning the tree, and then repair the heap along a
//! single root-to-leaf path. The index here is an association vector, so
//! the position lookup itself is a scan of the entries; only the entries
//! that actually move during a sift are renamed. The central invariant is the
//! bijection between the two structures: every index entry names the slot
//! that really holds its item, and every slot is named by exactly one
//! entry. Items must be pairwise non-equivalent for the index to be
//! unambiguous.

use vstd::prelude::*;
use vstd::multiset::Multiset;
use core::marker::PhantomData;
use crate::order::{TotalOrder, DupValue, eqv, eqv_exec, lemma_eqv_transitive};
use crate::heaps::heap::{
    HeapType, above, heap_shape, shape_except, bridge_over, down_ready, parent_index, edge_ok,
    lemma_parent_bounds, lemma_child_parent, lemma_above_transitive, lemma_above_connex,
    lemma_root_best, lemma_shape_bridges, lemma_swap_multiset, lemma_sift_up_step,
    lemma_sift_down_step, lemma_dup_slots_count, lemma_count_two_slots, extraction_ordered,
};
use crate::util::vec_util::swap_in_vec;

verus! {

broadcast use {vstd::seq_lib::group_to_multiset_ensures, vstd::multiset::group_multiset_axioms};

/// No two stored items are equivalent under the ordering.
pub open spec fn distinct_keys<T: TotalOrder>(s: Seq<T>) -> bool {
    forall|i: int, j: int| 0 <= i < j < s.len() ==> !eqv(#[trigger] s[i], #[trigger] s[j])
}

/// Some index entry names position `i`.
pub open spec fn pos_covered<T>(m: Seq<(T, usize)>, i: int) -> bool {
    exists|k: int| 0 <= k < m.len() && (#[trigger] m[k]).1 == i
}

/// The index entries and the heap array agree exactly: as many entries as
/// slots, every entry's item really sits at the position it names, no two
/// entries name the same position, and every slot is named.
pub open spec fn index_exact<T>(m: Seq<(T, usize)>, h: Seq<T>) -> bool {
    &&& m.len() == h.len()
    &&& forall|k: int|
        0 <= k < m.len() ==> (#[trigger] m[k]).1 < h.len() && h[m[k].1 as int] == m[k].0
    &&& forall|k1: int, k2: int|
        0 <= k1 < k2 < m.len() ==> (#[trigger] m[k1]).1 != (#[trigger] m[k2]).1
    &&& forall|i: int| 0 <= i < h.len() ==> pos_covered(m, i)
}

/// An item equivalent to `x` occurs somewhere in the sequence.
pub open spec fn has_key_eqv<T: TotalOrder>(s: Seq<T>, x: T) -> bool {
    exists|i: int| 0 <= i < s.len() && eqv(#[trigger] s[i], x)
}

/// A heap whose items are also tracked by position in an index map.
pub struct IndexedHeap<T, H>
    where T: TotalOrder + DupValue, H: HeapType
{
    heap: Vec<T>,
    index_map: Vec<(T, usize)>,
    _marker: PhantomData<H>,
}

impl<T, H> View for IndexedHeap<T, H>
    where T: TotalOrder + DupValue, H: HeapType
{
    type V = Seq<T>;

    closed spec fn view(&self) -> Seq<T> {
        self.heap@
    }
}

impl<T, H> IndexedHeap<T, H>
    where T: TotalOrder + DupValue, H: HeapType
{
    /// The stored index entries, each an item together with the position
    /// it names.
    pub closed spec fn entries(&self) -> Seq<(T, usize)> {
        self.index_map@
    }

    /// Well-formedness: heap shape, pairwise non-equivalent items, and
    /// the exact index bijection.
    pub open spec fn wf(&self) -> bool {
        &&& heap_shape::<T, H>(self@)
        &&& distinct_keys(self@)
        &&& index_exact(self.entries(), self@)
    }

    /// Creates a new empty indexed heap.
    pub fn new() -> (r: Self)
        ensures
            r@ == Seq::<T>::empty(),
            r.wf(),
    {
        let r = IndexedHeap {
            heap: Vec::new(),
            index_map: Vec::new(),
            _marker: PhantomData,
        };
        proof {
            assert(r@ =~= Seq::<T>::empty());
        }
        r
    }

    /// Creates a new empty indexed heap with a capacity hint.
    pub fn with_capacity(capacity: usize) -> (r: Self)
        ensures
            r@ == Seq::<T>::empty(),
            r.wf(),
    {
        let r = IndexedHeap {
            heap: Vec::with_capacity(capacity),
            index_map: Vec::with_capacity(capacity),
            _marker: PhantomData,
        };
        proof {
            assert(r@ =~= Seq::<T>::empty());
        }
        r
    }

    /// Returns the number of items in the heap.
    pub fn len(&self) -> (n: usize)
        ensures
            n == self@.len(),
    {
        self.heap.len()
    }

    /// Returns `true` if the heap contains no items.
    pub fn is_empty(&self) -> (b: bool)
        ensures
            b == (self@.len() == 0),
    {
        self.heap.len() == 0
    }

    /// Returns a reference to the top item, if any.
    pub fn peek(&self) -> (r: Option<&T>)
        requires
            self.wf(),
        ensures
            match r {
                Some(t) => self@.len() > 0 && *t == self@[0] && forall|i: int|
                    0 <= i < self@.len() ==> above::<T, H>(*t, #[trigger] self@[i]),
                None => self@.len() == 0,
            },
    {
        if self.heap.len() == 0 {
            None
        } else {
            proof {
                assert forall|i: int| 0 <= i < self@.len() implies above::<T, H>(
                    self@[0],
                    #[trigger] self@[i],
                ) by {
                    lemma_root_best::<T, H>(self@, i);
                }
            }
            Some(&self.heap[0])
        }
    }

    /// Finds the index-map slot whose entry names heap position `pos`.
    fn find_pos_slot(&self, pos: usize) -> (k: usize)
        requires
            index_exact(self.entries(), self@),
            pos < self@.len(),
        ensures
            k < self.entries().len(),
            self.entries()[k as int].1 == pos,
    {
        let n = self.index_map.len();
        let mut k: usize = 0;
        while k < n
            invariant
                n == self.entries().len(),
                k <= n,
                index_exact(self.entries(), self@),
                pos < self@.len(),
                forall|k2: int| 0 <= k2 < k ==> (#[trigger] self.entries()[k2]).1 != pos,
            decreases n - k,
        {
            if self.index_map[k].1 == pos {
                return k;
            }
            k = k + 1;
        }
        proof {
            assert(pos_covered(self.entries(), pos as int));
            assert(false);
        }
        0
    }

    /// Exchanges the items at heap positions `i` and `j` and renames the
    /// two index entries accordingly, preserving the bijection.
    fn swap_slots(&mut self, i: usize, j: usize)
        requires
            index_exact(old(self).entries(), old(self)@),
            i < old(self)@.len(),
            j < old(self)@.len(),
            i != j,
        ensures
            final(self)@ == old(self)@.update(i as int, old(self)@[j as int]).update(
                j as int,
                old(self)@[i as int],
            ),
            index_exact(final(self).entries(), final(self)@),
    {
        let ki = self.find_pos_slot(i);
        let kj = self.find_pos_slot(j);
        proof {
            assert(ki != kj);
        }
        let key_i = self.index_map[ki].0.duplicate();
        let key_j = self.index_map[kj].0.duplicate();
        let ghost m0 = self.entries();
        self.index_map[ki] = (key_i, j);
        self.index_map[kj] = (key_j, i);
        let ghost m1 = self.entries();
        let ghost h0 = self@;
        swap_in_vec(&mut self.heap, i, j);
        proof {
            let h1 = self@;
            assert(m1 == m0.update(ki as int, (m0[ki as int].0, j)).update(
                kj as int,
                (m0[kj as int].0, i),
            ));
            assert forall|k: int| 0 <= k < m1.len() implies (#[trigger] m1[k]).1 < h1.len()
                && h1[m1[k].1 as int] == m1[k].0 by {
                if k == ki as int {
                    assert(h1[j as int] == h0[i as int]);
                } else if k == kj as int {
                    assert(h1[i as int] == h0[j as int]);
                } else {
                    assert(m0[k].1 != i && m0[k].1 != j);
                }
            }
            assert forall|k1: int, k2: int| 0 <= k1 < k2 < m1.len() implies (#[trigger] m1[k1]).1
                != (#[trigger] m1[k2]).1 by {
            }
            assert forall|p: int| 0 <= p < h1.len() implies pos_covered(m1, p) by {
                if p == i as int {
                    assert(m1[kj as int].1 == i);
                } else if p == j as int {
                    assert(m1[ki as int].1 == j);
                } else {
                    assert(pos_covered(m0, p));
                    let k = choose|k: int| 0 <= k < m0.len() && (#[trigger] m0[k]).1 == p;
                    assert(m1[k].1 == p);
                }
            }
        }
    }

    /// Restores the heap shape by sifting the element at `j0` up,
    /// renaming index entries at every exchange.
    fn sift_up(&mut self, j0: usize)
        requires
            j0 < old(self)@.len(),
            shape_except::<T, H>(old(self)@, j0 as int),
            bridge_over::<T, H>(old(self)@, j0 as int),
            index_exact(old(self).entries(), old(self)@),
            distinct_keys(old(self)@),
        ensures
            final(self).wf(),
            final(self)@.to_multiset() == old(self)@.to_multiset(),
            final(self)@.len() == old(self)@.len(),
    {
        proof {
            H::lemma_arity();
        }
        let d = H::arity();
        let mut j = j0;
        while j > 0
            invariant
                j < self@.len(),
                d as int == H::arity_spec(),
                2 <= d,
                shape_except::<T, H>(self@, j as int),
                bridge_over::<T, H>(self@, j as int),
                index_exact(self.entries(), self@),
                distinct_keys(self@),
                self@.to_multiset() == old(self)@.to_multiset(),
                self@.len() == old(self)@.len(),
            decreases j,
        {
            let p = (j - 1) / d;
            proof {
                lemma_parent_bounds(j as int, d as int);
            }
            let swap_needed = if H::is_min_first() {
                !self.heap[p].leq(&self.heap[j])
            } else {
                !self.heap[j].leq(&self.heap[p])
            };
            proof {
                lemma_above_connex::<T, H>(self@[p as int], self@[j as int]);
            }
            if swap_needed {
                let ghost s0 = self@;
                self.swap_slots(p, j);
                proof {
                    lemma_sift_up_step::<T, H>(s0, j as int);
                    lemma_swap_multiset(s0, p as int, j as int);
                    lemma_swap_distinct(s0, p as int, j as int);
                }
                j = p;
            } else {
                proof {
                    assert(edge_ok::<T, H>(self@, j as int));
                }
                return ;
            }
        }
    }

    /// Restores the heap shape below `j0` by sifting down, renaming index
    /// entries at every exchange; as in the core heap, only the edge
    /// leading up from `j0` can remain out of order afterwards.
    fn sift_down(&mut self, j0: usize)
        requires
            j0 < old(self)@.len(),
            down_ready::<T, H>(old(self)@, j0 as int),
            index_exact(old(self).entries(), old(self)@),
            distinct_keys(old(self)@),
        ensures
            shape_except::<T, H>(final(self)@, j0 as int),
            bridge_over::<T, H>(final(self)@, j0 as int),
            index_exact(final(self).entries(), final(self)@),
            distinct_keys(final(self)@),
            final(self)@.to_multiset() == old(self)@.to_multiset(),
            final(self)@.len() == old(self)@.len(),
    {
        proof {
            H::lemma_arity();
        }
        let d = H::arity();
        let len = self.heap.len();
        let mut j = j0;
        loop
            invariant
                j0 <= j < len,
                len == self@.len(),
                d as int == H::arity_spec(),
                2 <= d,
                down_ready::<T, H>(self@, j as int),
                j != j0 ==> edge_ok::<T, H>(self@, j as int),
                index_exact(self.entries(), self@),
                distinct_keys(self@),
                self@.to_multiset() == old(self)@.to_multiset(),
                self@.len() == old(self)@.len(),
            ensures
                shape_except::<T, H>(self@, j0 as int),
                bridge_over::<T, H>(self@, j0 as int),
                index_exact(self.entries(), self@),
                distinct_keys(self@),
                self@.to_multiset() == old(self)@.to_multiset(),
                self@.len() == old(self)@.len(),
            decreases len - j,
        {
            let mut extreme = j;
            let base = j.checked_mul(d);
            let ghost s = self@;
            proof {
                lemma_above_connex::<T, H>(s[j as int], s[j as int]);
            }
            if let Some(b) = base {
                proof {
                    vstd::arithmetic::mul::lemma_mul_is_commutative(j as int, d as int);
                    assert forall|c: int|
                        1 <= c < s.len() && #[trigger] parent_index(c, d as int) == j as int implies
                        c >= b + 1 by {
                        lemma_parent_bounds(c, d as int);
                    }
                }
                let mut k: usize = 1;
                loop
                    invariant
                        1 <= k <= d,
                        b as int == (j as int) * (d as int),
                        b as int == (d as int) * (j as int),
                        j <= extreme < len,
                        len == self@.len(),
                        self@ == s,
                        d as int == H::arity_spec(),
                        2 <= d,
                        j < len,
                        extreme == j || (parent_index(extreme as int, d as int) == j as int
                            && !above::<T, H>(s[j as int], s[extreme as int])),
                        above::<T, H>(s[extreme as int], s[j as int]),
                        forall|c: int|
                            1 <= c < s.len() && #[trigger] parent_index(c, d as int) == j as int
                                && c < b + k ==> above::<T, H>(s[extreme as int], s[c]),
                    ensures
                        j <= extreme < len,
                        self@ == s,
                        extreme == j || (parent_index(extreme as int, d as int) == j as int
                            && !above::<T, H>(s[j as int], s[extreme as int])),
                        above::<T, H>(s[extreme as int], s[j as int]),
                        forall|c: int|
                            1 <= c < s.len() && #[trigger] parent_index(c, d as int) == j as int
                                ==> above::<T, H>(s[extreme as int], s[c]),
                    decreases d - k,
                {
                    let next = b.checked_add(k);
                    match next {
                        Some(child) => {
                            let better = if child < len {
                                if H::is_min_first() {
                                    !self.heap[extreme].leq(&self.heap[child])
                                } else {
                                    !self.heap[child].leq(&self.heap[extreme])
                                }
                            } else {
                                false
                            };
                            if better {
                                proof {
                                    lemma_child_parent(j as int, k as int, d as int);
                                    lemma_above_connex::<T, H>(s[extreme as int], s[child as int]);
                                    lemma_above_connex::<T, H>(s[child as int], s[child as int]);
                                    lemma_above_transitive::<T, H>(
                                        s[child as int],
                                        s[extreme as int],
                                        s[j as int],
                                    );
                                    assert forall|c: int|
                                        1 <= c < s.len() && #[trigger] parent_index(c, d as int)
                                            == j as int && c < b + k + 1 implies above::<T, H>(
                                        s[child as int],
                                        s[c],
                                    ) by {
                                        if c < b + k {
                                            lemma_above_transitive::<T, H>(
                                                s[child as int],
                                                s[extreme as int],
                                                s[c],
                                            );
                                        } else {
                                            assert(c == child as int);
                                        }
                                    }
                                    if above::<T, H>(s[j as int], s[child as int]) {
                                        lemma_above_transitive::<T, H>(
                                            s[j as int],
                                            s[child as int],
                                            s[extreme as int],
                                        );
                                        assert(false);
                                    }
                                }
                                extreme = child;
                            } else {
                                proof {
                                    assert forall|c: int|
                                        1 <= c < s.len() && #[trigger] parent_index(c, d as int)
                                            == j as int && c < b + k + 1 implies above::<T, H>(
                                        s[extreme as int],
                                        s[c],
                                    ) by {
                                        if c == b + k {
                                            lemma_parent_bounds(c, d as int);
                                            lemma_above_connex::<T, H>(s[extreme as int], s[c]);
                                        }
                                    }
                                }
                            }
                            if k == d {
                                proof {
                                    assert forall|c: int|
                                        1 <= c < s.len() && #[trigger] parent_index(c, d as int)
                                            == j as int implies c < b + k + 1 by {
                                        lemma_parent_bounds(c, d as int);
                                    }
                                }
                                break ;
                            }
                            k = k + 1;
                        },
                        None => {
                            proof {
                                assert forall|c: int|
                                    1 <= c < s.len() && #[trigger] parent_index(c, d as int)
                                        == j as int implies above::<T, H>(s[extreme as int], s[c]) by {
                                    lemma_parent_bounds(c, d as int);
                                    if c >= b + k {
                                        assert(b + k > usize::MAX);
                                        assert(c < len <= usize::MAX);
                                        assert(false);
                                    }
                                }
                            }
                            break ;
                        },
                    }
                }
            } else {
                proof {
                    assert forall|c: int|
                        1 <= c < s.len() && #[trigger] parent_index(c, d as int) == j as int implies
                        above::<T, H>(s[extreme as int], s[c]) by {
                        lemma_parent_bounds(c, d as int);
                        assert(c >= d as int * (j as int) + 1);
                        assert(d as int * (j as int) == j as int * (d as int)) by (nonlinear_arith);
                        assert(j as int * d as int > usize::MAX);
                        assert(c < len <= usize::MAX);
                        assert(false);
                    }
                }
            }
            if extreme != j {
                let ghost s0 = self@;
                self.swap_slots(j, extreme);
                proof {
                    lemma_sift_down_step::<T, H>(s0, j as int, extreme as int);
                    lemma_swap_multiset(s0, j as int, extreme as int);
                    lemma_swap_distinct(s0, j as int, extreme as int);
                }
                j = extreme;
            } else {
                proof {
                    assert forall|c: int| 1 <= c < self@.len() && c != j0 as int implies
                        #[trigger] edge_ok::<T, H>(self@, c) by {
                        let q = parent_index(c, d as int);
                        if c == j as int {
                        } else if q == j as int {
                            assert(above::<T, H>(s[j as int], s[c]));
                        }
                    }
                    if j != j0 {
                        assert(heap_shape::<T, H>(self@));
                        lemma_shape_bridges::<T, H>(self@, j0 as int);
                    }
                }
                break ;
            }
        }
    }
}

impl<T, H> IndexedHeap<T, H>
    where T: TotalOrder + DupValue, H: HeapType
{
    /// Removes the index entry naming position `pos` and drops the last
    /// heap slot, which the caller has already arranged to hold the item
    /// leaving the structure.
    fn drop_last_slot(&mut self) -> (t: T)
        requires
            index_exact(old(self).entries(), old(self)@),
            old(self)@.len() > 0,
        ensures
            t == old(self)@[old(self)@.len() - 1],
            final(self)@ == old(self)@.drop_last(),
            index_exact(final(self).entries(), final(self)@),
    {
        let n = self.heap.len() - 1;
        let k = self.find_pos_slot(n);
        let ghost m0 = self.entries();
        self.index_map.swap_remove(k);
        let t = self.heap.pop().unwrap();
        proof {
            let m1 = self.entries();
            let h1 = self@;
            assert(h1 =~= old(self)@.drop_last());
            assert forall|k2: int| 0 <= k2 < m1.len() implies (#[trigger] m1[k2]).1 < h1.len()
                && h1[m1[k2].1 as int] == m1[k2].0 by {
                let src: int = if k2 == k as int { m0.len() - 1 } else { k2 };
                assert(m1[k2] == m0[src]);
                assert(m0[src].1 != n);
            }
            assert forall|k1: int, k2: int| 0 <= k1 < k2 < m1.len() implies (#[trigger] m1[k1]).1
                != (#[trigger] m1[k2]).1 by {
                let s1: int = if k1 == k as int { m0.len() - 1 } else { k1 };
                let s2: int = if k2 == k as int { m0.len() - 1 } else { k2 };
                assert(m1[k1] == m0[s1] && m1[k2] == m0[s2]);
            }
            assert forall|p: int| 0 <= p < h1.len() implies pos_covered(m1, p) by {
                assert(pos_covered(m0, p));
                let k0 = choose|k0: int| 0 <= k0 < m0.len() && (#[trigger] m0[k0]).1 == p;
                assert(k0 != k as int);
                if k0 == m0.len() - 1 {
                    assert(m1[k as int] == m0[k0]);
                } else {
                    assert(m1[k0] == m0[k0]);
                }
            }
        }
        t
    }

    /// Pushes an item onto the heap and records its position in the
    /// index map. The item must not be equivalent to one already stored.
    pub fn push(&mut self, item: T)
        requires
            old(self).wf(),
            !has_key_eqv(old(self)@, item),
        ensures
            final(self).wf(),
            final(self)@.to_multiset() == old(self)@.to_multiset().insert(item),
            final(self)@.len() == old(self)@.len() + 1,
    {
        proof {
            H::lemma_arity();
        }
        let ghost s0 = self@;
        let ghost m0 = self.entries();
        let n = self.heap.len();
        let dup = item.duplicate();
        self.heap.push(item);
        self.index_map.push((dup, n));
        proof {
            let d = H::arity_spec();
            assert forall|c: int| 1 <= c < self@.len() && c != n as int implies #[trigger] edge_ok::<
                T,
                H,
            >(self@, c) by {
                lemma_parent_bounds(c, d);
                assert(edge_ok::<T, H>(s0, c));
            }
            assert forall|c: int|
                1 <= c < self@.len() && #[trigger] parent_index(c, d) == n as int implies false by {
                lemma_parent_bounds(c, d);
                assert(d * (n as int) + 1 <= c);
                assert(d * (n as int) >= 2 * (n as int)) by (nonlinear_arith)
                    requires
                        d >= 2,
                        n as int >= 0,
                ;
            }
            assert forall|i: int, j: int| 0 <= i < j < self@.len() implies !eqv(
                #[trigger] self@[i],
                #[trigger] self@[j],
            ) by {
                if j == n as int {
                    assert(!eqv(s0[i], item));
                }
            }
            let m1 = self.entries();
            assert forall|p: int| 0 <= p < self@.len() implies pos_covered(m1, p) by {
                if p == n as int {
                    assert(m1[m1.len() - 1].1 == p);
                } else {
                    assert(pos_covered(m0, p));
                    let k0 = choose|k0: int| 0 <= k0 < m0.len() && (#[trigger] m0[k0]).1 == p;
                    assert(m1[k0].1 == p);
                }
            }
        }
        self.sift_up(n);
    }

    /// Removes and returns the top item; `None` when the heap is empty.
    /// The returned item may stand above everything that was stored.
    pub fn pop(&mut self) -> (r: Option<T>)
        requires
            old(self).wf(),
        ensures
            final(self).wf(),
            match r {
                None => old(self)@.len() == 0 && final(self)@ == old(self)@,
                Some(t) => {
                    &&& old(self)@.len() > 0
                    &&& t == old(self)@[0]
                    &&& final(self)@.len() == old(self)@.len() - 1
                    &&& final(self)@.to_multiset() == old(self)@.to_multiset().remove(t)
                    &&& forall|x: T|
                        old(self)@.to_multiset().contains(x) ==> above::<T, H>(t, x)
                },
            },
    {
        proof {
            H::lemma_arity();
        }
        if self.heap.len() == 0 {
            return None;
        }
        let ghost s0 = self@;
        let n = self.heap.len() - 1;
        if n > 0 {
            self.swap_slots(0, n);
            proof {
                lemma_swap_distinct(s0, 0, n as int);
            }
        }
        let ghost sw = self@;
        let item = self.drop_last_slot();
        proof {
            let d = H::arity_spec();
            vstd::seq_lib::to_multiset_remove(sw, n as int);
            assert(self@ =~= sw.remove(n as int));
            if n == 0 {
                assert(self@.to_multiset() =~= s0.to_multiset().remove(item));
            } else {
                lemma_swap_multiset(s0, 0, n as int);
                assert(self@.to_multiset() =~= s0.to_multiset().remove(s0[0]));
                assert forall|c: int|
                    1 <= c < self@.len() && c != 0 && parent_index(c, d) != 0 implies
                    #[trigger] edge_ok::<T, H>(self@, c) by {
                    lemma_parent_bounds(c, d);
                    assert(edge_ok::<T, H>(s0, c));
                }
            }
            assert forall|x: T| s0.to_multiset().contains(x) implies above::<T, H>(s0[0], x) by {
                assert(s0.contains(x));
                let i = choose|i: int| 0 <= i < s0.len() && s0[i] == x;
                lemma_root_best::<T, H>(s0, i);
            }
            assert forall|i: int, j: int| 0 <= i < j < self@.len() implies !eqv(
                #[trigger] self@[i],
                #[trigger] self@[j],
            ) by {
                assert(sw[i] == self@[i] && sw[j] == self@[j]);
            }
        }
        if self.heap.len() > 0 {
            self.sift_down(0);
            proof {
                assert(heap_shape::<T, H>(self@));
            }
        }
        Some(item)
    }

    /// Looks up the heap position of an item equivalent to the one given,
    /// through the index map.
    pub fn get_index(&self, item: &T) -> (r: Option<usize>)
        requires
            self.wf(),
        ensures
            match r {
                Some(i) => i < self@.len() && eqv(self@[i as int], *item),
                None => !has_key_eqv(self@, *item),
            },
    {
        let n = self.index_map.len();
        let mut k: usize = 0;
        while k < n
            invariant
                n == self.entries().len(),
                k <= n,
                self.wf(),
                forall|k2: int| 0 <= k2 < k ==> !eqv((#[trigger] self.entries()[k2]).0, *item),
            decreases n - k,
        {
            if eqv_exec(&self.index_map[k].0, item) {
                let pos = self.index_map[k].1;
                return Some(pos);
            }
            k = k + 1;
        }
        proof {
            assert forall|i: int| 0 <= i < self@.len() implies !eqv(#[trigger] self@[i], *item) by {
                assert(pos_covered(self.entries(), i));
                let k0 = choose|k0: int|
                    0 <= k0 < self.entries().len() && (#[trigger] self.entries()[k0]).1 == i;
                assert(self.entries()[k0].0 == self@[i]);
            }
        }
        None
    }

    /// Removes the item equivalent to the one given, if present. The
    /// freed slot is filled with the last element, which is then sifted
    /// in both directions, since its resting position is unknown.
    pub fn remove(&mut self, item: &T) -> (r: Option<T>)
        requires
            old(self).wf(),
        ensures
            final(self).wf(),
            match r {
                None => !has_key_eqv(old(self)@, *item) && final(self)@ == old(self)@
                    && final(self).entries() == old(self).entries(),
                Some(t) => {
                    &&& eqv(t, *item)
                    &&& old(self)@.to_multiset().contains(t)
                    &&& final(self)@.to_multiset() == old(self)@.to_multiset().remove(t)
                    &&& final(self)@.len() == old(self)@.len() - 1
                },
            },
    {
        proof {
            H::lemma_arity();
        }
        match self.get_index(item) {
            None => None,
            Some(pos) => {
                let ghost s0 = self@;
                let ghost d = H::arity_spec();
                let n = self.heap.len() - 1;
                if pos == n {
                    let t = self.drop_last_slot();
                    proof {
                        vstd::seq_lib::to_multiset_remove(s0, n as int);
                        assert(self@ =~= s0.remove(n as int));
                        assert(s0.to_multiset().contains(t));
                        assert forall|c: int| 1 <= c < self@.len() implies #[trigger] edge_ok::<
                            T,
                            H,
                        >(self@, c) by {
                            lemma_parent_bounds(c, d);
                            assert(edge_ok::<T, H>(s0, c));
                        }
                        assert forall|i: int, j: int| 0 <= i < j < self@.len() implies !eqv(
                            #[trigger] self@[i],
                            #[trigger] self@[j],
                        ) by {
                            assert(s0[i] == self@[i] && s0[j] == self@[j]);
                        }
                    }
                    Some(t)
                } else {
                    self.swap_slots(pos, n);
                    proof {
                        lemma_swap_distinct(s0, pos as int, n as int);
                    }
                    let ghost sw = self@;
                    let t = self.drop_last_slot();
                    proof {
                        vstd::seq_lib::to_multiset_remove(sw, n as int);
                        assert(self@ =~= sw.remove(n as int));
                        lemma_swap_multiset(s0, pos as int, n as int);
                        assert(self@.to_multiset() =~= s0.to_multiset().remove(s0[pos as int]));
                        assert(s0.to_multiset().contains(s0[pos as int]));
                        assert forall|i: int, j: int| 0 <= i < j < self@.len() implies !eqv(
                            #[trigger] self@[i],
                            #[trigger] self@[j],
                        ) by {
                            assert(sw[i] == self@[i] && sw[j] == self@[j]);
                        }
                        // everything away from `pos` keeps its old edges
                        assert forall|c: int|
                            1 <= c < self@.len() && c != pos as int && parent_index(c, d)
                                != pos as int implies #[trigger] edge_ok::<T, H>(self@, c) by {
                            lemma_parent_bounds(c, d);
                            assert(edge_ok::<T, H>(s0, c));
                        }
                        // the old shape bridges over `pos`
                        lemma_shape_bridges::<T, H>(s0, pos as int);
                        if pos > 0 {
                            assert forall|c: int|
                                1 <= c < self@.len() && #[trigger] parent_index(c, d)
                                    == pos as int implies above::<T, H>(
                                self@[parent_index(pos as int, d)],
                                self@[c],
                            ) by {
                                lemma_parent_bounds(c, d);
                                lemma_parent_bounds(pos as int, d);
                                assert(above::<T, H>(s0[parent_index(pos as int, d)], s0[c]));
                            }
                        }
                    }
                    self.sift_down(pos);
                    self.sift_up(pos);
                    Some(t)
                }
            },
        }
    }

    /// Replaces a present item's value and reheapifies in both
    /// directions; when no equivalent item is present, nothing changes.
    /// The new value must not collide with any other stored item.
    pub fn update(&mut self, old_item: T, new_item: T)
        requires
            old(self).wf(),
            forall|i: int|
                0 <= i < old(self)@.len() && !eqv(#[trigger] old(self)@[i], old_item) ==> !eqv(
                    old(self)@[i],
                    new_item,
                ),
        ensures
            final(self).wf(),
            !has_key_eqv(old(self)@, old_item) ==> final(self)@ == old(self)@
                && final(self).entries() == old(self).entries(),
            has_key_eqv(old(self)@, old_item) ==> exists|p: int|
                {
                    &&& 0 <= p < old(self)@.len()
                    &&& eqv(#[trigger] old(self)@[p], old_item)
                    &&& final(self)@.to_multiset() == old(self)@.to_multiset().remove(
                        old(self)@[p],
                    ).insert(new_item)
                },
    {
        proof {
            H::lemma_arity();
        }
        match self.get_index(&old_item) {
            None => {},
            Some(pos) => {
                proof {
                    assert forall|i: int|
                        0 <= i < self@.len() && i != pos as int implies !eqv(
                        #[trigger] self@[i],
                        new_item,
                    ) by {
                        if eqv(self@[i], old_item) {
                            lemma_eqv_transitive(self@[i], old_item, self@[pos as int]);
                        }
                    }
                }
                self.replace_at(pos, new_item);
                proof {
                    assert(eqv(old(self)@[pos as int], old_item));
                }
            },
        }
    }

    /// Replaces the item at a known position and restores the heap shape
    /// in both directions, keeping the index entry for that slot in step.
    fn replace_at(&mut self, pos: usize, new_item: T)
        requires
            old(self).wf(),
            pos < old(self)@.len(),
            forall|i: int|
                0 <= i < old(self)@.len() && i != pos as int ==> !eqv(
                    #[trigger] old(self)@[i],
                    new_item,
                ),
        ensures
            final(self).wf(),
            final(self)@.to_multiset() == old(self)@.to_multiset().remove(
                old(self)@[pos as int],
            ).insert(new_item),
    {
        proof {
            H::lemma_arity();
        }
        let ghost s0 = self@;
        let ghost d = H::arity_spec();
        let k = self.find_pos_slot(pos);
        let dup = new_item.duplicate();
        let ghost m0 = self.entries();
        self.index_map[k] = (dup, pos);
        self.heap[pos] = new_item;
        proof {
            let m1 = self.entries();
            let h1 = self@;
            assert(h1 =~= s0.update(pos as int, new_item));
            vstd::seq_lib::to_multiset_update(s0, pos as int, new_item);
            assert forall|k2: int| 0 <= k2 < m1.len() implies (#[trigger] m1[k2]).1 < h1.len()
                && h1[m1[k2].1 as int] == m1[k2].0 by {
                if k2 != k as int {
                    assert(m1[k2] == m0[k2]);
                    assert(m0[k2].1 != pos);
                }
            }
            assert forall|p2: int| 0 <= p2 < h1.len() implies pos_covered(m1, p2) by {
                if p2 == pos as int {
                    assert(m1[k as int].1 == p2);
                } else {
                    assert(pos_covered(m0, p2));
                    let k0 = choose|k0: int| 0 <= k0 < m0.len() && (#[trigger] m0[k0]).1 == p2;
                    assert(m1[k0].1 == p2);
                }
            }
            assert forall|i: int, j: int| 0 <= i < j < h1.len() implies !eqv(
                #[trigger] h1[i],
                #[trigger] h1[j],
            ) by {
                if i != pos as int && j != pos as int {
                    assert(!eqv(s0[i], s0[j]));
                }
            }
            assert forall|c: int|
                1 <= c < h1.len() && c != pos as int && parent_index(c, d) != pos as int implies
                #[trigger] edge_ok::<T, H>(h1, c) by {
                lemma_parent_bounds(c, d);
                assert(edge_ok::<T, H>(s0, c));
            }
            lemma_shape_bridges::<T, H>(s0, pos as int);
            if pos > 0 {
                assert forall|c: int|
                    1 <= c < h1.len() && #[trigger] parent_index(c, d) == pos as int implies
                    above::<T, H>(h1[parent_index(pos as int, d)], h1[c]) by {
                    lemma_parent_bounds(c, d);
                    lemma_parent_bounds(pos as int, d);
                    assert(above::<T, H>(s0[parent_index(pos as int, d)], s0[c]));
                }
            }
        }
        self.sift_down(pos);
        self.sift_up(pos);
    }
}

impl<T, H> IndexedHeap<T, H>
    where T: TotalOrder + DupValue, H: HeapType
{
    /// The adjustment applies: an item equivalent to `item` is stored,
    /// and `new_value` ranks strictly better than it under the policy.
    pub open spec fn decrease_applies(&self, item: T, new_value: T) -> bool {
        exists|p: int|
            0 <= p < self@.len() && eqv(#[trigger] self@[p], item) && !above::<T, H>(
                self@[p],
                new_value,
            )
    }

    /// The adjustment applies: an item equivalent to `item` is stored,
    /// and `new_value` ranks strictly worse than it under the policy.
    pub open spec fn increase_applies(&self, item: T, new_value: T) -> bool {
        exists|p: int|
            0 <= p < self@.len() && eqv(#[trigger] self@[p], item) && !above::<T, H>(
                new_value,
                self@[p],
            )
    }

    /// Lowers a present item towards the top of the heap: the new value
    /// must strictly improve the item's rank under the policy, otherwise
    /// the call leaves the heap and the index map entirely unchanged.
    /// The new value must not collide with any stored item.
    pub fn decrease_key(&mut self, item: &T, new_value: T)
        requires
            old(self).wf(),
            old(self).decrease_applies(*item, new_value) ==> !has_key_eqv(old(self)@, new_value),
        ensures
            final(self).wf(),
            !old(self).decrease_applies(*item, new_value) ==> final(self)@ == old(self)@
                && final(self).entries() == old(self).entries(),
            old(self).decrease_applies(*item, new_value) ==> exists|p: int|
                {
                    &&& 0 <= p < old(self)@.len()
                    &&& eqv(#[trigger] old(self)@[p], *item)
                    &&& !above::<T, H>(old(self)@[p], new_value)
                    &&& final(self)@.to_multiset() == old(self)@.to_multiset().remove(
                        old(self)@[p],
                    ).insert(new_value)
                },
    {
        match self.get_index(item) {
            None => {
                proof {
                    if self.decrease_applies(*item, new_value) {
                        let p = choose|p: int|
                            0 <= p < self@.len() && eqv(#[trigger] self@[p], *item) && !above::<
                                T,
                                H,
                            >(self@[p], new_value);
                    }
                }
            },
            Some(pos) => {
                let improving = if H::is_min_first() {
                    !self.heap[pos].leq(&new_value)
                } else {
                    !new_value.leq(&self.heap[pos])
                };
                proof {
                    self.lemma_unique_match(*item, pos as int);
                }
                if improving {
                    proof {
                        assert(self.decrease_applies(*item, new_value));
                        assert forall|i: int|
                            0 <= i < self@.len() && i != pos as int implies !eqv(
                            #[trigger] self@[i],
                            new_value,
                        ) by {
                            assert(!has_key_eqv(self@, new_value));
                        }
                    }
                    self.replace_at(pos, new_value);
                } else {
                    proof {
                        if self.decrease_applies(*item, new_value) {
                            let p = choose|p: int|
                                0 <= p < self@.len() && eqv(#[trigger] self@[p], *item)
                                    && !above::<T, H>(self@[p], new_value);
                        }
                    }
                }
            },
        }
    }

    /// Lowers a present item towards the leaves of the heap: the new
    /// value must strictly worsen the item's rank under the policy,
    /// otherwise the call leaves the heap and the index map entirely
    /// unchanged. The new value must not collide with any stored item.
    pub fn increase_key(&mut self, item: &T, new_value: T)
        requires
            old(self).wf(),
            old(self).increase_applies(*item, new_value) ==> !has_key_eqv(old(self)@, new_value),
        ensures
            final(self).wf(),
            !old(self).increase_applies(*item, new_value) ==> final(self)@ == old(self)@
                && final(self).entries() == old(self).entries(),
            old(self).increase_applies(*item, new_value) ==> exists|p: int|
                {
                    &&& 0 <= p < old(self)@.len()
                    &&& eqv(#[trigger] old(self)@[p], *item)
                    &&& !above::<T, H>(new_value, old(self)@[p])
                    &&& final(self)@.to_multiset() == old(self)@.to_multiset().remove(
                        old(self)@[p],
                    ).insert(new_value)
                },
    {
        match self.get_index(item) {
            None => {
                proof {
                    if self.increase_applies(*item, new_value) {
                        let p = choose|p: int|
                            0 <= p < self@.len() && eqv(#[trigger] self@[p], *item) && !above::<
                                T,
                                H,
                            >(new_value, self@[p]);
                    }
                }
            },
            Some(pos) => {
                let worsening = if H::is_min_first() {
                    !new_value.leq(&self.heap[pos])
                } else {
                    !self.heap[pos].leq(&new_value)
                };
                proof {
                    self.lemma_unique_match(*item, pos as int);
                }
                if worsening {
                    proof {
                        assert(self.increase_applies(*item, new_value));
                        assert forall|i: int|
                            0 <= i < self@.len() && i != pos as int implies !eqv(
                            #[trigger] self@[i],
                            new_value,
                        ) by {
                            assert(!has_key_eqv(self@, new_value));
                        }
                    }
                    self.replace_at(pos, new_value);
                } else {
                    proof {
                        if self.increase_applies(*item, new_value) {
                            let p = choose|p: int|
                                0 <= p < self@.len() && eqv(#[trigger] self@[p], *item)
                                    && !above::<T, H>(new_value, self@[p]);
                        }
                    }
                }
            },
        }
    }

    /// Any stored item equivalent to `item` sits exactly at `pos`.
    proof fn lemma_unique_match(&self, item: T, pos: int)
        requires
            self.wf(),
            0 <= pos < self@.len(),
            eqv(self@[pos], item),
        ensures
            forall|p: int| 0 <= p < self@.len() && eqv(#[trigger] self@[p], item) ==> p == pos,
    {
        assert forall|p: int| 0 <= p < self@.len() && eqv(#[trigger] self@[p], item) implies p
            == pos by {
            if p != pos {
                lemma_eqv_transitive(self@[p], item, self@[pos]);
            }
        }
    }

    /// Discards all items and index entries.
    pub fn clear(&mut self)
        ensures
            final(self)@ == Seq::<T>::empty(),
            final(self).entries() == Seq::<(T, usize)>::empty(),
            final(self).wf(),
    {
        self.heap.clear();
        self.index_map.clear();
        proof {
            assert(self@ =~= Seq::<T>::empty());
            assert(self.entries() =~= Seq::<(T, usize)>::empty());
        }
    }

    /// Removes every item, best first; the result is ordered by the
    /// policy and holds exactly what the heap held.
    pub fn drain(&mut self) -> (r: Vec<T>)
        requires
            old(self).wf(),
        ensures
            final(self)@ == Seq::<T>::empty(),
            final(self).wf(),
            r@.to_multiset() == old(self)@.to_multiset(),
            extraction_ordered::<T, H>(r@),
            distinct_keys(r@),
    {
        let mut out: Vec<T> = Vec::new();
        proof {
            assert(out@.to_multiset().add(self@.to_multiset()) =~= old(self)@.to_multiset());
        }
        loop
            invariant
                self.wf(),
                out@.to_multiset().add(self@.to_multiset()) == old(self)@.to_multiset(),
                extraction_ordered::<T, H>(out@),
                distinct_keys(old(self)@),
                forall|i: int, x: T|
                    0 <= i < out@.len() && #[trigger] self@.to_multiset().contains(x) ==> above::<
                        T,
                        H,
                    >(#[trigger] out@[i], x),
            ensures
                self@.len() == 0,
                self.wf(),
                out@.to_multiset() == old(self)@.to_multiset(),
                extraction_ordered::<T, H>(out@),
            decreases self@.len(),
        {
            let ghost pre = self@;
            let ghost outpre = out@;
            match self.pop() {
                Some(x) => {
                    out.push(x);
                    proof {
                        assert(out@ == outpre.push(x));
                        assert(out@.to_multiset().add(self@.to_multiset()) =~= old(
                            self,
                        )@.to_multiset());
                        assert(pre.to_multiset().contains(x));
                        assert forall|i: int, j: int| 0 <= i <= j < out@.len() implies above::<
                            T,
                            H,
                        >(#[trigger] out@[i], #[trigger] out@[j]) by {
                            if j == out@.len() - 1 && i < j {
                                assert(above::<T, H>(outpre[i], x));
                            } else if j == out@.len() - 1 {
                                lemma_above_connex::<T, H>(x, x);
                            }
                        }
                        assert forall|i: int, x2: T|
                            0 <= i < out@.len() && #[trigger] self@.to_multiset().contains(x2)
                            implies above::<T, H>(#[trigger] out@[i], x2) by {
                            assert(pre.to_multiset().contains(x2));
                        }
                    }
                },
                None => {
                    proof {
                        assert(out@.to_multiset() =~= old(self)@.to_multiset());
                    }
                    break ;
                },
            }
        }
        proof {
            lemma_distinct_from_submultiset(old(self)@, out@);
        }
        out
    }

    /// Keeps only the items accepted by the predicate, by draining the
    /// heap and reinserting the matches, with the index map maintained
    /// along the way.
    pub fn retain<F: Fn(&T) -> bool>(&mut self, f: F)
        requires
            old(self).wf(),
            forall|x: &T| #[trigger] call_requires(f, (x,)),
        ensures
            final(self).wf(),
            forall|x: T|
                #[trigger] final(self)@.to_multiset().count(x) <= old(self)@.to_multiset().count(
                    x,
                ),
            forall|x: T|
                #[trigger] final(self)@.to_multiset().count(x) > 0 ==> call_ensures(
                    f,
                    (&x,),
                    true,
                ),
            forall|x: T|
                old(self)@.to_multiset().count(x) > #[trigger] final(self)@.to_multiset().count(
                    x,
                ) ==> call_ensures(f, (&x,), false),
    {
        let ghost orig = old(self)@.to_multiset();
        let mut items = self.drain();
        loop
            invariant
                self.wf(),
                forall|x: &T| #[trigger] call_requires(f, (x,)),
                distinct_keys(items@),
                forall|i: int, j: int|
                    0 <= i < items@.len() && 0 <= j < self@.len() ==> !eqv(
                        #[trigger] items@[i],
                        #[trigger] self@[j],
                    ),
                forall|y: T|
                    #[trigger] self@.to_multiset().count(y) + items@.to_multiset().count(y)
                        <= orig.count(y),
                forall|y: T|
                    #[trigger] self@.to_multiset().count(y) > 0 ==> call_ensures(f, (&y,), true),
                forall|y: T|
                    orig.count(y) > #[trigger] self@.to_multiset().count(y)
                        + items@.to_multiset().count(y) ==> call_ensures(f, (&y,), false),
            ensures
                self.wf(),
                forall|y: T| #[trigger] self@.to_multiset().count(y) <= orig.count(y),
                forall|y: T|
                    #[trigger] self@.to_multiset().count(y) > 0 ==> call_ensures(f, (&y,), true),
                forall|y: T|
                    orig.count(y) > #[trigger] self@.to_multiset().count(y) ==> call_ensures(
                        f,
                        (&y,),
                        false,
                    ),
            decreases items@.len(),
        {
            let ghost pre = items@;
            match items.pop() {
                Some(x) => {
                    proof {
                        vstd::seq_lib::to_multiset_remove(pre, pre.len() - 1);
                        assert(pre.to_multiset().contains(x));
                        assert(x == pre[pre.len() - 1]);
                        assert forall|j: int| 0 <= j < self@.len() implies !eqv(
                            x,
                            #[trigger] self@[j],
                        ) by {
                            assert(!eqv(pre[pre.len() - 1], self@[j]));
                        }
                        assert(!has_key_eqv(self@, x)) by {
                            if has_key_eqv(self@, x) {
                                let j = choose|j: int|
                                    0 <= j < self@.len() && eqv(#[trigger] self@[j], x);
                            }
                        }
                    }
                    if f(&x) {
                        let ghost selfpre = self@;
                        self.push(x);
                        proof {
                            assert forall|i: int, j: int|
                                0 <= i < items@.len() && 0 <= j < self@.len() implies !eqv(
                                #[trigger] items@[i],
                                #[trigger] self@[j],
                            ) by {
                                assert(self@.to_multiset().contains(self@[j]));
                                if self@[j] == x {
                                    assert(!eqv(pre[i], pre[pre.len() - 1]));
                                } else {
                                    assert(selfpre.to_multiset().contains(self@[j]));
                                    let j0 = choose|j0: int|
                                        0 <= j0 < selfpre.len() && selfpre[j0] == self@[j];
                                    assert(!eqv(pre[i], selfpre[j0]));
                                }
                            }
                        }
                    }
                },
                None => {
                    proof {
                        assert(items@ =~= Seq::<T>::empty());
                        assert(items@.to_multiset() =~= Multiset::<T>::empty());
                    }
                    break ;
                },
            }
        }
    }
}

/// The bijection between the heap array and the index map, spelled out:
/// every index entry names the slot that really holds its item, no two
/// entries name one slot, every slot is named, and the two structures
/// have the same size. This holds in every well-formed indexed heap,
/// hence after any sequence of operations.
pub proof fn lemma_index_bijection<T, H>(h: &IndexedHeap<T, H>)
    where T: TotalOrder + DupValue, H: HeapType
    requires
        h.wf(),
    ensures
        h.entries().len() == h@.len(),
        forall|k: int|
            0 <= k < h.entries().len() ==> (#[trigger] h.entries()[k]).1 < h@.len()
                && h@[h.entries()[k].1 as int] == h.entries()[k].0,
        forall|k1: int, k2: int|
            0 <= k1 < k2 < h.entries().len() ==> (#[trigger] h.entries()[k1]).1
                != (#[trigger] h.entries()[k2]).1,
        forall|i: int| 0 <= i < h@.len() ==> pos_covered(h.entries(), i),
{
}

/// Pairwise non-equivalence carries over to any sequence whose element
/// counts are bounded by the original's.
pub proof fn lemma_distinct_from_submultiset<T: TotalOrder>(orig: Seq<T>, s: Seq<T>)
    requires
        distinct_keys(orig),
        forall|x: T| #[trigger] s.to_multiset().count(x) <= orig.to_multiset().count(x),
    ensures
        distinct_keys(s),
{
    broadcast use {vstd::seq_lib::group_to_multiset_ensures, vstd::multiset::group_multiset_axioms};

    assert forall|a: int, b: int| 0 <= a < b < s.len() implies !eqv(
        #[trigger] s[a],
        #[trigger] s[b],
    ) by {
        if eqv(s[a], s[b]) {
            let x = s[a];
            let y = s[b];
            if x == y {
                lemma_dup_slots_count(s, a, b);
                assert(orig.to_multiset().count(x) >= 2);
                lemma_count_two_slots(orig, x);
                let (i, j): (int, int) = choose|i: int, j: int|
                    0 <= i < j < orig.len() && #[trigger] orig[i] == x && #[trigger] orig[j] == x;
                T::lemma_connex(x, x);
                assert(eqv(orig[i], orig[j]));
            } else {
                assert(s.to_multiset().contains(x));
                assert(s.to_multiset().contains(y));
                assert(orig.to_multiset().contains(x));
                assert(orig.to_multiset().contains(y));
                assert(orig.contains(x));
                assert(orig.contains(y));
                let i = choose|i: int| 0 <= i < orig.len() && orig[i] == x;
                let j = choose|j: int| 0 <= j < orig.len() && orig[j] == y;
                assert(i != j);
                if i < j {
                    assert(!eqv(orig[i], orig[j]));
                } else {
                    assert(!eqv(orig[j], orig[i]));
                }
            }
        }
    }
}

/// A swap keeps stored items pairwise non-equivalent.
pub proof fn lemma_swap_distinct<T: TotalOrder>(s: Seq<T>, i: int, j: int)
    requires
        distinct_keys(s),
        0 <= i < s.len(),
        0 <= j < s.len(),
        i != j,
    ensures
        distinct_keys(s.update(i, s[j]).update(j, s[i])),
{
    let t = s.update(i, s[j]).update(j, s[i]);
    assert forall|a: int, b: int| 0 <= a < b < t.len() implies !eqv(
        #[trigger] t[a],
        #[trigger] t[b],
    ) by {
        let a0: int = if a == i { j } else if a == j { i } else { a };
        let b0: int = if b == i { j } else if b == j { i } else { b };
        assert(t[a] == s[a0] && t[b] == s[b0]);
        assert(a0 != b0);
        if a0 < b0 {
            assert(!eqv(s[a0], s[b0]));
        } else {
            assert(!eqv(s[b0], s[a0]));
        }
    }
}

} // verus!
