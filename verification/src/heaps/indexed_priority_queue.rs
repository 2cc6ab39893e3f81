//! A key-to-priority queue for graph-search-style algorithms: each key is
//! stored once with a priority, the smallest priority leaves first, and
//! ties are broken by key order — deliberately unlike the sequence-number
//! tie-break of the payload-carrying priority queue. A key-to-position
//! index mirrors the heap array so that `decrease_key` and `contains`
//! find their entry without searching the tree.

use vstd::prelude::*;
use vstd::multiset::Multiset;
use crate::order::{TotalOrder, DupValue, eqv, eqv_exec, lemma_eqv_transitive};
use crate::heaps::heap::{
    MinHeapType, above, heap_shape, shape_except, bridge_over, down_ready, parent_index, edge_ok,
    lemma_parent_bounds, lemma_above_transitive, lemma_above_connex, lemma_root_best,
    lemma_shape_bridges, lemma_swap_multiset, lemma_sift_up_step, lemma_sift_down_step,
};
use crate::util::vec_util::swap_in_vec;

verus! {

broadcast use {vstd::seq_lib::group_to_multiset_ensures, vstd::multiset::group_multiset_axioms};

/// One stored entry: a key and its current priority.
pub struct PQItem<K, P> {
    pub key: K,
    pub priority: P,
}

impl<K, P> TotalOrder for PQItem<K, P>
    where K: TotalOrder, P: TotalOrder
{
    /// Ranks first by smaller priority, then by smaller key.
    open spec fn leq_spec(self, other: Self) -> bool {
        &&& P::leq_spec(self.priority, other.priority)
        &&& (P::leq_spec(other.priority, self.priority) ==> K::leq_spec(self.key, other.key))
    }

    proof fn lemma_connex(a: Self, b: Self) {
        P::lemma_connex(a.priority, b.priority);
        K::lemma_connex(a.key, b.key);
    }

    proof fn lemma_transitive(a: Self, b: Self, c: Self) {
        P::lemma_transitive(a.priority, b.priority, c.priority);
        if P::leq_spec(c.priority, a.priority) {
            P::lemma_transitive(b.priority, c.priority, a.priority);
            P::lemma_transitive(c.priority, a.priority, b.priority);
            K::lemma_transitive(a.key, b.key, c.key);
        }
    }

    fn leq(&self, other: &Self) -> (r: bool) {
        self.priority.leq(&other.priority) && (!other.priority.leq(&self.priority)
            || self.key.leq(&other.key))
    }
}

/// Among entries of equal priority, the queue's order is exactly the
/// order of the keys, independent of insertion order.
pub proof fn lemma_key_tie_break<K, P>(a: PQItem<K, P>, b: PQItem<K, P>)
    where K: TotalOrder, P: TotalOrder
    requires
        eqv(a.priority, b.priority),
    ensures
        a.leq_spec(b) <==> K::leq_spec(a.key, b.key),
{
}

/// A key equivalent to `k` occurs among the stored entries.
pub open spec fn has_pq_key<K: TotalOrder, P>(s: Seq<PQItem<K, P>>, k: K) -> bool {
    exists|i: int| 0 <= i < s.len() && eqv((#[trigger] s[i]).key, k)
}

/// Some index entry names position `i`.
pub open spec fn pq_pos_covered<K>(m: Seq<(K, usize)>, i: int) -> bool {
    exists|k: int| 0 <= k < m.len() && (#[trigger] m[k]).1 == i
}

/// The key index and the heap array agree exactly.
pub open spec fn pq_index_exact<K, P>(m: Seq<(K, usize)>, h: Seq<PQItem<K, P>>) -> bool {
    &&& m.len() == h.len()
    &&& forall|k: int|
        0 <= k < m.len() ==> (#[trigger] m[k]).1 < h.len() && h[m[k].1 as int].key == m[k].0
    &&& forall|k1: int, k2: int|
        0 <= k1 < k2 < m.len() ==> (#[trigger] m[k1]).1 != (#[trigger] m[k2]).1
    &&& forall|i: int| 0 <= i < h.len() ==> pq_pos_covered(m, i)
}

/// No two stored entries carry equivalent keys.
pub open spec fn pq_distinct_keys<K: TotalOrder, P>(s: Seq<PQItem<K, P>>) -> bool {
    forall|i: int, j: int|
        0 <= i < j < s.len() ==> !eqv((#[trigger] s[i]).key, (#[trigger] s[j]).key)
}

/// The indexed priority queue: a minimum-first binary heap of
/// (key, priority) entries plus the key-to-position index.
pub struct IndexedPQ<K, P>
    where K: TotalOrder + DupValue, P: TotalOrder
{
    heap: Vec<PQItem<K, P>>,
    index_map: Vec<(K, usize)>,
}

impl<K, P> View for IndexedPQ<K, P>
    where K: TotalOrder + DupValue, P: TotalOrder
{
    type V = Seq<PQItem<K, P>>;

    closed spec fn view(&self) -> Seq<PQItem<K, P>> {
        self.heap@
    }
}

impl<K, P> IndexedPQ<K, P>
    where K: TotalOrder + DupValue, P: TotalOrder
{
    /// The stored index entries, each a key with the position it names.
    pub closed spec fn entries(&self) -> Seq<(K, usize)> {
        self.index_map@
    }

    /// Well-formedness: heap shape under the priority-then-key order,
    /// pairwise non-equivalent keys, and the exact key index.
    pub open spec fn wf(&self) -> bool {
        &&& heap_shape::<PQItem<K, P>, MinHeapType>(self@)
        &&& pq_distinct_keys(self@)
        &&& pq_index_exact(self.entries(), self@)
    }

    /// Creates a new empty queue.
    pub fn new() -> (r: Self)
        ensures
            r@ == Seq::<PQItem<K, P>>::empty(),
            r.wf(),
    {
        let r = IndexedPQ { heap: Vec::new(), index_map: Vec::new() };
        proof {
            assert(r@ =~= Seq::<PQItem<K, P>>::empty());
        }
        r
    }

    /// Returns the number of stored keys.
    pub fn len(&self) -> (n: usize)
        ensures
            n == self@.len(),
    {
        self.heap.len()
    }

    /// Returns `true` if no key is stored.
    pub fn is_empty(&self) -> (b: bool)
        ensures
            b == (self@.len() == 0),
    {
        self.heap.len() == 0
    }

    /// Membership test through the key index, by scanning its entries.
    pub fn contains(&self, key: &K) -> (r: bool)
        requires
            self.wf(),
        ensures
            r == has_pq_key(self@, *key),
    {
        let n = self.index_map.len();
        let mut k: usize = 0;
        while k < n
            invariant
                n == self.entries().len(),
                k <= n,
                self.wf(),
                forall|k2: int| 0 <= k2 < k ==> !eqv((#[trigger] self.entries()[k2]).0, *key),
            decreases n - k,
        {
            if eqv_exec(&self.index_map[k].0, key) {
                proof {
                    let pos = self.entries()[k as int].1;
                    assert(eqv(self@[pos as int].key, *key));
                }
                return true;
            }
            k = k + 1;
        }
        proof {
            assert forall|i: int| 0 <= i < self@.len() implies !eqv(
                (#[trigger] self@[i]).key,
                *key,
            ) by {
                assert(pq_pos_covered(self.entries(), i));
                let k0 = choose|k0: int|
                    0 <= k0 < self.entries().len() && (#[trigger] self.entries()[k0]).1 == i;
                assert(self.entries()[k0].0 == self@[i].key);
            }
        }
        false
    }

    /// Finds the heap position of the entry whose key is equivalent to
    /// the one given.
    fn position_of(&self, key: &K) -> (r: Option<usize>)
        requires
            self.wf(),
        ensures
            match r {
                Some(i) => i < self@.len() && eqv(self@[i as int].key, *key),
                None => !has_pq_key(self@, *key),
            },
    {
        let n = self.index_map.len();
        let mut k: usize = 0;
        while k < n
            invariant
                n == self.entries().len(),
                k <= n,
                self.wf(),
                forall|k2: int| 0 <= k2 < k ==> !eqv((#[trigger] self.entries()[k2]).0, *key),
            decreases n - k,
        {
            if eqv_exec(&self.index_map[k].0, key) {
                return Some(self.index_map[k].1);
            }
            k = k + 1;
        }
        proof {
            assert forall|i: int| 0 <= i < self@.len() implies !eqv(
                (#[trigger] self@[i]).key,
                *key,
            ) by {
                assert(pq_pos_covered(self.entries(), i));
                let k0 = choose|k0: int|
                    0 <= k0 < self.entries().len() && (#[trigger] self.entries()[k0]).1 == i;
                assert(self.entries()[k0].0 == self@[i].key);
            }
        }
        None
    }

    /// Finds the index-map slot whose entry names heap position `pos`.
    fn find_pos_slot(&self, pos: usize) -> (k: usize)
        requires
            pq_index_exact(self.entries(), self@),
            pos < self@.len(),
        ensures
            k < self.entries().len(),
            self.entries()[k as int].1 == pos,
    {
        let n = self.index_map.len();
        let mut k: usize = 0;
        while k < n
            invariant
                n == self.entries().len(),
                k <= n,
                pq_index_exact(self.entries(), self@),
                pos < self@.len(),
                forall|k2: int| 0 <= k2 < k ==> (#[trigger] self.entries()[k2]).1 != pos,
            decreases n - k,
        {
            if self.index_map[k].1 == pos {
                return k;
            }
            k = k + 1;
        }
        proof {
            assert(pq_pos_covered(self.entries(), pos as int));
            assert(false);
        }
        0
    }

    /// Exchanges the entries at heap positions `i` and `j` and renames
    /// the two index entries accordingly, preserving the bijection.
    fn swap_slots(&mut self, i: usize, j: usize)
        requires
            pq_index_exact(old(self).entries(), old(self)@),
            i < old(self)@.len(),
            j < old(self)@.len(),
            i != j,
        ensures
            final(self)@ == old(self)@.update(i as int, old(self)@[j as int]).update(
                j as int,
                old(self)@[i as int],
            ),
            pq_index_exact(final(self).entries(), final(self)@),
    {
        let ki = self.find_pos_slot(i);
        let kj = self.find_pos_slot(j);
        proof {
            assert(ki != kj);
        }
        let key_i = self.index_map[ki].0.duplicate();
        let key_j = self.index_map[kj].0.duplicate();
        let ghost m0 = self.entries();
        self.index_map[ki] = (key_i, j);
        self.index_map[kj] = (key_j, i);
        let ghost m1 = self.entries();
        let ghost h0 = self@;
        swap_in_vec(&mut self.heap, i, j);
        proof {
            let h1 = self@;
            assert forall|k: int| 0 <= k < m1.len() implies (#[trigger] m1[k]).1 < h1.len()
                && h1[m1[k].1 as int].key == m1[k].0 by {
                if k == ki as int {
                    assert(h1[j as int] == h0[i as int]);
                } else if k == kj as int {
                    assert(h1[i as int] == h0[j as int]);
                } else {
                    assert(m0[k].1 != i && m0[k].1 != j);
                }
            }
            assert forall|p: int| 0 <= p < h1.len() implies pq_pos_covered(m1, p) by {
                if p == i as int {
                    assert(m1[kj as int].1 == i);
                } else if p == j as int {
                    assert(m1[ki as int].1 == j);
                } else {
                    assert(pq_pos_covered(m0, p));
                    let k = choose|k: int| 0 <= k < m0.len() && (#[trigger] m0[k]).1 == p;
                    assert(m1[k].1 == p);
                }
            }
        }
    }

    /// Restores the heap shape by sifting the entry at `j0` up, renaming
    /// index entries at every exchange.
    fn sift_up(&mut self, j0: usize)
        requires
            j0 < old(self)@.len(),
            shape_except::<PQItem<K, P>, MinHeapType>(old(self)@, j0 as int),
            bridge_over::<PQItem<K, P>, MinHeapType>(old(self)@, j0 as int),
            pq_index_exact(old(self).entries(), old(self)@),
            pq_distinct_keys(old(self)@),
        ensures
            final(self).wf(),
            final(self)@.to_multiset() == old(self)@.to_multiset(),
            final(self)@.len() == old(self)@.len(),
    {
        let mut j = j0;
        while j > 0
            invariant
                j < self@.len(),
                shape_except::<PQItem<K, P>, MinHeapType>(self@, j as int),
                bridge_over::<PQItem<K, P>, MinHeapType>(self@, j as int),
                pq_index_exact(self.entries(), self@),
                pq_distinct_keys(self@),
                self@.to_multiset() == old(self)@.to_multiset(),
                self@.len() == old(self)@.len(),
            decreases j,
        {
            let p = (j - 1) / 2;
            proof {
                lemma_parent_bounds(j as int, 2);
            }
            let swap_needed = !self.heap[p].leq(&self.heap[j]);
            proof {
                lemma_above_connex::<PQItem<K, P>, MinHeapType>(self@[p as int], self@[j as int]);
            }
            if swap_needed {
                let ghost s0 = self@;
                self.swap_slots(p, j);
                proof {
                    lemma_sift_up_step::<PQItem<K, P>, MinHeapType>(s0, j as int);
                    lemma_swap_multiset(s0, p as int, j as int);
                    lemma_pq_swap_distinct(s0, p as int, j as int);
                }
                j = p;
            } else {
                proof {
                    assert(edge_ok::<PQItem<K, P>, MinHeapType>(self@, j as int));
                }
                return ;
            }
        }
    }

    /// Restores the heap shape below `j0` by sifting down, renaming index
    /// entries at every exchange.
    fn sift_down(&mut self, j0: usize)
        requires
            j0 < old(self)@.len(),
            down_ready::<PQItem<K, P>, MinHeapType>(old(self)@, j0 as int),
            pq_index_exact(old(self).entries(), old(self)@),
            pq_distinct_keys(old(self)@),
        ensures
            shape_except::<PQItem<K, P>, MinHeapType>(final(self)@, j0 as int),
            bridge_over::<PQItem<K, P>, MinHeapType>(final(self)@, j0 as int),
            pq_index_exact(final(self).entries(), final(self)@),
            pq_distinct_keys(final(self)@),
            final(self)@.to_multiset() == old(self)@.to_multiset(),
            final(self)@.len() == old(self)@.len(),
    {
        let len = self.heap.len();
        let mut j = j0;
        loop
            invariant
                j0 <= j < len,
                len == self@.len(),
                down_ready::<PQItem<K, P>, MinHeapType>(self@, j as int),
                j != j0 ==> edge_ok::<PQItem<K, P>, MinHeapType>(self@, j as int),
                pq_index_exact(self.entries(), self@),
                pq_distinct_keys(self@),
                self@.to_multiset() == old(self)@.to_multiset(),
                self@.len() == old(self)@.len(),
            ensures
                shape_except::<PQItem<K, P>, MinHeapType>(self@, j0 as int),
                bridge_over::<PQItem<K, P>, MinHeapType>(self@, j0 as int),
                pq_index_exact(self.entries(), self@),
                pq_distinct_keys(self@),
                self@.to_multiset() == old(self)@.to_multiset(),
                self@.len() == old(self)@.len(),
            decreases len - j,
        {
            let ghost s = self@;
            proof {
                lemma_above_connex::<PQItem<K, P>, MinHeapType>(s[j as int], s[j as int]);
            }
            let mut extreme = j;
            // guard the child index computations against overflow: beyond
            // this bound no child index fits in `usize`, so `j` is a leaf
            let half = usize::MAX / 2 - 1;
            if j <= half {
                let left = 2 * j + 1;
                let right = 2 * j + 2;
                if left < len && !self.heap[extreme].leq(&self.heap[left]) {
                    proof {
                        lemma_pq_child(j as int, 1);
                        lemma_above_connex::<PQItem<K, P>, MinHeapType>(
                            s[j as int],
                            s[left as int],
                        );
                    }
                    extreme = left;
                }
                proof {
                    lemma_above_connex::<PQItem<K, P>, MinHeapType>(s[j as int], s[j as int]);
                    if left < (len as int) {
                        lemma_pq_child(j as int, 1);
                        lemma_above_connex::<PQItem<K, P>, MinHeapType>(
                            s[left as int],
                            s[left as int],
                        );
                        assert(above::<PQItem<K, P>, MinHeapType>(
                            s[extreme as int],
                            s[left as int],
                        ));
                    }
                    assert(above::<PQItem<K, P>, MinHeapType>(s[extreme as int], s[j as int]));
                }
                let ghost mid = extreme as int;
                if right < len && !self.heap[extreme].leq(&self.heap[right]) {
                    proof {
                        lemma_pq_child(j as int, 2);
                        lemma_above_connex::<PQItem<K, P>, MinHeapType>(
                            s[mid],
                            s[right as int],
                        );
                        lemma_above_transitive::<PQItem<K, P>, MinHeapType>(
                            s[right as int],
                            s[mid],
                            s[j as int],
                        );
                        if left < (len as int) {
                            lemma_above_transitive::<PQItem<K, P>, MinHeapType>(
                                s[right as int],
                                s[mid],
                                s[left as int],
                            );
                        }
                        // the promoted child still ranks strictly better than `j`
                        if above::<PQItem<K, P>, MinHeapType>(s[j as int], s[right as int]) {
                            lemma_above_transitive::<PQItem<K, P>, MinHeapType>(
                                s[j as int],
                                s[right as int],
                                s[mid],
                            );
                            assert(false);
                        }
                    }
                    extreme = right;
                }
                proof {
                    assert forall|c: int|
                        1 <= c < s.len() && #[trigger] parent_index(c, 2) == j as int implies
                        above::<PQItem<K, P>, MinHeapType>(s[extreme as int], s[c]) by {
                        lemma_parent_bounds(c, 2);
                        assert(c == 2 * (j as int) + 1 || c == 2 * (j as int) + 2);
                        lemma_above_connex::<PQItem<K, P>, MinHeapType>(s[extreme as int], s[c]);
                    }
                }
            } else {
                proof {
                    assert forall|c: int|
                        1 <= c < s.len() && #[trigger] parent_index(c, 2) == j as int implies
                        above::<PQItem<K, P>, MinHeapType>(s[extreme as int], s[c]) by {
                        lemma_parent_bounds(c, 2);
                        assert(c >= 2 * (j as int) + 1);
                        assert(c < len <= usize::MAX);
                        assert(false);
                    }
                }
            }
            if extreme != j {
                proof {
                    assert(!above::<PQItem<K, P>, MinHeapType>(s[j as int], s[extreme as int]));
                }
                let ghost s0 = self@;
                self.swap_slots(j, extreme);
                proof {
                    lemma_sift_down_step::<PQItem<K, P>, MinHeapType>(
                        s0,
                        j as int,
                        extreme as int,
                    );
                    lemma_swap_multiset(s0, j as int, extreme as int);
                    lemma_pq_swap_distinct(s0, j as int, extreme as int);
                }
                j = extreme;
            } else {
                proof {
                    assert forall|c: int| 1 <= c < self@.len() && c != j0 as int implies
                        #[trigger] edge_ok::<PQItem<K, P>, MinHeapType>(self@, c) by {
                        let q = parent_index(c, 2);
                        if c == j as int {
                        } else if q == j as int {
                            assert(above::<PQItem<K, P>, MinHeapType>(s[j as int], s[c]));
                        }
                    }
                    if j != j0 {
                        assert(heap_shape::<PQItem<K, P>, MinHeapType>(self@));
                        lemma_shape_bridges::<PQItem<K, P>, MinHeapType>(self@, j0 as int);
                    }
                }
                break ;
            }
        }
    }
}

impl<K, P> IndexedPQ<K, P>
    where K: TotalOrder + DupValue, P: TotalOrder
{
    /// Removes the index entry naming the last heap position and drops
    /// that slot, handing its entry out.
    fn drop_last_slot(&mut self) -> (t: PQItem<K, P>)
        requires
            pq_index_exact(old(self).entries(), old(self)@),
            old(self)@.len() > 0,
        ensures
            t == old(self)@[old(self)@.len() - 1],
            final(self)@ == old(self)@.drop_last(),
            pq_index_exact(final(self).entries(), final(self)@),
    {
        let n = self.heap.len() - 1;
        let k = self.find_pos_slot(n);
        let ghost m0 = self.entries();
        self.index_map.swap_remove(k);
        let t = self.heap.pop().unwrap();
        proof {
            let m1 = self.entries();
            let h1 = self@;
            assert(h1 =~= old(self)@.drop_last());
            assert forall|k2: int| 0 <= k2 < m1.len() implies (#[trigger] m1[k2]).1 < h1.len()
                && h1[m1[k2].1 as int].key == m1[k2].0 by {
                let src: int = if k2 == k as int { m0.len() - 1 } else { k2 };
                assert(m1[k2] == m0[src]);
                assert(m0[src].1 != n);
            }
            assert forall|k1: int, k2: int| 0 <= k1 < k2 < m1.len() implies (#[trigger] m1[k1]).1
                != (#[trigger] m1[k2]).1 by {
                let s1: int = if k1 == k as int { m0.len() - 1 } else { k1 };
                let s2: int = if k2 == k as int { m0.len() - 1 } else { k2 };
                assert(m1[k1] == m0[s1] && m1[k2] == m0[s2]);
            }
            assert forall|p: int| 0 <= p < h1.len() implies pq_pos_covered(m1, p) by {
                assert(pq_pos_covered(m0, p));
                let k0 = choose|k0: int| 0 <= k0 < m0.len() && (#[trigger] m0[k0]).1 == p;
                assert(k0 != k as int);
                if k0 == m0.len() - 1 {
                    assert(m1[k as int] == m0[k0]);
                } else {
                    assert(m1[k0] == m0[k0]);
                }
            }
        }
        t
    }

    /// Inserts a key with a priority. Fails, changing nothing, when an
    /// equivalent key is already present.
    pub fn insert(&mut self, key: K, priority: P) -> (r: bool)
        requires
            old(self).wf(),
        ensures
            final(self).wf(),
            r == !has_pq_key(old(self)@, key),
            !r ==> final(self)@ == old(self)@ && final(self).entries() == old(self).entries(),
            r ==> final(self)@.to_multiset() == old(self)@.to_multiset().insert(
                (PQItem { key: key, priority: priority }),
            ) && final(self)@.len() == old(self)@.len() + 1,
    {
        match self.position_of(&key) {
            Some(pos) => {
                proof {
                    assert(has_pq_key(self@, key));
                }
                false
            },
            None => {
                let ghost s0 = self@;
                let ghost m0 = self.entries();
                let n = self.heap.len();
                let dup = key.duplicate();
                let entry = PQItem { key, priority };
                self.heap.push(entry);
                self.index_map.push((dup, n));
                proof {
                    assert forall|c: int|
                        1 <= c < self@.len() && c != n as int implies #[trigger] edge_ok::<
                        PQItem<K, P>,
                        MinHeapType,
                    >(self@, c) by {
                        lemma_parent_bounds(c, 2);
                        assert(edge_ok::<PQItem<K, P>, MinHeapType>(s0, c));
                    }
                    assert forall|c: int|
                        1 <= c < self@.len() && #[trigger] parent_index(c, 2) == n as int implies
                        false by {
                        lemma_parent_bounds(c, 2);
                        assert(2 * (n as int) + 1 <= c);
                    }
                    assert forall|i: int, j: int| 0 <= i < j < self@.len() implies !eqv(
                        (#[trigger] self@[i]).key,
                        (#[trigger] self@[j]).key,
                    ) by {
                        if j == n as int {
                            assert(!eqv(s0[i].key, key));
                        }
                    }
                    let m1 = self.entries();
                    assert forall|p: int| 0 <= p < self@.len() implies pq_pos_covered(m1, p) by {
                        if p == n as int {
                            assert(m1[m1.len() - 1].1 == p);
                        } else {
                            assert(pq_pos_covered(m0, p));
                            let k0 = choose|k0: int|
                                0 <= k0 < m0.len() && (#[trigger] m0[k0]).1 == p;
                            assert(m1[k0].1 == p);
                        }
                    }
                }
                self.sift_up(n);
                true
            },
        }
    }

    /// The adjustment applies: the key is present and the new priority is
    /// strictly smaller than its current one.
    pub open spec fn decrease_applies(&self, key: K, new_priority: P) -> bool {
        exists|p: int|
            0 <= p < self@.len() && eqv((#[trigger] self@[p]).key, key) && !P::leq_spec(
                self@[p].priority,
                new_priority,
            )
    }

    /// Lowers the priority of a present key. The returned flag reports
    /// only whether the key exists: a present key with a non-improving
    /// new priority yields `true` although nothing changes — unlike the
    /// indexed heap, whose adjustments stay entirely silent.
    pub fn decrease_key(&mut self, key: &K, new_priority: P) -> (r: bool)
        requires
            old(self).wf(),
        ensures
            final(self).wf(),
            r == has_pq_key(old(self)@, *key),
            !old(self).decrease_applies(*key, new_priority) ==> final(self)@ == old(self)@
                && final(self).entries() == old(self).entries(),
            old(self).decrease_applies(*key, new_priority) ==> exists|p: int|
                {
                    &&& 0 <= p < old(self)@.len()
                    &&& eqv((#[trigger] old(self)@[p]).key, *key)
                    &&& !P::leq_spec(old(self)@[p].priority, new_priority)
                    &&& final(self)@.to_multiset() == old(self)@.to_multiset().remove(
                        old(self)@[p],
                    ).insert((PQItem { key: old(self)@[p].key, priority: new_priority }))
                },
    {
        match self.position_of(key) {
            None => {
                proof {
                    if self.decrease_applies(*key, new_priority) {
                        let p = choose|p: int|
                            0 <= p < self@.len() && eqv((#[trigger] self@[p]).key, *key)
                                && !P::leq_spec(self@[p].priority, new_priority);
                    }
                }
                false
            },
            Some(pos) => {
                proof {
                    self.lemma_unique_key_match(*key, pos as int);
                }
                let improving = !self.heap[pos].priority.leq(&new_priority);
                if improving {
                    proof {
                        assert(self.decrease_applies(*key, new_priority));
                    }
                    self.replace_priority_at(pos, new_priority);
                } else {
                    proof {
                        if self.decrease_applies(*key, new_priority) {
                            let p = choose|p: int|
                                0 <= p < self@.len() && eqv((#[trigger] self@[p]).key, *key)
                                    && !P::leq_spec(self@[p].priority, new_priority);
                        }
                    }
                }
                true
            },
        }
    }

    /// Replaces the priority stored at a known position, keeping the key,
    /// and restores the heap shape in both directions.
    fn replace_priority_at(&mut self, pos: usize, new_priority: P)
        requires
            old(self).wf(),
            pos < old(self)@.len(),
        ensures
            final(self).wf(),
            final(self)@.to_multiset() == old(self)@.to_multiset().remove(
                old(self)@[pos as int],
            ).insert(
                (PQItem { key: old(self)@[pos as int].key, priority: new_priority }),
            ),
    {
        let ghost s0 = self@;
        let kept = self.heap[pos].key.duplicate();
        let entry = PQItem { key: kept, priority: new_priority };
        self.heap[pos] = entry;
        proof {
            let h1 = self@;
            let m0 = self.entries();
            assert(h1 =~= s0.update(pos as int, entry));
            vstd::seq_lib::to_multiset_update(s0, pos as int, entry);
            assert forall|k2: int| 0 <= k2 < m0.len() implies (#[trigger] m0[k2]).1 < h1.len()
                && h1[m0[k2].1 as int].key == m0[k2].0 by {
                if m0[k2].1 != pos {
                    assert(h1[m0[k2].1 as int] == s0[m0[k2].1 as int]);
                }
            }
            assert forall|i: int, j: int| 0 <= i < j < h1.len() implies !eqv(
                (#[trigger] h1[i]).key,
                (#[trigger] h1[j]).key,
            ) by {
                assert(h1[i].key == s0[i].key && h1[j].key == s0[j].key);
                assert(!eqv(s0[i].key, s0[j].key));
            }
            assert forall|c: int|
                1 <= c < h1.len() && c != pos as int && parent_index(c, 2) != pos as int implies
                #[trigger] edge_ok::<PQItem<K, P>, MinHeapType>(h1, c) by {
                lemma_parent_bounds(c, 2);
                assert(edge_ok::<PQItem<K, P>, MinHeapType>(s0, c));
            }
            lemma_shape_bridges::<PQItem<K, P>, MinHeapType>(s0, pos as int);
            if pos > 0 {
                assert forall|c: int|
                    1 <= c < h1.len() && #[trigger] parent_index(c, 2) == pos as int implies
                    above::<PQItem<K, P>, MinHeapType>(h1[parent_index(pos as int, 2)], h1[c]) by {
                    lemma_parent_bounds(c, 2);
                    lemma_parent_bounds(pos as int, 2);
                    assert(above::<PQItem<K, P>, MinHeapType>(
                        s0[parent_index(pos as int, 2)],
                        s0[c],
                    ));
                }
            }
        }
        self.sift_down(pos);
        self.sift_up(pos);
    }

    /// Any stored entry whose key matches sits exactly at `pos`.
    proof fn lemma_unique_key_match(&self, key: K, pos: int)
        requires
            self.wf(),
            0 <= pos < self@.len(),
            eqv(self@[pos].key, key),
        ensures
            forall|p: int|
                0 <= p < self@.len() && eqv((#[trigger] self@[p]).key, key) ==> p == pos,
    {
        assert forall|p: int|
            0 <= p < self@.len() && eqv((#[trigger] self@[p]).key, key) implies p == pos by {
            if p != pos {
                lemma_eqv_transitive(self@[p].key, key, self@[pos].key);
            }
        }
    }

    /// Extracts the entry with the smallest priority; among equal
    /// priorities the smallest key leaves first.
    pub fn pop(&mut self) -> (r: Option<(K, P)>)
        requires
            old(self).wf(),
        ensures
            final(self).wf(),
            match r {
                None => old(self)@.len() == 0 && final(self)@ == old(self)@,
                Some(kp) => exists|e: PQItem<K, P>|
                    {
                        &&& #[trigger] old(self)@.to_multiset().contains(e)
                        &&& e.key == kp.0 && e.priority == kp.1
                        &&& final(self)@.to_multiset() == old(self)@.to_multiset().remove(e)
                        &&& forall|x: PQItem<K, P>|
                            old(self)@.to_multiset().contains(x) ==> e.leq_spec(x)
                    },
            },
    {
        if self.heap.len() == 0 {
            return None;
        }
        let ghost s0 = self@;
        let n = self.heap.len() - 1;
        if n > 0 {
            self.swap_slots(0, n);
            proof {
                lemma_pq_swap_distinct(s0, 0, n as int);
            }
        }
        let ghost sw = self@;
        let entry = self.drop_last_slot();
        proof {
            vstd::seq_lib::to_multiset_remove(sw, n as int);
            assert(self@ =~= sw.remove(n as int));
            if n == 0 {
                assert(self@.to_multiset() =~= s0.to_multiset().remove(entry));
            } else {
                lemma_swap_multiset(s0, 0, n as int);
                assert(self@.to_multiset() =~= s0.to_multiset().remove(s0[0]));
                assert forall|c: int|
                    1 <= c < self@.len() && c != 0 && parent_index(c, 2) != 0 implies
                    #[trigger] edge_ok::<PQItem<K, P>, MinHeapType>(self@, c) by {
                    lemma_parent_bounds(c, 2);
                    assert(edge_ok::<PQItem<K, P>, MinHeapType>(s0, c));
                }
            }
            assert(s0.to_multiset().contains(s0[0]));
            assert forall|x: PQItem<K, P>| s0.to_multiset().contains(x) implies s0[0].leq_spec(
                x,
            ) by {
                assert(s0.contains(x));
                let i = choose|i: int| 0 <= i < s0.len() && s0[i] == x;
                lemma_root_best::<PQItem<K, P>, MinHeapType>(s0, i);
            }
            assert forall|i: int, j: int| 0 <= i < j < self@.len() implies !eqv(
                (#[trigger] self@[i]).key,
                (#[trigger] self@[j]).key,
            ) by {
                assert(sw[i] == self@[i] && sw[j] == self@[j]);
                assert(!eqv(sw[i].key, sw[j].key));
            }
        }
        if self.heap.len() > 0 {
            self.sift_down(0);
            proof {
                assert(heap_shape::<PQItem<K, P>, MinHeapType>(self@));
            }
        }
        let PQItem { key, priority } = entry;
        Some((key, priority))
    }

    /// Read-only access to the entry that `pop` would return next.
    pub fn peek(&self) -> (r: Option<(&K, &P)>)
        requires
            self.wf(),
        ensures
            match r {
                None => self@.len() == 0,
                Some(kp) => self@.len() > 0 && *kp.0 == self@[0].key && *kp.1
                    == self@[0].priority && forall|x: PQItem<K, P>|
                    self@.to_multiset().contains(x) ==> self@[0].leq_spec(x),
            },
    {
        if self.heap.len() == 0 {
            None
        } else {
            proof {
                assert forall|x: PQItem<K, P>| self@.to_multiset().contains(x) implies
                    self@[0].leq_spec(x) by {
                    assert(self@.contains(x));
                    let i = choose|i: int| 0 <= i < self@.len() && self@[i] == x;
                    lemma_root_best::<PQItem<K, P>, MinHeapType>(self@, i);
                }
            }
            let entry = &self.heap[0];
            Some((&entry.key, &entry.priority))
        }
    }
}

/// Children of slot `p` in a binary heap sit at `2p + 1` and `2p + 2`.
proof fn lemma_pq_child(p: int, k: int)
    requires
        0 <= p,
        1 <= k <= 2,
    ensures
        parent_index(2 * p + k, 2) == p,
        p < 2 * p + k,
{
    crate::heaps::heap::lemma_child_parent(p, k, 2);
}

/// A swap keeps stored keys pairwise non-equivalent.
proof fn lemma_pq_swap_distinct<K: TotalOrder, P>(s: Seq<PQItem<K, P>>, i: int, j: int)
    requires
        pq_distinct_keys(s),
        0 <= i < s.len(),
        0 <= j < s.len(),
        i != j,
    ensures
        pq_distinct_keys(s.update(i, s[j]).update(j, s[i])),
{
    let t = s.update(i, s[j]).update(j, s[i]);
    assert forall|a: int, b: int| 0 <= a < b < t.len() implies !eqv(
        (#[trigger] t[a]).key,
        (#[trigger] t[b]).key,
    ) by {
        let a0: int = if a == i { j } else if a == j { i } else { a };
        let b0: int = if b == i { j } else if b == j { i } else { b };
        assert(t[a] == s[a0] && t[b] == s[b0]);
        assert(a0 != b0);
        if a0 < b0 {
            assert(!eqv(s[a0].key, s[b0].key));
        } else {
            assert(!eqv(s[b0].key, s[a0].key));
        }
    }
}

} // verus!
