//! The array-backed d-ary heap core: a `GenericHeap` parameterized by an
//! ordering policy (`MinHeapType` or `MaxHeapType`) chosen at the type
//! level. The heap-shape invariant — no child is ranked strictly better
//! than its parent — is carried by every operation, and extraction is
//! proved to deliver the policy's best element first.

use vstd::prelude::*;
use vstd::seq_lib::group_to_multiset_ensures;
use vstd::multiset::Multiset;
use crate::order::TotalOrder;
use crate::util::vec_util::swap_in_vec;
use core::marker::PhantomData;

verus! {

broadcast use {vstd::seq_lib::group_to_multiset_ensures, vstd::multiset::group_multiset_axioms};

/// An ordering policy for a heap: the direction of "better" and the
/// branching factor of the tree. The branching factor is at least 2.
pub trait HeapType: Sized {
    /// True when the smallest element belongs on top.
    spec fn min_first() -> bool;

    /// The branching factor, at the specification level.
    spec fn arity_spec() -> int;

    /// The branching factor is at least two.
    proof fn lemma_arity()
        ensures
            2 <= Self::arity_spec(),
    ;

    /// Run-time view of the direction.
    fn is_min_first() -> (b: bool)
        ensures
            b == Self::min_first(),
    ;

    /// Run-time view of the branching factor.
    fn arity() -> (d: usize)
        ensures
            d as int == Self::arity_spec(),
    ;

    /// The display name of heaps under this policy.
    fn policy_name() -> &'static str;
}

/// Policy of a binary heap whose top is the smallest element.
pub struct MinHeapType;

impl HeapType for MinHeapType {
    open spec fn min_first() -> bool {
        true
    }

    open spec fn arity_spec() -> int {
        2
    }

    proof fn lemma_arity() {
    }

    fn is_min_first() -> (b: bool) {
        true
    }

    fn arity() -> (d: usize) {
        2
    }

    fn policy_name() -> &'static str {
        "MinHeap"
    }
}

/// Policy of a binary heap whose top is the largest element.
pub struct MaxHeapType;

impl HeapType for MaxHeapType {
    open spec fn min_first() -> bool {
        false
    }

    open spec fn arity_spec() -> int {
        2
    }

    proof fn lemma_arity() {
    }

    fn is_min_first() -> (b: bool) {
        false
    }

    fn arity() -> (d: usize) {
        2
    }

    fn policy_name() -> &'static str {
        "MaxHeap"
    }
}

/// `a` may stand at or above `b` in a heap governed by policy `H`.
pub open spec fn above<T: TotalOrder, H: HeapType>(a: T, b: T) -> bool {
    if H::min_first() {
        T::leq_spec(a, b)
    } else {
        T::leq_spec(b, a)
    }
}

/// `above` is transitive, inherited from the element ordering.
pub proof fn lemma_above_transitive<T: TotalOrder, H: HeapType>(a: T, b: T, c: T)
    requires
        above::<T, H>(a, b),
        above::<T, H>(b, c),
    ensures
        above::<T, H>(a, c),
{
    if H::min_first() {
        T::lemma_transitive(a, b, c);
    } else {
        T::lemma_transitive(c, b, a);
    }
}

/// Of any two elements, one may stand above the other.
pub proof fn lemma_above_connex<T: TotalOrder, H: HeapType>(a: T, b: T)
    ensures
        above::<T, H>(a, b) || above::<T, H>(b, a),
{
    T::lemma_connex(a, b);
}

/// The array index of the parent of the node at index `c`.
pub open spec fn parent_index(c: int, d: int) -> int {
    (c - 1) / d
}

/// A parent's index lies below its child's, and the child is among the
/// `d` slots that belong to that parent.
pub proof fn lemma_parent_bounds(c: int, d: int)
    requires
        1 <= c,
        2 <= d,
    ensures
        0 <= parent_index(c, d) < c,
        d * parent_index(c, d) + 1 <= c <= d * parent_index(c, d) + d,
{
    vstd::arithmetic::div_mod::lemma_fundamental_div_mod(c - 1, d);
    let p = parent_index(c, d);
    let r = (c - 1) % d;
    assert(0 <= r < d) by {
        vstd::arithmetic::div_mod::lemma_mod_bound(c - 1, d);
    }
    assert(c - 1 == d * p + r);
    assert(0 <= p && 2 * p <= d * p) by (nonlinear_arith)
        requires
            c - 1 >= 0,
            d >= 2,
            c - 1 == d * p + r,
            0 <= r < d,
    ;
}

/// Conversely, slot `d * p + k` (for `1 <= k <= d`) has parent `p`.
pub proof fn lemma_child_parent(p: int, k: int, d: int)
    requires
        0 <= p,
        1 <= k <= d,
        2 <= d,
    ensures
        parent_index(d * p + k, d) == p,
        p < d * p + k,
{
    assert((d * p + k - 1) / d == p && p < d * p + k) by (nonlinear_arith)
        requires
            0 <= p,
            1 <= k <= d,
            2 <= d,
    ;
}

/// The edge from the node at `c` up to its parent respects the policy.
pub open spec fn edge_ok<T: TotalOrder, H: HeapType>(s: Seq<T>, c: int) -> bool {
    above::<T, H>(s[parent_index(c, H::arity_spec())], s[c])
}

/// The heap-shape property: every parent may stand above each of its
/// children.
pub open spec fn heap_shape<T: TotalOrder, H: HeapType>(s: Seq<T>) -> bool {
    forall|c: int| 1 <= c < s.len() ==> #[trigger] edge_ok::<T, H>(s, c)
}

/// Heap shape everywhere except possibly on the edge that leads up from
/// slot `j`.
pub open spec fn shape_except<T: TotalOrder, H: HeapType>(s: Seq<T>, j: int) -> bool {
    forall|c: int| 1 <= c < s.len() && c != j ==> #[trigger] edge_ok::<T, H>(s, c)
}

/// The parent of slot `j` may stand above every child of slot `j`: the
/// element at `j` can be exchanged with its parent without breaking the
/// edges that skip over it.
pub open spec fn bridge_over<T: TotalOrder, H: HeapType>(s: Seq<T>, j: int) -> bool {
    j > 0 ==> forall|c: int|
        1 <= c < s.len() && #[trigger] parent_index(c, H::arity_spec()) == j ==> above::<T, H>(
            s[parent_index(j, H::arity_spec())],
            s[c],
        )
}

/// Heap shape except on the edges that touch slot `j` itself, together
/// with the bridge over `j`: the state from which a sift-down at `j`
/// restores order below `j`.
pub open spec fn down_ready<T: TotalOrder, H: HeapType>(s: Seq<T>, j: int) -> bool {
    &&& forall|c: int|
        1 <= c < s.len() && c != j && parent_index(c, H::arity_spec()) != j ==> #[trigger] edge_ok::<
            T,
            H,
        >(s, c)
    &&& bridge_over::<T, H>(s, j)
}

/// In a well-shaped heap the root may stand above every element.
pub proof fn lemma_root_best<T: TotalOrder, H: HeapType>(s: Seq<T>, i: int)
    requires
        heap_shape::<T, H>(s),
        0 <= i < s.len(),
    ensures
        above::<T, H>(s[0], s[i]),
    decreases i,
{
    H::lemma_arity();
    if i == 0 {
        lemma_above_connex::<T, H>(s[0], s[0]);
    } else {
        let p = parent_index(i, H::arity_spec());
        lemma_parent_bounds(i, H::arity_spec());
        lemma_root_best::<T, H>(s, p);
        assert(edge_ok::<T, H>(s, i));
        lemma_above_transitive::<T, H>(s[0], s[p], s[i]);
    }
}

/// A generic array-backed d-ary heap with its ordering policy fixed by the
/// type parameter `H`.
pub struct GenericHeap<T, H>
    where T: TotalOrder, H: HeapType
{
    heap: Vec<T>,
    _marker: PhantomData<H>,
}

/// A binary heap whose top is the smallest element.
pub type MinHeap<T> = GenericHeap<T, MinHeapType>;

/// A binary heap whose top is the largest element.
pub type MaxHeap<T> = GenericHeap<T, MaxHeapType>;

impl<T, H> View for GenericHeap<T, H>
    where T: TotalOrder, H: HeapType
{
    type V = Seq<T>;

    closed spec fn view(&self) -> Seq<T> {
        self.heap@
    }
}

impl<T, H> GenericHeap<T, H>
    where T: TotalOrder, H: HeapType
{
    /// The heap-shape invariant, established by the constructors and
    /// preserved by every operation.
    pub open spec fn wf(&self) -> bool {
        heap_shape::<T, H>(self@)
    }

    /// Creates a new empty heap.
    pub fn new() -> (r: Self)
        ensures
            r@ == Seq::<T>::empty(),
            r.wf(),
    {
        let r = GenericHeap { heap: Vec::new(), _marker: PhantomData };
        proof {
            assert(r@ =~= Seq::<T>::empty());
        }
        r
    }

    /// Creates a new empty heap with a capacity hint.
    pub fn with_capacity(capacity: usize) -> (r: Self)
        ensures
            r@ == Seq::<T>::empty(),
            r.wf(),
    {
        let r = GenericHeap { heap: Vec::with_capacity(capacity), _marker: PhantomData };
        proof {
            assert(r@ =~= Seq::<T>::empty());
        }
        r
    }

    /// Returns the number of items in the heap.
    pub fn len(&self) -> (n: usize)
        ensures
            n == self@.len(),
    {
        self.heap.len()
    }

    /// Returns `true` if the heap contains no items.
    pub fn is_empty(&self) -> (b: bool)
        ensures
            b == (self@.len() == 0),
    {
        self.heap.len() == 0
    }

    /// Returns a reference to the top item of the heap, if any. In a
    /// well-shaped heap the top may stand above every element.
    pub fn peek(&self) -> (r: Option<&T>)
        ensures
            match r {
                Some(t) => self@.len() > 0 && *t == self@[0],
                None => self@.len() == 0,
            },
    {
        if self.heap.len() == 0 {
            None
        } else {
            Some(&self.heap[0])
        }
    }

    /// Restores the heap shape by sifting the element at `j0` up towards
    /// the root.
    fn heapify_up(&mut self, j0: usize)
        requires
            j0 < old(self)@.len(),
            shape_except::<T, H>(old(self)@, j0 as int),
            bridge_over::<T, H>(old(self)@, j0 as int),
        ensures
            final(self).wf(),
            final(self)@.to_multiset() == old(self)@.to_multiset(),
            final(self)@.len() == old(self)@.len(),
    {
        proof {
            H::lemma_arity();
            broadcast use group_to_multiset_ensures;
        }
        let d = H::arity();
        let mut j = j0;
        while j > 0
            invariant
                j < self@.len(),
                d as int == H::arity_spec(),
                2 <= d,
                shape_except::<T, H>(self@, j as int),
                bridge_over::<T, H>(self@, j as int),
                self@.to_multiset() == old(self)@.to_multiset(),
                self@.len() == old(self)@.len(),
            decreases j,
        {
            let p = (j - 1) / d;
            proof {
                lemma_parent_bounds(j as int, d as int);
            }
            let swap_needed = if H::is_min_first() {
                !self.heap[p].leq(&self.heap[j])
            } else {
                !self.heap[j].leq(&self.heap[p])
            };
            proof {
                lemma_above_connex::<T, H>(self@[p as int], self@[j as int]);
            }
            if swap_needed {
                let ghost s0 = self@;
                swap_in_vec(&mut self.heap, p, j);
                proof {
                    lemma_sift_up_step::<T, H>(s0, j as int);
                    lemma_swap_multiset(s0, p as int, j as int);
                }
                j = p;
            } else {
                proof {
                    assert(edge_ok::<T, H>(self@, j as int));
                    assert(self.wf());
                }
                return ;
            }
        }
        proof {
            assert(self.wf());
        }
    }

    /// Decides whether `a` is ranked strictly better than `b` by the
    /// policy, i.e. `b` could not stand above `a`.
    fn ranks_strictly_better(a: &T, b: &T) -> (r: bool)
        ensures
            r == !above::<T, H>(*b, *a),
    {
        if H::is_min_first() {
            !b.leq(a)
        } else {
            !a.leq(b)
        }
    }

    /// Restores the heap shape below `j0` by sifting the element at `j0`
    /// down towards the leaves. Afterwards only the edge leading up from
    /// `j0` can still be out of order, and the bridge over `j0` holds, so
    /// a following sift-up at `j0` completes the repair.
    fn heapify_down(&mut self, j0: usize)
        requires
            j0 < old(self)@.len(),
            down_ready::<T, H>(old(self)@, j0 as int),
        ensures
            shape_except::<T, H>(final(self)@, j0 as int),
            bridge_over::<T, H>(final(self)@, j0 as int),
            final(self)@.to_multiset() == old(self)@.to_multiset(),
            final(self)@.len() == old(self)@.len(),
    {
        proof {
            H::lemma_arity();
        }
        let d = H::arity();
        let len = self.heap.len();
        let mut j = j0;
        loop
            invariant
                j0 <= j < len,
                len == self@.len(),
                d as int == H::arity_spec(),
                2 <= d,
                down_ready::<T, H>(self@, j as int),
                j != j0 ==> edge_ok::<T, H>(self@, j as int),
                self@.to_multiset() == old(self)@.to_multiset(),
                self@.len() == old(self)@.len(),
            ensures
                shape_except::<T, H>(self@, j0 as int),
                bridge_over::<T, H>(self@, j0 as int),
                self@.to_multiset() == old(self)@.to_multiset(),
                self@.len() == old(self)@.len(),
            decreases len - j,
        {
            let mut extreme = j;
            let base = j.checked_mul(d);
            let ghost s = self@;
            proof {
                lemma_above_connex::<T, H>(s[j as int], s[j as int]);
            }
            if let Some(b) = base {
                proof {
                    vstd::arithmetic::mul::lemma_mul_is_commutative(j as int, d as int);
                    assert forall|c: int|
                        1 <= c < s.len() && #[trigger] parent_index(c, d as int) == j as int implies
                        c >= b + 1 by {
                        lemma_parent_bounds(c, d as int);
                    }
                }
                let mut k: usize = 1;
                loop
                    invariant
                        1 <= k <= d,
                        b as int == (j as int) * (d as int),
                        b as int == (d as int) * (j as int),
                        j <= extreme < len,
                        len == self@.len(),
                        self@ == s,
                        d as int == H::arity_spec(),
                        2 <= d,
                        j < len,
                        extreme == j || (parent_index(extreme as int, d as int) == j as int
                            && !above::<T, H>(s[j as int], s[extreme as int])),
                        above::<T, H>(s[extreme as int], s[j as int]),
                        forall|c: int|
                            1 <= c < s.len() && #[trigger] parent_index(c, d as int) == j as int
                                && c < b + k ==> above::<T, H>(s[extreme as int], s[c]),
                    ensures
                        j <= extreme < len,
                        self@ == s,
                        extreme == j || (parent_index(extreme as int, d as int) == j as int
                            && !above::<T, H>(s[j as int], s[extreme as int])),
                        above::<T, H>(s[extreme as int], s[j as int]),
                        forall|c: int|
                            1 <= c < s.len() && #[trigger] parent_index(c, d as int) == j as int
                                ==> above::<T, H>(s[extreme as int], s[c]),
                    decreases d - k,
                {
                    let next = b.checked_add(k);
                    match next {
                        Some(child) => {
                            if child < len && Self::ranks_strictly_better(
                                &self.heap[child],
                                &self.heap[extreme],
                            ) {
                                proof {
                                    lemma_child_parent(j as int, k as int, d as int);
                                    lemma_above_connex::<T, H>(s[extreme as int], s[child as int]);
                                    lemma_above_connex::<T, H>(s[child as int], s[child as int]);
                                    lemma_above_transitive::<T, H>(
                                        s[child as int],
                                        s[extreme as int],
                                        s[j as int],
                                    );
                                    assert forall|c: int|
                                        1 <= c < s.len() && #[trigger] parent_index(c, d as int)
                                            == j as int && c < b + k + 1 implies above::<T, H>(
                                        s[child as int],
                                        s[c],
                                    ) by {
                                        if c < b + k {
                                            lemma_above_transitive::<T, H>(
                                                s[child as int],
                                                s[extreme as int],
                                                s[c],
                                            );
                                        } else {
                                            assert(c == child as int);
                                        }
                                    }
                                    // the new extreme still ranks strictly better than `j`
                                    if above::<T, H>(s[j as int], s[child as int]) {
                                        lemma_above_transitive::<T, H>(
                                            s[j as int],
                                            s[child as int],
                                            s[extreme as int],
                                        );
                                        assert(false);
                                    }
                                }
                                extreme = child;
                            } else {
                                proof {
                                    assert forall|c: int|
                                        1 <= c < s.len() && #[trigger] parent_index(c, d as int)
                                            == j as int && c < b + k + 1 implies above::<T, H>(
                                        s[extreme as int],
                                        s[c],
                                    ) by {
                                        if c == b + k {
                                            lemma_parent_bounds(c, d as int);
                                            lemma_above_connex::<T, H>(s[extreme as int], s[c]);
                                        }
                                    }
                                }
                            }
                            if k == d {
                                proof {
                                    assert forall|c: int|
                                        1 <= c < s.len() && #[trigger] parent_index(c, d as int)
                                            == j as int implies c < b + k + 1 by {
                                        lemma_parent_bounds(c, d as int);
                                    }
                                }
                                break ;
                            }
                            k = k + 1;
                        },
                        None => {
                            proof {
                                // further children would lie beyond `usize`, hence beyond the heap
                                assert forall|c: int|
                                    1 <= c < s.len() && #[trigger] parent_index(c, d as int)
                                        == j as int implies above::<T, H>(s[extreme as int], s[c]) by {
                                    lemma_parent_bounds(c, d as int);
                                    if c >= b + k {
                                        assert(b + k > usize::MAX);
                                        assert(c < len <= usize::MAX);
                                        assert(false);
                                    }
                                }
                            }
                            break ;
                        },
                    }
                }
            } else {
                proof {
                    // no child index fits in `usize`, so `j` has no children
                    assert forall|c: int|
                        1 <= c < s.len() && #[trigger] parent_index(c, d as int) == j as int implies
                        above::<T, H>(s[extreme as int], s[c]) by {
                        lemma_parent_bounds(c, d as int);
                        assert(c >= d as int * (j as int) + 1);
                        assert(d as int * (j as int) == j as int * (d as int)) by (nonlinear_arith);
                        assert(j as int * d as int > usize::MAX);
                        assert(c < len <= usize::MAX);
                        assert(false);
                    }
                }
            }
            if extreme != j {
                let ghost s0 = self@;
                swap_in_vec(&mut self.heap, j, extreme);
                proof {
                    lemma_sift_down_step::<T, H>(s0, j as int, extreme as int);
                    lemma_swap_multiset(s0, j as int, extreme as int);
                }
                j = extreme;
            } else {
                proof {
                    assert forall|c: int| 1 <= c < self@.len() && c != j0 as int implies
                        #[trigger] edge_ok::<T, H>(self@, c) by {
                        let q = parent_index(c, d as int);
                        if c == j as int {
                        } else if q == j as int {
                            assert(above::<T, H>(s[j as int], s[c]));
                        }
                    }
                    if j != j0 {
                        assert(heap_shape::<T, H>(self@));
                        lemma_shape_bridges::<T, H>(self@, j0 as int);
                    }
                }
                break ;
            }
        }
    }

    /// Removes and returns the top item from the heap; `None` when the
    /// heap is empty. The returned item may stand above everything that
    /// was stored, so repeated popping extracts in the policy's order.
    pub fn pop(&mut self) -> (r: Option<T>)
        requires
            old(self).wf(),
        ensures
            final(self).wf(),
            match r {
                None => old(self)@.len() == 0 && final(self)@ == old(self)@,
                Some(t) => {
                    &&& old(self)@.len() > 0
                    &&& t == old(self)@[0]
                    &&& final(self)@.len() == old(self)@.len() - 1
                    &&& final(self)@.to_multiset() == old(self)@.to_multiset().remove(t)
                    &&& forall|x: T|
                        old(self)@.to_multiset().contains(x) ==> above::<T, H>(t, x)
                },
            },
    {
        proof {
            H::lemma_arity();
            broadcast use group_to_multiset_ensures;
        }
        if self.heap.len() == 0 {
            return None;
        }
        let ghost s0 = self@;
        let n = self.heap.len() - 1;
        swap_in_vec(&mut self.heap, 0, n);
        let item = self.heap.pop().unwrap();
        proof {
            let d = H::arity_spec();
            if n == 0 {
                vstd::seq_lib::to_multiset_remove(s0, 0);
                assert(self@ =~= s0.remove(0));
                assert(self@.to_multiset() =~= s0.to_multiset().remove(item));
            } else {
                let sw = s0.update(0, s0[n as int]).update(n as int, s0[0]);
                lemma_swap_multiset(s0, 0, n as int);
                assert(self@ =~= sw.remove(n as int));
                vstd::seq_lib::to_multiset_remove(sw, n as int);
                assert(self@.to_multiset() =~= s0.to_multiset().remove(s0[0]));
                assert forall|c: int|
                    1 <= c < self@.len() && c != 0 && parent_index(c, d) != 0 implies
                    #[trigger] edge_ok::<T, H>(self@, c) by {
                    lemma_parent_bounds(c, d);
                    assert(edge_ok::<T, H>(s0, c));
                }
            }
            assert forall|x: T| s0.to_multiset().contains(x) implies above::<T, H>(
                s0[0],
                x,
            ) by {
                assert(s0.contains(x));
                let i = choose|i: int| 0 <= i < s0.len() && s0[i] == x;
                lemma_root_best::<T, H>(s0, i);
            }
        }
        if self.heap.len() > 0 {
            self.heapify_down(0);
            proof {
                assert(heap_shape::<T, H>(self@));
            }
        }
        Some(item)
    }

    /// Pushes an item onto the heap.
    pub fn push(&mut self, item: T)
        requires
            old(self).wf(),
        ensures
            final(self).wf(),
            final(self)@.to_multiset() == old(self)@.to_multiset().insert(item),
            final(self)@.len() == old(self)@.len() + 1,
    {
        proof {
            H::lemma_arity();
            broadcast use group_to_multiset_ensures;
        }
        let ghost s0 = self@;
        let j = self.heap.len();
        self.heap.push(item);
        proof {
            let d = H::arity_spec();
            assert forall|c: int| 1 <= c < self@.len() && c != j as int implies #[trigger] edge_ok::<
                T,
                H,
            >(self@, c) by {
                lemma_parent_bounds(c, d);
                assert(edge_ok::<T, H>(s0, c));
            }
            assert forall|c: int|
                1 <= c < self@.len() && #[trigger] parent_index(c, d) == j as int implies false by {
                lemma_parent_bounds(c, d);
                assert(d * (j as int) + 1 <= c);
                assert(d * (j as int) >= 2 * (j as int)) by (nonlinear_arith)
                    requires
                        d >= 2,
                        j as int >= 0,
                ;
            }
        }
        self.heapify_up(j);
    }
}

/// The order in which a heap hands its elements out: every element may
/// stand above all that follow it.
pub open spec fn extraction_ordered<T: TotalOrder, H: HeapType>(s: Seq<T>) -> bool {
    forall|i: int, j: int| 0 <= i <= j < s.len() ==> above::<T, H>(#[trigger] s[i], #[trigger] s[j])
}

/// A fully well-shaped heap bridges over any of its slots: the parent of
/// `j` may stand above the children of `j`, by transitivity through `j`.
pub proof fn lemma_shape_bridges<T: TotalOrder, H: HeapType>(s: Seq<T>, j: int)
    requires
        heap_shape::<T, H>(s),
        0 <= j < s.len(),
    ensures
        bridge_over::<T, H>(s, j),
{
    H::lemma_arity();
    let d = H::arity_spec();
    if j > 0 {
        assert forall|c: int|
            1 <= c < s.len() && #[trigger] parent_index(c, d) == j implies above::<T, H>(
            s[parent_index(j, d)],
            s[c],
        ) by {
            assert(edge_ok::<T, H>(s, j));
            assert(edge_ok::<T, H>(s, c));
            lemma_above_transitive::<T, H>(s[parent_index(j, d)], s[j], s[c]);
        }
    }
}

/// Relies on the standard formatting machinery to join a label with a
/// comma-separated item list.
#[verifier::external_body]
fn join_bracketed(name: &str, parts: Vec<String>) -> String {
    format!("{}[{}]", name, parts.join(", "))
}

/// In a well-shaped heap every parent may stand above each of its
/// children — the heap property, spelled out edge by edge.
pub proof fn lemma_heap_property<T: TotalOrder, H: HeapType>(s: Seq<T>)
    requires
        heap_shape::<T, H>(s),
    ensures
        forall|c: int|
            1 <= c < s.len() ==> above::<T, H>(s[parent_index(c, H::arity_spec())], #[trigger] s[c]),
{
    assert forall|c: int| 1 <= c < s.len() implies above::<T, H>(
        s[parent_index(c, H::arity_spec())],
        #[trigger] s[c],
    ) by {
        assert(edge_ok::<T, H>(s, c));
    }
}

/// A value sitting in two distinct slots counts at least twice in the
/// multiset of the sequence.
pub proof fn lemma_dup_slots_count<A>(s: Seq<A>, i: int, j: int)
    requires
        0 <= i < j < s.len(),
        s[i] == s[j],
    ensures
        s.to_multiset().count(s[i]) >= 2,
{
    let without = s.remove(j);
    vstd::seq_lib::to_multiset_remove(s, j);
    assert(forall|k: int| 0 <= k < j ==> #[trigger] without[k] == s[k]);
    assert(without[i] == s[i]);
    assert(without.to_multiset().contains(without[i]));
    assert(without.to_multiset().count(s[i]) >= 1);
    assert(s.to_multiset().count(s[i]) == without.to_multiset().count(s[i]) + 1);
}

/// Conversely, a value counted at least twice sits in two distinct slots.
pub proof fn lemma_count_two_slots<A>(s: Seq<A>, x: A)
    requires
        s.to_multiset().count(x) >= 2,
    ensures
        exists|i: int, j: int| 0 <= i < j < s.len() && #[trigger] s[i] == x && #[trigger] s[j] == x,
{
    broadcast use group_to_multiset_ensures;
    broadcast use vstd::multiset::group_multiset_axioms;

    assert(s.to_multiset().contains(x));
    assert(s.contains(x));
    let a = choose|a: int| 0 <= a < s.len() && s[a] == x;
    let without = s.remove(a);
    vstd::seq_lib::to_multiset_remove(s, a);
    assert(without.to_multiset().count(x) >= 1);
    assert(without.to_multiset().contains(x));
    assert(without.contains(x));
    let b0 = choose|b0: int| 0 <= b0 < without.len() && without[b0] == x;
    let b: int = if b0 < a { b0 } else { b0 + 1 };
    assert(s[b] == x);
    assert(a != b);
    if a < b {
        assert(s[a] == x && s[b] == x);
    } else {
        assert(s[b] == x && s[a] == x);
    }
}

/// Exchanging two slots of a sequence does not change the multiset of its
/// elements.
pub proof fn lemma_swap_multiset<T>(s: Seq<T>, i: int, j: int)
    requires
        0 <= i < s.len(),
        0 <= j < s.len(),
        i != j,
    ensures
        s.update(i, s[j]).update(j, s[i]).to_multiset() == s.to_multiset(),
{
    broadcast use group_to_multiset_ensures;
    broadcast use vstd::multiset::group_multiset_axioms;

    let s1 = s.update(i, s[j]);
    let s2 = s1.update(j, s[i]);
    vstd::seq_lib::to_multiset_update(s, i, s[j]);
    vstd::seq_lib::to_multiset_update(s1, j, s[i]);
    assert(s1[j] == s[j]);
    assert(s.to_multiset().contains(s[i]));
    assert(s1.to_multiset() =~= s.to_multiset().remove(s[i]).insert(s[j]));
    assert(s1.to_multiset().contains(s[j]));
    assert(s2.to_multiset() =~= s1.to_multiset().remove(s[j]).insert(s[i]));
    assert(s2.to_multiset() =~= s.to_multiset());
}

impl<T, H> GenericHeap<T, H>
    where T: TotalOrder, H: HeapType
{
    /// Renders the heap as its policy name followed by the stored items
    /// in array order.
    pub fn render(&self) -> String where T: crate::order::TextValue {
        let mut parts: Vec<String> = Vec::new();
        let mut i: usize = 0;
        while i < self.heap.len()
            invariant
                i <= self@.len(),
            decreases self@.len() - i,
        {
            parts.push(self.heap[i].to_text());
            i = i + 1;
        }
        join_bracketed(H::policy_name(), parts)
    }

    /// Clears the heap, removing all items.
    pub fn clear(&mut self)
        ensures
            final(self)@ == Seq::<T>::empty(),
            final(self).wf(),
    {
        self.heap.clear();
        proof {
            assert(self@ =~= Seq::<T>::empty());
        }
    }

    /// Consumes the heap and returns the raw backing vector, in heap
    /// order rather than sorted order.
    pub fn into_vec(self) -> (r: Vec<T>)
        ensures
            r@ == self@,
    {
        let GenericHeap { heap, _marker } = self;
        heap
    }

    /// Removes every element, best first: the result is ordered by the
    /// policy and holds exactly what the heap held.
    pub fn drain(&mut self) -> (r: Vec<T>)
        requires
            old(self).wf(),
        ensures
            final(self)@ == Seq::<T>::empty(),
            final(self).wf(),
            r@.to_multiset() == old(self)@.to_multiset(),
            extraction_ordered::<T, H>(r@),
    {
        proof {
            broadcast use group_to_multiset_ensures;
        }
        let mut out: Vec<T> = Vec::new();
        proof {
            assert(out@.to_multiset().add(self@.to_multiset()) =~= old(self)@.to_multiset());
        }
        loop
            invariant
                self.wf(),
                out@.to_multiset().add(self@.to_multiset()) == old(self)@.to_multiset(),
                extraction_ordered::<T, H>(out@),
                forall|i: int, x: T|
                    0 <= i < out@.len() && #[trigger] self@.to_multiset().contains(x) ==> above::<
                        T,
                        H,
                    >(#[trigger] out@[i], x),
            ensures
                self@.len() == 0,
                out@.to_multiset() == old(self)@.to_multiset(),
                extraction_ordered::<T, H>(out@),
            decreases self@.len(),
        {
            let ghost pre = self@;
            let ghost outpre = out@;
            match self.pop() {
                Some(x) => {
                    out.push(x);
                    proof {
                        assert(out@ == outpre.push(x));
                        assert(out@.to_multiset().add(self@.to_multiset()) =~= old(
                            self,
                        )@.to_multiset());
                        assert(pre.to_multiset().contains(x));
                        assert forall|i: int, j: int| 0 <= i <= j < out@.len() implies above::<
                            T,
                            H,
                        >(#[trigger] out@[i], #[trigger] out@[j]) by {
                            if j == out@.len() - 1 && i < j {
                                assert(above::<T, H>(outpre[i], x));
                            } else if j == out@.len() - 1 {
                                lemma_above_connex::<T, H>(x, x);
                            }
                        }
                        assert forall|i: int, x2: T|
                            0 <= i < out@.len() && #[trigger] self@.to_multiset().contains(x2)
                            implies above::<T, H>(#[trigger] out@[i], x2) by {
                            assert(pre.to_multiset().contains(x2));
                        }
                    }
                },
                None => {
                    proof {
                        assert(out@.to_multiset() =~= old(self)@.to_multiset());
                    }
                    break ;
                },
            }
        }
        out
    }

    /// Consumes the heap and returns every element in the policy's order.
    pub fn into_ordered_vec(self) -> (r: Vec<T>)
        requires
            self.wf(),
        ensures
            r@.to_multiset() == self@.to_multiset(),
            extraction_ordered::<T, H>(r@),
    {
        let mut h = self;
        h.drain()
    }

    /// Builds a heap holding every element of the given vector.
    pub fn from_vec(items: Vec<T>) -> (r: Self)
        ensures
            r.wf(),
            r@.to_multiset() == items@.to_multiset(),
    {
        proof {
            broadcast use group_to_multiset_ensures;
        }
        let mut items = items;
        let mut r = Self::new();
        proof {
            assert(r@.to_multiset().add(items@.to_multiset()) =~= items@.to_multiset());
        }
        let ghost orig = items@.to_multiset();
        loop
            invariant
                r.wf(),
                r@.to_multiset().add(items@.to_multiset()) == orig,
            ensures
                r.wf(),
                r@.to_multiset() == orig,
            decreases items@.len(),
        {
            let ghost pre = items@;
            match items.pop() {
                Some(x) => {
                    proof {
                        vstd::seq_lib::to_multiset_remove(pre, pre.len() - 1);
                    }
                    r.push(x);
                    proof {
                        assert(pre.to_multiset().contains(x));
                        assert(r@.to_multiset().add(items@.to_multiset()) =~= orig);
                    }
                },
                None => {
                    proof {
                        assert(r@.to_multiset() =~= orig);
                    }
                    break ;
                },
            }
        }
        r
    }

    /// Pushes every element of the given vector onto the heap.
    pub fn extend(&mut self, items: Vec<T>)
        requires
            old(self).wf(),
        ensures
            final(self).wf(),
            final(self)@.to_multiset() == old(self)@.to_multiset().add(items@.to_multiset()),
    {
        proof {
            broadcast use group_to_multiset_ensures;
        }
        let mut items = items;
        let ghost orig = old(self)@.to_multiset().add(items@.to_multiset());
        loop
            invariant
                self.wf(),
                self@.to_multiset().add(items@.to_multiset()) == orig,
            ensures
                self.wf(),
                self@.to_multiset() == orig,
            decreases items@.len(),
        {
            let ghost pre = items@;
            match items.pop() {
                Some(x) => {
                    proof {
                        vstd::seq_lib::to_multiset_remove(pre, pre.len() - 1);
                    }
                    self.push(x);
                    proof {
                        assert(pre.to_multiset().contains(x));
                        assert(self@.to_multiset().add(items@.to_multiset()) =~= orig);
                    }
                },
                None => {
                    proof {
                        assert(self@.to_multiset() =~= orig);
                    }
                    break ;
                },
            }
        }
    }

    /// Keeps only the elements accepted by the predicate, by draining the
    /// heap and reinserting the matches; the cost is one full extraction
    /// plus one insertion per kept element rather than an in-place repair.
    pub fn retain<F: Fn(&T) -> bool>(&mut self, f: F)
        requires
            old(self).wf(),
            forall|x: &T| #[trigger] call_requires(f, (x,)),
        ensures
            final(self).wf(),
            forall|x: T|
                #[trigger] final(self)@.to_multiset().count(x) <= old(self)@.to_multiset().count(
                    x,
                ),
            forall|x: T|
                #[trigger] final(self)@.to_multiset().count(x) > 0 ==> call_ensures(
                    f,
                    (&x,),
                    true,
                ),
            forall|x: T|
                old(self)@.to_multiset().count(x) > #[trigger] final(self)@.to_multiset().count(
                    x,
                ) ==> call_ensures(f, (&x,), false),
    {
        proof {
            broadcast use group_to_multiset_ensures;
        }
        let ghost orig = old(self)@.to_multiset();
        let mut items = self.drain();
        loop
            invariant
                self.wf(),
                forall|x: &T| #[trigger] call_requires(f, (x,)),
                forall|y: T|
                    #[trigger] self@.to_multiset().count(y) + items@.to_multiset().count(y)
                        <= orig.count(y),
                forall|y: T|
                    #[trigger] self@.to_multiset().count(y) > 0 ==> call_ensures(f, (&y,), true),
                forall|y: T|
                    orig.count(y) > #[trigger] self@.to_multiset().count(y)
                        + items@.to_multiset().count(y) ==> call_ensures(f, (&y,), false),
            ensures
                self.wf(),
                forall|y: T| #[trigger] self@.to_multiset().count(y) <= orig.count(y),
                forall|y: T|
                    #[trigger] self@.to_multiset().count(y) > 0 ==> call_ensures(f, (&y,), true),
                forall|y: T|
                    orig.count(y) > #[trigger] self@.to_multiset().count(y) ==> call_ensures(
                        f,
                        (&y,),
                        false,
                    ),
            decreases items@.len(),
        {
            let ghost pre = items@;
            match items.pop() {
                Some(x) => {
                    proof {
                        vstd::seq_lib::to_multiset_remove(pre, pre.len() - 1);
                        assert(pre.to_multiset().contains(x));
                    }
                    if f(&x) {
                        self.push(x);
                    }
                },
                None => {
                    proof {
                        assert(items@ =~= Seq::<T>::empty());
                        assert(items@.to_multiset() =~= Multiset::<T>::empty());
                    }
                    break ;
                },
            }
        }
    }
}

/// One exchange of a sift-up: swapping slot `j` with its parent, when the
/// child is ranked strictly better, leaves the heap in the sift-up state
/// one level higher.
pub proof fn lemma_sift_up_step<T: TotalOrder, H: HeapType>(s: Seq<T>, j: int)
    requires
        1 <= j < s.len(),
        shape_except::<T, H>(s, j),
        bridge_over::<T, H>(s, j),
        !above::<T, H>(s[parent_index(j, H::arity_spec())], s[j]),
        above::<T, H>(s[j], s[parent_index(j, H::arity_spec())]),
    ensures
        shape_except::<T, H>(
            s.update(parent_index(j, H::arity_spec()), s[j]).update(
                j,
                s[parent_index(j, H::arity_spec())],
            ),
            parent_index(j, H::arity_spec()),
        ),
        bridge_over::<T, H>(
            s.update(parent_index(j, H::arity_spec()), s[j]).update(
                j,
                s[parent_index(j, H::arity_spec())],
            ),
            parent_index(j, H::arity_spec()),
        ),
{
    H::lemma_arity();
    let d = H::arity_spec();
    let p = parent_index(j, d);
    lemma_parent_bounds(j, d);
    let t = s.update(p, s[j]).update(j, s[p]);
    assert(t.len() == s.len());
    assert(t[p] == s[j] && t[j] == s[p]);
    assert forall|c: int| 1 <= c < t.len() && c != p implies #[trigger] edge_ok::<T, H>(t, c) by {
        lemma_parent_bounds(c, d);
        let q = parent_index(c, d);
        if c == j {
            // the former parent now sits under the promoted child
            assert(above::<T, H>(t[p], t[j]));
        } else if q == j {
            // a child of `j` now sits under the element that bridged over `j`
            assert(above::<T, H>(s[p], s[c]));
        } else if q == p {
            // a sibling of `j` now sits under the promoted child
            assert(edge_ok::<T, H>(s, c));
            lemma_above_transitive::<T, H>(s[j], s[p], s[c]);
        } else {
            assert(edge_ok::<T, H>(s, c));
        }
    }
    if p > 0 {
        let pp = parent_index(p, d);
        lemma_parent_bounds(p, d);
        assert(edge_ok::<T, H>(s, p));
        assert forall|c: int| 1 <= c < t.len() && #[trigger] parent_index(c, d) == p implies
            above::<T, H>(t[pp], t[c]) by {
            lemma_parent_bounds(c, d);
            if c == j {
                assert(above::<T, H>(s[pp], s[p]));
            } else {
                assert(edge_ok::<T, H>(s, c));
                lemma_above_transitive::<T, H>(s[pp], s[p], s[c]);
            }
        }
    }
}

/// One exchange of a sift-down: swapping slot `j` with its best child `m`,
/// when that child is ranked strictly better, leaves the heap in the
/// sift-down state one level lower.
pub proof fn lemma_sift_down_step<T: TotalOrder, H: HeapType>(s: Seq<T>, j: int, m: int)
    requires
        0 <= j < s.len(),
        1 <= m < s.len(),
        parent_index(m, H::arity_spec()) == j,
        down_ready::<T, H>(s, j),
        // `m` is the best among the children of `j`
        forall|c: int|
            1 <= c < s.len() && #[trigger] parent_index(c, H::arity_spec()) == j ==> above::<T, H>(
                s[m],
                s[c],
            ),
        // and strictly better than the element at `j`
        !above::<T, H>(s[j], s[m]),
        above::<T, H>(s[m], s[j]),
    ensures
        down_ready::<T, H>(s.update(j, s[m]).update(m, s[j]), m),
        edge_ok::<T, H>(s.update(j, s[m]).update(m, s[j]), m),
{
    H::lemma_arity();
    let d = H::arity_spec();
    lemma_parent_bounds(m, d);
    let t = s.update(j, s[m]).update(m, s[j]);
    assert(t[j] == s[m] && t[m] == s[j]);
    assert(edge_ok::<T, H>(t, m));
    assert forall|c: int|
        1 <= c < t.len() && c != m && parent_index(c, d) != m implies #[trigger] edge_ok::<T, H>(
        t,
        c,
    ) by {
        lemma_parent_bounds(c, d);
        let q = parent_index(c, d);
        if c == j {
            // `j` now holds the promoted child; the bridge over `j` covers it
            assert(above::<T, H>(s[q], s[m]));
        } else if q == j {
            // a sibling of `m` now sits under the promoted best child
            assert(above::<T, H>(s[m], s[c]));
        } else {
            assert(edge_ok::<T, H>(s, c));
        }
    }
    assert forall|c: int| 1 <= c < t.len() && #[trigger] parent_index(c, d) == m implies above::<
        T,
        H,
    >(t[parent_index(m, d)], t[c]) by {
        lemma_parent_bounds(c, d);
        // the children of `m` were already below `m`'s old element
        assert(edge_ok::<T, H>(s, c));
    }
}

} // verus!
