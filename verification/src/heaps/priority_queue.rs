//! Priority queues built on the heap core: each entry carries a priority,
//! a payload and a monotonically increasing sequence number, so that
//! entries of equal priority leave the queue in insertion order, under
//! both the minimum-first and the maximum-first policy.

use vstd::prelude::*;
use vstd::multiset::Multiset;
use core::marker::PhantomData;
use crate::order::{TotalOrder, eqv};
use crate::heaps::heap::{GenericHeap, HeapType, MinHeapType, MaxHeapType, above, extraction_ordered};

verus! {

broadcast use {vstd::seq_lib::group_to_multiset_ensures, vstd::multiset::group_multiset_axioms};

/// One stored entry of a priority queue: the priority, the payload, and
/// the sequence number assigned when the entry was pushed. The policy
/// parameter `H` fixes which priorities rank first; the sequence number
/// breaks ties in insertion order under either policy.
pub struct PriorityItem<P, T, H> {
    pub priority: P,
    pub item: T,
    pub index: usize,
    pub _marker: PhantomData<H>,
}

impl<P, T, H> TotalOrder for PriorityItem<P, T, H>
    where P: TotalOrder, H: HeapType
{
    /// Ranks first by priority in the policy's direction, then by
    /// sequence number ascending.
    open spec fn leq_spec(self, other: Self) -> bool {
        &&& above::<P, H>(self.priority, other.priority)
        &&& (above::<P, H>(other.priority, self.priority) ==> self.index <= other.index)
    }

    proof fn lemma_connex(a: Self, b: Self) {
        P::lemma_connex(a.priority, b.priority);
    }

    proof fn lemma_transitive(a: Self, b: Self, c: Self) {
        crate::heaps::heap::lemma_above_transitive::<P, H>(a.priority, b.priority, c.priority);
        if above::<P, H>(c.priority, a.priority) {
            crate::heaps::heap::lemma_above_transitive::<P, H>(b.priority, c.priority, a.priority);
            crate::heaps::heap::lemma_above_transitive::<P, H>(c.priority, a.priority, b.priority);
        }
    }

    fn leq(&self, other: &Self) -> (r: bool) {
        let first = if H::is_min_first() {
            self.priority.leq(&other.priority)
        } else {
            other.priority.leq(&self.priority)
        };
        let second = if H::is_min_first() {
            other.priority.leq(&self.priority)
        } else {
            self.priority.leq(&other.priority)
        };
        first && (!second || self.index <= other.index)
    }
}

/// Among entries of equal priority, the queue's order is exactly the
/// insertion order given by the sequence numbers — under both policies.
pub proof fn lemma_fifo_tie_break<P, T, H>(a: PriorityItem<P, T, H>, b: PriorityItem<P, T, H>)
    where P: TotalOrder, H: HeapType
    requires
        eqv(a.priority, b.priority),
    ensures
        a.leq_spec(b) <==> a.index <= b.index,
{
}

/// A priority queue that wraps the heap core with sequence-numbered
/// entries. `clear` restarts the sequence counter from zero, so
/// tie-breaking after a `clear` behaves as in a fresh queue.
pub struct PriorityQueue<T, P, H>
    where P: TotalOrder, H: HeapType
{
    heap: GenericHeap<PriorityItem<P, T, H>, MinHeapType>,
    counter: usize,
}

/// A priority queue handing out the largest priorities first.
pub type MaxPriorityQueue<T, P> = PriorityQueue<T, P, MaxHeapType>;

/// A priority queue handing out the smallest priorities first.
pub type MinPriorityQueue<T, P> = PriorityQueue<T, P, MinHeapType>;

impl<T, P, H> View for PriorityQueue<T, P, H>
    where P: TotalOrder, H: HeapType
{
    type V = Seq<PriorityItem<P, T, H>>;

    closed spec fn view(&self) -> Seq<PriorityItem<P, T, H>> {
        self.heap@
    }
}

impl<T, P, H> PriorityQueue<T, P, H>
    where P: TotalOrder, H: HeapType
{
    /// The sequence number the next push will receive.
    pub closed spec fn next_index(&self) -> int {
        self.counter as int
    }

    /// Well-formedness: the underlying heap is well-shaped, and the
    /// stored sequence numbers are distinct and below the counter.
    pub closed spec fn wf(&self) -> bool {
        &&& self.heap.wf()
        &&& forall|i: int| 0 <= i < self@.len() ==> #[trigger] self@[i].index < self.counter
        &&& forall|i: int, j: int|
            0 <= i < j < self@.len() ==> #[trigger] self@[i].index != #[trigger] self@[j].index
    }

    /// Creates a new empty priority queue.
    pub fn new() -> (r: Self)
        ensures
            r@ == Seq::<PriorityItem<P, T, H>>::empty(),
            r.wf(),
            r.next_index() == 0,
    {
        PriorityQueue { heap: GenericHeap::new(), counter: 0 }
    }

    /// Creates a new empty priority queue with a capacity hint.
    pub fn with_capacity(capacity: usize) -> (r: Self)
        ensures
            r@ == Seq::<PriorityItem<P, T, H>>::empty(),
            r.wf(),
            r.next_index() == 0,
    {
        PriorityQueue { heap: GenericHeap::with_capacity(capacity), counter: 0 }
    }

    /// Returns the number of entries in the queue.
    pub fn len(&self) -> (n: usize)
        ensures
            n == self@.len(),
    {
        self.heap.len()
    }

    /// Returns `true` if the queue holds no entries.
    pub fn is_empty(&self) -> (b: bool)
        ensures
            b == (self@.len() == 0),
    {
        self.heap.is_empty()
    }

    /// Pushes a payload with a priority; the entry receives the next
    /// sequence number, so it ranks after every earlier push of an equal
    /// priority.
    pub fn push(&mut self, item: T, priority: P)
        requires
            old(self).wf(),
            old(self).next_index() < usize::MAX,
        ensures
            final(self).wf(),
            final(self)@.to_multiset() == old(self)@.to_multiset().insert(
                (PriorityItem {
                    priority: priority,
                    item: item,
                    index: old(self).next_index() as usize,
                    _marker: PhantomData,
                }),
            ),
            final(self)@.len() == old(self)@.len() + 1,
            final(self).next_index() == old(self).next_index() + 1,
    {
        let entry = PriorityItem { priority, item, index: self.counter, _marker: PhantomData };
        let ghost pre = self@;
        self.heap.push(entry);
        self.counter = self.counter + 1;
        proof {
            lemma_push_distinct(pre, self@, entry, old(self).counter as int);
        }
    }

    /// Removes and returns the payload with the policy's best priority;
    /// among equal priorities the earliest-pushed entry leaves first.
    pub fn pop(&mut self) -> (r: Option<T>)
        requires
            old(self).wf(),
        ensures
            final(self).wf(),
            final(self).next_index() == old(self).next_index(),
            match r {
                None => old(self)@.len() == 0 && final(self)@ == old(self)@,
                Some(t) => exists|e: PriorityItem<P, T, H>|
                    {
                        &&& #[trigger] old(self)@.to_multiset().contains(e)
                        &&& e.item == t
                        &&& final(self)@.to_multiset() == old(self)@.to_multiset().remove(e)
                        &&& forall|x: PriorityItem<P, T, H>|
                            old(self)@.to_multiset().contains(x) ==> e.leq_spec(x)
                    },
            },
    {
        let ghost pre = self@;
        match self.heap.pop() {
            None => None,
            Some(entry) => {
                proof {
                    assert(pre.to_multiset().contains(entry));
                    assert(self@.to_multiset() == pre.to_multiset().remove(entry));
                    assert forall|x: PriorityItem<P, T, H>|
                        pre.to_multiset().contains(x) implies entry.leq_spec(x) by {
                        assert(above::<PriorityItem<P, T, H>, MinHeapType>(entry, x));
                    }
                    lemma_subrange_indices(pre, self@, self.counter as int);
                }
                Some(entry.item)
            },
        }
    }

    /// As [`Self::pop`], but returns the priority together with the
    /// payload.
    pub fn pop_with_priority(&mut self) -> (r: Option<(P, T)>)
        requires
            old(self).wf(),
        ensures
            final(self).wf(),
            final(self).next_index() == old(self).next_index(),
            match r {
                None => old(self)@.len() == 0 && final(self)@ == old(self)@,
                Some(pt) => exists|e: PriorityItem<P, T, H>|
                    {
                        &&& #[trigger] old(self)@.to_multiset().contains(e)
                        &&& e.priority == pt.0 && e.item == pt.1
                        &&& final(self)@.to_multiset() == old(self)@.to_multiset().remove(e)
                        &&& forall|x: PriorityItem<P, T, H>|
                            old(self)@.to_multiset().contains(x) ==> e.leq_spec(x)
                    },
            },
    {
        let ghost pre = self@;
        match self.heap.pop() {
            None => None,
            Some(entry) => {
                proof {
                    assert(pre.to_multiset().contains(entry));
                    assert(self@.to_multiset() == pre.to_multiset().remove(entry));
                    assert forall|x: PriorityItem<P, T, H>|
                        pre.to_multiset().contains(x) implies entry.leq_spec(x) by {
                        assert(above::<PriorityItem<P, T, H>, MinHeapType>(entry, x));
                    }
                    lemma_subrange_indices(pre, self@, self.counter as int);
                }
                Some((entry.priority, entry.item))
            },
        }
    }

    /// Read-only access to the payload that `pop` would return next.
    pub fn peek(&self) -> (r: Option<&T>)
        requires
            self.wf(),
        ensures
            match r {
                None => self@.len() == 0,
                Some(t) => self@.len() > 0 && *t == self@[0].item && forall|x: PriorityItem<
                    P,
                    T,
                    H,
                >| self@.to_multiset().contains(x) ==> self@[0].leq_spec(x),
            },
    {
        proof {
            if self@.len() > 0 {
                lemma_top_is_best::<P, T, H>(self@);
            }
        }
        match self.heap.peek() {
            None => None,
            Some(entry) => Some(&entry.item),
        }
    }

    /// Read-only access to the best priority and its payload.
    pub fn peek_with_priority(&self) -> (r: Option<(&P, &T)>)
        requires
            self.wf(),
        ensures
            match r {
                None => self@.len() == 0,
                Some(pt) => self@.len() > 0 && *pt.0 == self@[0].priority && *pt.1
                    == self@[0].item && forall|x: PriorityItem<P, T, H>|
                    self@.to_multiset().contains(x) ==> self@[0].leq_spec(x),
            },
    {
        proof {
            if self@.len() > 0 {
                lemma_top_is_best::<P, T, H>(self@);
            }
        }
        match self.heap.peek() {
            None => None,
            Some(entry) => Some((&entry.priority, &entry.item)),
        }
    }

    /// Removes every entry, best first, and returns the payloads in that
    /// order: the result follows the policy's priority order, with equal
    /// priorities in insertion order.
    pub fn drain(&mut self) -> (r: Vec<T>)
        requires
            old(self).wf(),
        ensures
            final(self).wf(),
            final(self)@.len() == 0,
            final(self).next_index() == old(self).next_index(),
            exists|es: Seq<PriorityItem<P, T, H>>|
                {
                    &&& #[trigger] es.to_multiset() == old(self)@.to_multiset()
                    &&& extraction_ordered::<PriorityItem<P, T, H>, MinHeapType>(es)
                    &&& r@ == es.map_values(|e: PriorityItem<P, T, H>| e.item)
                },
    {
        let mut out: Vec<T> = Vec::new();
        let ghost mut es = Seq::<PriorityItem<P, T, H>>::empty();
        proof {
            assert(es.to_multiset().add(self@.to_multiset()) =~= old(self)@.to_multiset());
            assert(out@ =~= es.map_values(|e: PriorityItem<P, T, H>| e.item));
        }
        loop
            invariant
                self.wf(),
                self.next_index() == old(self).next_index(),
                es.to_multiset().add(self@.to_multiset()) == old(self)@.to_multiset(),
                extraction_ordered::<PriorityItem<P, T, H>, MinHeapType>(es),
                forall|i: int, x: PriorityItem<P, T, H>|
                    0 <= i < es.len() && #[trigger] self@.to_multiset().contains(x)
                        ==> (#[trigger] es[i]).leq_spec(x),
                out@ == es.map_values(|e: PriorityItem<P, T, H>| e.item),
            ensures
                self.wf(),
                self@.len() == 0,
                self.next_index() == old(self).next_index(),
                es.to_multiset() == old(self)@.to_multiset(),
                extraction_ordered::<PriorityItem<P, T, H>, MinHeapType>(es),
                out@ == es.map_values(|e: PriorityItem<P, T, H>| e.item),
            decreases self@.len(),
        {
            let ghost pre = self@;
            let ghost espre = es;
            match self.heap.pop() {
                Some(e) => {
                    proof {
                        lemma_subrange_indices(pre, self@, self.counter as int);
                        es = es.push(e);
                        assert(pre.to_multiset().contains(e));
                        assert(es.to_multiset().add(self@.to_multiset()) =~= old(
                            self,
                        )@.to_multiset());
                        assert forall|i: int, j: int| 0 <= i <= j < es.len() implies above::<
                            PriorityItem<P, T, H>,
                            MinHeapType,
                        >(#[trigger] es[i], #[trigger] es[j]) by {
                            if j == es.len() - 1 && i < j {
                                assert(espre[i].leq_spec(e));
                            } else if j == es.len() - 1 {
                                PriorityItem::<P, T, H>::lemma_connex(e, e);
                                assert(above::<PriorityItem<P, T, H>, MinHeapType>(e, e));
                            }
                        }
                        assert forall|i: int, x: PriorityItem<P, T, H>|
                            0 <= i < es.len() && #[trigger] self@.to_multiset().contains(x) implies
                            (#[trigger] es[i]).leq_spec(x) by {
                            assert(pre.to_multiset().contains(x));
                            assert(above::<PriorityItem<P, T, H>, MinHeapType>(e, x));
                        }
                    }
                    out.push(e.item);
                    proof {
                        assert(out@ =~= es.map_values(|x: PriorityItem<P, T, H>| x.item));
                    }
                },
                None => {
                    proof {
                        assert(es.to_multiset() =~= old(self)@.to_multiset());
                    }
                    break ;
                },
            }
        }
        out
    }

    /// Consumes the queue and returns every (priority, payload) pair in
    /// full extraction order: sorted by the policy, ties by insertion.
    pub fn into_sorted_vec(self) -> (r: Vec<(P, T)>)
        requires
            self.wf(),
        ensures
            exists|es: Seq<PriorityItem<P, T, H>>|
                {
                    &&& #[trigger] es.to_multiset() == self@.to_multiset()
                    &&& extraction_ordered::<PriorityItem<P, T, H>, MinHeapType>(es)
                    &&& r@ == es.map_values(|e: PriorityItem<P, T, H>| (e.priority, e.item))
                },
    {
        let mut q = self;
        let ghost orig = q@;
        let mut out: Vec<(P, T)> = Vec::new();
        let ghost mut es = Seq::<PriorityItem<P, T, H>>::empty();
        proof {
            assert(es.to_multiset().add(q@.to_multiset()) =~= orig.to_multiset());
            assert(out@ =~= es.map_values(|e: PriorityItem<P, T, H>| (e.priority, e.item)));
        }
        loop
            invariant
                q.wf(),
                es.to_multiset().add(q@.to_multiset()) == orig.to_multiset(),
                extraction_ordered::<PriorityItem<P, T, H>, MinHeapType>(es),
                forall|i: int, x: PriorityItem<P, T, H>|
                    0 <= i < es.len() && #[trigger] q@.to_multiset().contains(x)
                        ==> (#[trigger] es[i]).leq_spec(x),
                out@ == es.map_values(|e: PriorityItem<P, T, H>| (e.priority, e.item)),
            ensures
                es.to_multiset() == orig.to_multiset(),
                extraction_ordered::<PriorityItem<P, T, H>, MinHeapType>(es),
                out@ == es.map_values(|e: PriorityItem<P, T, H>| (e.priority, e.item)),
            decreases q@.len(),
        {
            let ghost pre = q@;
            let ghost espre = es;
            match q.heap.pop() {
                Some(e) => {
                    proof {
                        lemma_subrange_indices(pre, q@, q.counter as int);
                        es = es.push(e);
                        assert(pre.to_multiset().contains(e));
                        assert(es.to_multiset().add(q@.to_multiset()) =~= orig.to_multiset());
                        assert forall|i: int, j: int| 0 <= i <= j < es.len() implies above::<
                            PriorityItem<P, T, H>,
                            MinHeapType,
                        >(#[trigger] es[i], #[trigger] es[j]) by {
                            if j == es.len() - 1 && i < j {
                                assert(espre[i].leq_spec(e));
                            } else if j == es.len() - 1 {
                                PriorityItem::<P, T, H>::lemma_connex(e, e);
                                assert(above::<PriorityItem<P, T, H>, MinHeapType>(e, e));
                            }
                        }
                        assert forall|i: int, x: PriorityItem<P, T, H>|
                            0 <= i < es.len() && #[trigger] q@.to_multiset().contains(x) implies
                            (#[trigger] es[i]).leq_spec(x) by {
                            assert(pre.to_multiset().contains(x));
                            assert(above::<PriorityItem<P, T, H>, MinHeapType>(e, x));
                        }
                    }
                    let pair = (e.priority, e.item);
                    out.push(pair);
                    proof {
                        assert(out@ =~= es.map_values(
                            |x: PriorityItem<P, T, H>| (x.priority, x.item),
                        ));
                    }
                },
                None => {
                    proof {
                        assert(es.to_multiset() =~= orig.to_multiset());
                    }
                    break ;
                },
            }
        }
        out
    }

    /// Keeps only the entries accepted by the predicate on priority and
    /// payload, by draining and reinserting matches; sequence numbers are
    /// not reassigned, so relative insertion order among kept entries is
    /// preserved.
    pub fn retain<F: Fn(&P, &T) -> bool>(&mut self, f: F)
        requires
            old(self).wf(),
            forall|p: &P, t: &T| #[trigger] call_requires(f, (p, t)),
        ensures
            final(self).wf(),
            final(self).next_index() == old(self).next_index(),
            forall|e: PriorityItem<P, T, H>|
                #[trigger] final(self)@.to_multiset().count(e) <= old(self)@.to_multiset().count(
                    e,
                ),
            forall|e: PriorityItem<P, T, H>|
                #[trigger] final(self)@.to_multiset().count(e) > 0 ==> call_ensures(
                    f,
                    (&e.priority, &e.item),
                    true,
                ),
            forall|e: PriorityItem<P, T, H>|
                old(self)@.to_multiset().count(e) > #[trigger] final(self)@.to_multiset().count(
                    e,
                ) ==> call_ensures(f, (&e.priority, &e.item), false),
    {
        let ghost orig = old(self)@.to_multiset();
        let ghost c = self.counter as int;
        let mut items = self.heap.drain();
        loop
            invariant
                self.heap.wf(),
                self.counter as int == c,
                forall|p: &P, t: &T| #[trigger] call_requires(f, (p, t)),
                forall|e: PriorityItem<P, T, H>|
                    #[trigger] self@.to_multiset().count(e) + items@.to_multiset().count(e)
                        <= orig.count(e),
                forall|e: PriorityItem<P, T, H>|
                    #[trigger] self@.to_multiset().count(e) > 0 ==> call_ensures(
                        f,
                        (&e.priority, &e.item),
                        true,
                    ),
                forall|e: PriorityItem<P, T, H>|
                    orig.count(e) > #[trigger] self@.to_multiset().count(e)
                        + items@.to_multiset().count(e) ==> call_ensures(
                        f,
                        (&e.priority, &e.item),
                        false,
                    ),
            ensures
                self.heap.wf(),
                self.counter as int == c,
                forall|e: PriorityItem<P, T, H>|
                    #[trigger] self@.to_multiset().count(e) <= orig.count(e),
                forall|e: PriorityItem<P, T, H>|
                    #[trigger] self@.to_multiset().count(e) > 0 ==> call_ensures(
                        f,
                        (&e.priority, &e.item),
                        true,
                    ),
                forall|e: PriorityItem<P, T, H>|
                    orig.count(e) > #[trigger] self@.to_multiset().count(e) ==> call_ensures(
                        f,
                        (&e.priority, &e.item),
                        false,
                    ),
            decreases items@.len(),
        {
            let ghost pre = items@;
            match items.pop() {
                Some(e) => {
                    proof {
                        vstd::seq_lib::to_multiset_remove(pre, pre.len() - 1);
                        assert(pre.to_multiset().contains(e));
                    }
                    if f(&e.priority, &e.item) {
                        let ghost selfpre = self@;
                        self.heap.push(e);
                        proof {
                            assert(self@.to_multiset() == selfpre.to_multiset().insert(e));
                            assert forall|y: PriorityItem<P, T, H>|
                                #[trigger] self@.to_multiset().count(y) + items@.to_multiset().count(
                                y,
                            ) <= orig.count(y) by {
                                assert(items@.to_multiset() =~= pre.to_multiset().remove(e));
                            }
                        }
                    } else {
                        proof {
                            assert forall|y: PriorityItem<P, T, H>|
                                #[trigger] self@.to_multiset().count(y) + items@.to_multiset().count(
                                y,
                            ) <= orig.count(y) by {
                                assert(items@.to_multiset() =~= pre.to_multiset().remove(e));
                            }
                        }
                    }
                },
                None => {
                    proof {
                        assert(items@ =~= Seq::<PriorityItem<P, T, H>>::empty());
                        assert(items@.to_multiset() =~= Multiset::<
                            PriorityItem<P, T, H>,
                        >::empty());
                    }
                    break ;
                },
            }
        }
        proof {
            lemma_subrange_indices(old(self)@, self@, c);
        }
    }

    /// Builds a queue by pushing each (priority, payload) pair in order,
    /// so earlier pairs receive smaller sequence numbers.
    pub fn from_pairs(pairs: Vec<(P, T)>) -> (r: Self)
        ensures
            r.wf(),
            r@.len() == pairs@.len(),
            r.next_index() == pairs@.len(),
            forall|k: int|
                0 <= k < pairs@.len() ==> r@.to_multiset().contains(
                    (PriorityItem {
                        priority: (#[trigger] pairs@[k]).0,
                        item: pairs@[k].1,
                        index: k as usize,
                        _marker: PhantomData,
                    }),
                ),
    {
        let ghost orig = pairs@;
        proof {
            vstd::std_specs::vec::axiom_spec_len(&pairs);
        }
        let mut pairs = pairs;
        let mut r = Self::new();
        loop
            invariant
                r.wf(),
                orig.len() <= usize::MAX,
                r.next_index() + pairs@.len() == orig.len(),
                r@.len() == r.next_index(),
                pairs@ == orig.skip(r.next_index()),
                forall|k: int|
                    0 <= k < r.next_index() ==> r@.to_multiset().contains(
                        (PriorityItem {
                            priority: (#[trigger] orig[k]).0,
                            item: orig[k].1,
                            index: k as usize,
                            _marker: PhantomData,
                        }),
                    ),
            ensures
                r.wf(),
                r@.len() == orig.len(),
                r.next_index() == orig.len(),
                forall|k: int|
                    0 <= k < orig.len() ==> r@.to_multiset().contains(
                        (PriorityItem {
                            priority: (#[trigger] orig[k]).0,
                            item: orig[k].1,
                            index: k as usize,
                            _marker: PhantomData,
                        }),
                    ),
            decreases pairs@.len(),
        {
            if pairs.len() == 0 {
                proof {
                    assert(pairs@ =~= Seq::<(P, T)>::empty());
                }
                break ;
            }
            let ghost pre = r@;
            let ghost k0 = r.next_index();
            let pair = pairs.remove(0);
            proof {
                assert(pair == orig[k0]);
            }
            let (p, tv) = pair;
            r.push(tv, p);
            proof {
                assert(pairs@ =~= orig.skip(r.next_index()));
                assert forall|k: int| 0 <= k < r.next_index() implies r@.to_multiset().contains(
                    (PriorityItem {
                        priority: (#[trigger] orig[k]).0,
                        item: orig[k].1,
                        index: k as usize,
                        _marker: PhantomData,
                    }),
                ) by {
                    let e = (PriorityItem {
                        priority: orig[k].0,
                        item: orig[k].1,
                        index: k as usize,
                        _marker: PhantomData,
                    });
                    if k < k0 {
                        assert(pre.to_multiset().contains(e));
                    }
                }
            }
        }
        r
    }

    /// Empties the queue and restarts the sequence counter from zero.
    pub fn clear(&mut self)
        ensures
            final(self)@ == Seq::<PriorityItem<P, T, H>>::empty(),
            final(self).wf(),
            final(self).next_index() == 0,
    {
        self.heap.clear();
        self.counter = 0;
    }
}

/// In a well-shaped queue the first entry ranks no later than any stored
/// entry.
proof fn lemma_top_is_best<P, T, H>(s: Seq<PriorityItem<P, T, H>>)
    where P: TotalOrder, H: HeapType
    requires
        crate::heaps::heap::heap_shape::<PriorityItem<P, T, H>, MinHeapType>(s),
        s.len() > 0,
    ensures
        forall|x: PriorityItem<P, T, H>| s.to_multiset().contains(x) ==> s[0].leq_spec(x),
{
    assert forall|x: PriorityItem<P, T, H>| s.to_multiset().contains(x) implies s[0].leq_spec(
        x,
    ) by {
        assert(s.contains(x));
        let i = choose|i: int| 0 <= i < s.len() && s[i] == x;
        crate::heaps::heap::lemma_root_best::<PriorityItem<P, T, H>, MinHeapType>(s, i);
    }
}

/// Removing elements from a sequence keeps every stored index property.
proof fn lemma_subrange_indices<P, T, H>(
    pre: Seq<PriorityItem<P, T, H>>,
    post: Seq<PriorityItem<P, T, H>>,
    counter: int,
)
    where P: TotalOrder, H: HeapType
    requires
        forall|i: int| 0 <= i < pre.len() ==> #[trigger] pre[i].index < counter,
        forall|i: int, j: int|
            0 <= i < j < pre.len() ==> #[trigger] pre[i].index != #[trigger] pre[j].index,
        forall|x: PriorityItem<P, T, H>|
            #[trigger] post.to_multiset().count(x) <= pre.to_multiset().count(x),
    ensures
        forall|i: int| 0 <= i < post.len() ==> #[trigger] post[i].index < counter,
        forall|i: int, j: int|
            0 <= i < j < post.len() ==> #[trigger] post[i].index != #[trigger] post[j].index,
{
    assert forall|i: int| 0 <= i < post.len() implies #[trigger] post[i].index < counter by {
        assert(post.to_multiset().contains(post[i]));
        assert(pre.to_multiset().contains(post[i]));
        let k = choose|k: int| 0 <= k < pre.len() && pre[k] == post[i];
    }
    assert forall|i: int, j: int| 0 <= i < j < post.len() implies #[trigger] post[i].index
        != #[trigger] post[j].index by {
        lemma_count_distinct_pair(pre, post, i, j);
    }
}

/// Distinct sequence numbers survive any removal: two slots of the new
/// sequence cannot share an index when the old sequence had all indices
/// distinct.
proof fn lemma_count_distinct_pair<P, T, H>(
    pre: Seq<PriorityItem<P, T, H>>,
    post: Seq<PriorityItem<P, T, H>>,
    i: int,
    j: int,
)
    where P: TotalOrder, H: HeapType
    requires
        forall|a: int, b: int|
            0 <= a < b < pre.len() ==> #[trigger] pre[a].index != #[trigger] pre[b].index,
        forall|x: PriorityItem<P, T, H>|
            #[trigger] post.to_multiset().count(x) <= pre.to_multiset().count(x),
        0 <= i < j < post.len(),
    ensures
        post[i].index != post[j].index,
{
    if post[i].index == post[j].index {
        if post[i] == post[j] {
            // the same entry would have to occur twice in the old sequence
            lemma_dup_count(post, i, j);
            assert(pre.to_multiset().count(post[i]) >= 2);
            lemma_unique_occurrence(pre, post[i]);
        } else {
            assert(post.to_multiset().contains(post[i]));
            assert(pre.to_multiset().contains(post[i]));
            assert(post.to_multiset().contains(post[j]));
            assert(pre.to_multiset().contains(post[j]));
            let a = choose|a: int| 0 <= a < pre.len() && pre[a] == post[i];
            let b = choose|b: int| 0 <= b < pre.len() && pre[b] == post[j];
            assert(a != b);
            if a < b {
                assert(pre[a].index != pre[b].index);
            } else {
                assert(pre[b].index != pre[a].index);
            }
        }
    }
}

/// Appending an entry carrying the next sequence number keeps the
/// stored numbers pairwise distinct and bounded by the new counter.
proof fn lemma_push_distinct<P, T, H>(
    pre: Seq<PriorityItem<P, T, H>>,
    post: Seq<PriorityItem<P, T, H>>,
    entry: PriorityItem<P, T, H>,
    c: int,
)
    where P: TotalOrder, H: HeapType
    requires
        forall|i: int| 0 <= i < pre.len() ==> #[trigger] pre[i].index < c,
        forall|i: int, j: int|
            0 <= i < j < pre.len() ==> #[trigger] pre[i].index != #[trigger] pre[j].index,
        entry.index == c,
        post.to_multiset() == pre.to_multiset().insert(entry),
    ensures
        forall|i: int| 0 <= i < post.len() ==> #[trigger] post[i].index < c + 1,
        forall|i: int, j: int|
            0 <= i < j < post.len() ==> #[trigger] post[i].index != #[trigger] post[j].index,
{
    assert forall|i: int| 0 <= i < post.len() implies #[trigger] post[i].index < c + 1 by {
        assert(post.to_multiset().contains(post[i]));
        if post[i] != entry {
            assert(pre.to_multiset().contains(post[i]));
            let k = choose|k: int| 0 <= k < pre.len() && pre[k] == post[i];
        }
    }
    assert forall|i: int, j: int| 0 <= i < j < post.len() implies #[trigger] post[i].index
        != #[trigger] post[j].index by {
        let x = post[i];
        let y = post[j];
        if x.index == y.index {
            assert(post.to_multiset().contains(x));
            assert(post.to_multiset().contains(y));
            if x == y {
                lemma_dup_count(post, i, j);
                if x == entry {
                    assert(pre.to_multiset().count(entry) >= 1);
                    assert(pre.to_multiset().contains(entry));
                    let k = choose|k: int| 0 <= k < pre.len() && pre[k] == entry;
                    assert(pre[k].index < c);
                } else {
                    assert(pre.to_multiset().count(x) >= 2);
                    lemma_unique_occurrence(pre, x);
                }
            } else {
                if x == entry {
                    assert(pre.to_multiset().contains(y));
                    let k = choose|k: int| 0 <= k < pre.len() && pre[k] == y;
                    assert(pre[k].index < c);
                } else if y == entry {
                    assert(pre.to_multiset().contains(x));
                    let k = choose|k: int| 0 <= k < pre.len() && pre[k] == x;
                    assert(pre[k].index < c);
                } else {
                    assert(pre.to_multiset().contains(x));
                    assert(pre.to_multiset().contains(y));
                    let a = choose|a: int| 0 <= a < pre.len() && pre[a] == x;
                    let b = choose|b: int| 0 <= b < pre.len() && pre[b] == y;
                    assert(a != b);
                    if a < b {
                        assert(pre[a].index != pre[b].index);
                    } else {
                        assert(pre[b].index != pre[a].index);
                    }
                }
            }
        }
    }
}

/// A value sitting in two distinct slots counts at least twice in the
/// multiset of the sequence.
proof fn lemma_dup_count<A>(s: Seq<A>, i: int, j: int)
    requires
        0 <= i < j < s.len(),
        s[i] == s[j],
    ensures
        s.to_multiset().count(s[i]) >= 2,
{
    let without = s.remove(j);
    vstd::seq_lib::to_multiset_remove(s, j);
    assert(forall|k: int| 0 <= k < j ==> #[trigger] without[k] == s[k]);
    assert(without[i] == s[i]);
    assert(without.to_multiset().contains(without[i]));
    assert(without.to_multiset().count(s[i]) >= 1);
    assert(s.to_multiset().count(s[i]) == without.to_multiset().count(s[i]) + 1);
}

/// With pairwise-distinct sequence numbers, no entry occupies two slots:
/// every value counts at most once.
proof fn lemma_unique_occurrence<P, T, H>(pre: Seq<PriorityItem<P, T, H>>, x: PriorityItem<P, T, H>)
    where P: TotalOrder, H: HeapType
    requires
        forall|a: int, b: int|
            0 <= a < b < pre.len() ==> #[trigger] pre[a].index != #[trigger] pre[b].index,
    ensures
        pre.to_multiset().count(x) <= 1,
{
    if pre.to_multiset().count(x) >= 2 {
        assert(pre.to_multiset().contains(x));
        let a = choose|a: int| 0 <= a < pre.len() && pre[a] == x;
        let without = pre.remove(a);
        vstd::seq_lib::to_multiset_remove(pre, a);
        assert(without.to_multiset().count(x) >= 1);
        assert(without.to_multiset().contains(x));
        assert(without.contains(x));
        let b0 = choose|b0: int| 0 <= b0 < without.len() && without[b0] == x;
        let b = if b0 < a { b0 } else { b0 + 1 };
        assert(pre[b] == x);
        assert(a != b);
        if a < b {
            assert(pre[a].index != pre[b].index);
        } else {
            assert(pre[b].index != pre[a].index);
        }
    }
}

} // verus!
