//! A priority queue: a binary heap in a vector, ordered by a `Min` or `Max`
//! policy.

use vstd::prelude::*;
use crate::heap_spec::{
    after_insert, after_pop, heap_ordered, left, lemma_after_insert, lemma_after_pop,
    lemma_root_is_extremal, lemma_swapped_permutes, parent, preferred_child, right, sift_down,
    sift_up, swapped,
};
use crate::order::{comparable, lawful, lemma_lawful_comparable, prefers, HeapType};

verus! {

/// A binary heap. Its view is the backing sequence: the element at index `i`
/// has its children at `2i + 1` and `2i + 2`.
pub struct BinaryHeap<T> {
    /// The ordering policy.
    pub heap_type: HeapType,
    heap: Vec<T>,
}

/// The two children of a position.
#[derive(Clone, Copy, Debug, PartialEq, Eq, Structural)]
pub enum ChildSide {
    Left,
    Right,
}

/// The two directions in which an element is moved to repair the order.
#[derive(Clone, Copy, Debug, PartialEq, Eq, Structural)]
enum PercolateDirection {
    Up,
    Down,
}

impl<T> View for BinaryHeap<T> {
    type V = Seq<T>;

    closed spec fn view(&self) -> Seq<T> {
        self.heap@
    }
}

/// Exchanges the elements at `lo` and `hi`.
fn swap_entries<T>(v: &mut Vec<T>, lo: usize, hi: usize)
    requires
        lo < hi < old(v).len(),
    ensures
        final(v)@ == swapped(old(v)@, lo as int, hi as int),
{
    let (front, back) = v.split_at_mut(hi);
    core::mem::swap(&mut front[lo], &mut back[0]);
}

impl<T> BinaryHeap<T> where T: PartialOrd + Clone {
    /// The ordering policy, as contracts see it.
    pub closed spec fn policy(&self) -> HeapType {
        self.heap_type
    }

    /// No element is strictly preferred over its parent.
    pub open spec fn is_heap(&self) -> bool {
        heap_ordered(self@, self.policy())
    }

    /// An empty queue that keeps its least element on top.
    pub fn default() -> (h: Self)
        ensures
            h@ == Seq::<T>::empty(),
            h.policy() == HeapType::Min,
            h.is_heap(),
    {
        BinaryHeap { heap: Vec::new(), heap_type: HeapType::Min }
    }

    /// An empty queue with the given policy.
    pub fn new(heap_type: HeapType) -> (h: Self)
        ensures
            h@ == Seq::<T>::empty(),
            h.policy() == heap_type,
            h.is_heap(),
    {
        BinaryHeap { heap: Vec::new(), heap_type }
    }

    /// The number of elements.
    pub fn size(&self) -> (n: usize)
        ensures
            n == self@.len(),
    {
        self.heap.len()
    }

    /// The root, if there is one. In a heap of a lawfully ordered type no
    /// element of the queue is strictly preferred over it.
    pub fn peek(&self) -> (top: Option<&T>)
        ensures
            self@.len() == 0 ==> top is None,
            self@.len() > 0 ==> top == Some(&self@[0]),
            lawful::<T>(self.policy()) && self.is_heap() ==> forall|i: int|
                0 <= i < self@.len() ==> !prefers(self.policy(), #[trigger] self@[i], self@[0]),
    {
        proof {
            if lawful::<T>(self.heap_type) && self.is_heap() {
                assert forall|i: int| 0 <= i < self@.len() implies !prefers(
                    self.heap_type,
                    #[trigger] self@[i],
                    self@[0],
                ) by {
                    lemma_root_is_extremal(self@, self.heap_type, i);
                }
            }
        }
        if self.heap.len() == 0 {
            None
        } else {
            Some(&self.heap[0])
        }
    }

    /// A queue with the same policy whose elements are clones of this one's,
    /// position by position.
    pub fn clone(&self) -> (c: Self)
        ensures
            c.policy() == self.policy(),
            c@.len() == self@.len(),
            forall|i: int| 0 <= i < self@.len() ==> cloned::<T>(#[trigger] self@[i], c@[i]),
    {
        BinaryHeap { heap: self.heap.clone(), heap_type: self.heap_type }
    }

    /// The position above `i`; the root has none.
    pub fn parent_index(&self, i: usize) -> (p: Option<usize>)
        ensures
            i == 0 ==> p is None,
            i > 0 ==> p == Some(parent(i as int) as usize),
    {
        if i == 0 {
            None
        } else if i % 2 == 1 {
            Some(i / 2)
        } else {
            Some(i / 2 - 1)
        }
    }

    /// The position of a child of `i`.
    pub fn child_index(&self, i: usize, side: ChildSide) -> (c: usize)
        requires
            side == ChildSide::Left ==> left(i as int) <= usize::MAX,
            side == ChildSide::Right ==> right(i as int) <= usize::MAX,
        ensures
            side == ChildSide::Left ==> c == left(i as int),
            side == ChildSide::Right ==> c == right(i as int),
    {
        match side {
            ChildSide::Left => (i * 2) + 1,
            ChildSide::Right => (i * 2) + 2,
        }
    }

    /// Whether `c` is strictly preferred over `o` under the queue's policy.
    fn comp(&self, c: &T, o: &T) -> (r: bool)
        ensures
            comparable::<T>() ==> r == prefers(self.policy(), *c, *o),
    {
        match self.heap_type {
            HeapType::Min => c < o,
            HeapType::Max => c > o,
        }
    }

    /// Repairs the order in the given direction: upwards from the last
    /// position, or downwards from the root.
    fn percolate(&mut self, direction: PercolateDirection)
        requires
            direction == PercolateDirection::Up ==> old(self)@.len() > 0,
        ensures
            final(self).policy() == old(self).policy(),
            final(self)@.len() == old(self)@.len(),
            final(self)@.to_multiset() == old(self)@.to_multiset(),
            comparable::<T>() ==> final(self)@ == (match direction {
                PercolateDirection::Up => sift_up(
                    old(self)@,
                    old(self)@.len() - 1,
                    old(self).policy(),
                ),
                PercolateDirection::Down => sift_down(old(self)@, 0, old(self).policy()),
            }),
    {
        match direction {
            PercolateDirection::Down => self.percolate_down(),
            PercolateDirection::Up => self.percolate_up(),
        }
    }

    /// Sinks the root: while its preferred child beats it, the two are
    /// exchanged.
    fn percolate_down(&mut self)
        ensures
            final(self).policy() == old(self).policy(),
            final(self)@.len() == old(self)@.len(),
            final(self)@.to_multiset() == old(self)@.to_multiset(),
            comparable::<T>() ==> final(self)@ == sift_down(old(self)@, 0, old(self).policy()),
    {
        let mut i: usize = 0;
        loop
            invariant
                self.heap_type == old(self).policy(),
                self@.len() == old(self)@.len(),
                self@.to_multiset() == old(self)@.to_multiset(),
                comparable::<T>() ==> sift_down(self@, i as int, self.heap_type) == sift_down(
                    old(self)@,
                    0,
                    old(self).policy(),
                ),
            ensures
                comparable::<T>() ==> self@ == sift_down(old(self)@, 0, old(self).policy()),
            decreases self@.len() - i,
        {
            let better = match self.get_child(i) {
                Some((child_index, child)) => {
                    if self.comp(child, &self.heap[i]) {
                        Some(child_index)
                    } else {
                        None
                    }
                },
                None => None,
            };
            match better {
                Some(child_index) => {
                    proof {
                        lemma_swapped_permutes(self@, i as int, child_index as int);
                    }
                    swap_entries(&mut self.heap, i, child_index);
                    i = child_index;
                },
                None => {
                    break ;
                },
            }
        }
    }

    /// The child of `i` that the policy prefers, with its position.
    fn get_child(&self, i: usize) -> (r: Option<(usize, &T)>)
        ensures
            r is None <==> left(i as int) >= self@.len(),
            r matches Some((c, x)) ==> c < self@.len() && (c == left(i as int) || c == right(
                i as int,
            )) && *x == self@[c as int],
            comparable::<T>() ==> (r matches Some((c, x)) ==> preferred_child(
                self@,
                i as int,
                self.policy(),
            ) == Some(c as int)),
    {
        if i >= self.heap.len() / 2 {
            return None;
        }
        let (left_index, right_index) = (
            self.child_index(i, ChildSide::Left),
            self.child_index(i, ChildSide::Right),
        );
        if right_index >= self.heap.len() {
            Some((left_index, &self.heap[left_index]))
        } else if self.comp(&self.heap[left_index], &self.heap[right_index]) {
            Some((left_index, &self.heap[left_index]))
        } else {
            Some((right_index, &self.heap[right_index]))
        }
    }

    /// Lifts the last element: while it beats its parent, the two are
    /// exchanged.
    fn percolate_up(&mut self)
        requires
            old(self)@.len() > 0,
        ensures
            final(self).policy() == old(self).policy(),
            final(self)@.len() == old(self)@.len(),
            final(self)@.to_multiset() == old(self)@.to_multiset(),
            comparable::<T>() ==> final(self)@ == sift_up(
                old(self)@,
                old(self)@.len() - 1,
                old(self).policy(),
            ),
    {
        let mut i: usize = self.heap.len() - 1;
        loop
            invariant
                i < self@.len(),
                self.heap_type == old(self).policy(),
                self@.len() == old(self)@.len(),
                self@.to_multiset() == old(self)@.to_multiset(),
                comparable::<T>() ==> sift_up(self@, i as int, self.heap_type) == sift_up(
                    old(self)@,
                    old(self)@.len() - 1,
                    old(self).policy(),
                ),
            ensures
                comparable::<T>() ==> self@ == sift_up(
                    old(self)@,
                    old(self)@.len() - 1,
                    old(self).policy(),
                ),
            decreases i,
        {
            match self.parent_index(i) {
                Some(parent_index) => {
                    if self.comp(&self.heap[i], &self.heap[parent_index]) {
                        proof {
                            lemma_swapped_permutes(self@, parent_index as int, i as int);
                        }
                        swap_entries(&mut self.heap, parent_index, i);
                        i = parent_index;
                    } else {
                        break ;
                    }
                },
                None => {
                    break ;
                },
            }
        }
    }

    /// Adds `item`: it is appended and percolates up.
    pub fn insert(&mut self, item: T)
        ensures
            final(self).policy() == old(self).policy(),
            final(self)@.len() == old(self)@.len() + 1,
            final(self)@.to_multiset() == old(self)@.to_multiset().insert(item),
            comparable::<T>() ==> final(self)@ == after_insert(
                old(self)@,
                item,
                old(self).policy(),
            ),
            lawful::<T>(old(self).policy()) && old(self).is_heap() ==> final(self).is_heap(),
    {
        proof {
            lemma_after_insert(self@, item, self.heap_type);
            if lawful::<T>(self.heap_type) {
                lemma_lawful_comparable::<T>(self.heap_type);
            }
            vstd::seq_lib::to_multiset_build(self@, item);
        }
        self.heap.push(item);
        self.percolate(PercolateDirection::Up)
    }

    /// Takes the root out, if there is one: the last element moves to the
    /// root and percolates down. In a heap of a lawfully ordered type no
    /// element of the queue was strictly preferred over the one returned, and
    /// none that stays is.
    pub fn pop(&mut self) -> (top: Option<T>)
        ensures
            final(self).policy() == old(self).policy(),
            old(self)@.len() == 0 ==> top is None && final(self)@ == old(self)@,
            old(self)@.len() > 0 ==> top == Some(old(self)@[0]) && final(self)@.len() == old(
                self,
            )@.len() - 1 && final(self)@.to_multiset() == old(self)@.to_multiset().remove(
                old(self)@[0],
            ),
            comparable::<T>() ==> final(self)@ == after_pop(old(self)@, old(self).policy()),
            lawful::<T>(old(self).policy()) && old(self).is_heap() ==> final(self).is_heap()
                && forall|i: int|
                0 <= i < old(self)@.len() ==> !prefers(
                    old(self).policy(),
                    #[trigger] old(self)@[i],
                    old(self)@[0],
                ),
            lawful::<T>(old(self).policy()) && old(self).is_heap() ==> forall|i: int|
                0 <= i < final(self)@.len() ==> !prefers(
                    old(self).policy(),
                    #[trigger] final(self)@[i],
                    old(self)@[0],
                ),
    {
        match self.heap.len() {
            0 => None,
            _ => {
                proof {
                    lemma_after_pop(self@, self.heap_type);
                    if lawful::<T>(self.heap_type) {
                        lemma_lawful_comparable::<T>(self.heap_type);
                        if self.is_heap() {
                            assert forall|i: int| 0 <= i < self@.len() implies !prefers(
                                self.heap_type,
                                #[trigger] self@[i],
                                self@[0],
                            ) by {
                                lemma_root_is_extremal(self@, self.heap_type, i);
                            }
                        }
                    }
                    vstd::seq_lib::to_multiset_update(self@, 0, self@.last());
                    vstd::seq_lib::to_multiset_remove(
                        self@.update(0, self@.last()),
                        self@.len() - 1,
                    );
                }
                let popped = self.heap.swap_remove(0);
                self.percolate(PercolateDirection::Down);
                proof {
                    if lawful::<T>(self.policy()) && old(self).is_heap() {
                        assert forall|i: int| 0 <= i < self@.len() implies !prefers(
                            self.policy(),
                            #[trigger] self@[i],
                            old(self)@[0],
                        ) by {
                            self@.to_multiset_ensures();
                            old(self)@.to_multiset_ensures();
                            assert(self@.contains(self@[i]));
                            assert(self@.to_multiset() == old(self)@.to_multiset().remove(
                                old(self)@[0],
                            ));
                            assert(self@.to_multiset().count(self@[i]) > 0);
                            assert(old(self)@.to_multiset().count(self@[i]) > 0);
                            let k = choose|k: int|
                                0 <= k < old(self)@.len() && old(self)@[k] == self@[i];
                            lemma_root_is_extremal(old(self)@, self.policy(), k);
                        }
                    }
                }
                Some(popped)
            },
        }
    }
}

} // verus!
