//! The mathematical model of the binary heap: the backing sequence read as a
//! complete binary tree, the two percolations as functions on sequences, and
//! the facts about them that the queue's contracts rest on.

use vstd::prelude::*;
use vstd::seq_lib::*;
use crate::order::{
    lawful, lemma_asymmetric, lemma_beaten_by_better, lemma_chained, lemma_transitive, prefers,
    HeapType,
};

verus! {

/// Index of the parent of position `i` (for `i > 0`).
pub open spec fn parent(i: int) -> int {
    (i - 1) / 2
}

/// Index of the left child of position `i`.
pub open spec fn left(i: int) -> int {
    2 * i + 1
}

/// Index of the right child of position `i`.
pub open spec fn right(i: int) -> int {
    2 * i + 2
}

/// No element is strictly preferred over its parent.
pub open spec fn heap_ordered<T: PartialOrd>(s: Seq<T>, policy: HeapType) -> bool {
    forall|i: int| 0 < i < s.len() ==> !prefers(policy, #[trigger] s[i], s[parent(i)])
}

/// `s` with the elements at `i` and `j` exchanged.
pub open spec fn swapped<T>(s: Seq<T>, i: int, j: int) -> Seq<T> {
    s.update(i, s[j]).update(j, s[i])
}

/// Percolation upwards from position `i`: while the element is strictly
/// preferred over its parent the two are exchanged; it stops at the root or
/// at the first parent that it does not beat.
pub open spec fn sift_up<T: PartialOrd>(s: Seq<T>, i: int, policy: HeapType) -> Seq<T>
    decreases i,
{
    if 0 < i < s.len() && prefers(policy, s[i], s[parent(i)]) {
        sift_up(swapped(s, parent(i), i), parent(i), policy)
    } else {
        s
    }
}

/// The child of position `i` that the policy prefers: the only child where
/// there is one, the left one where it strictly beats the right one, else the
/// right one. `None` where `i` has no child.
pub open spec fn preferred_child<T: PartialOrd>(s: Seq<T>, i: int, policy: HeapType) -> Option<
    int,
> {
    if left(i) >= s.len() {
        None
    } else if right(i) >= s.len() {
        Some(left(i))
    } else if prefers(policy, s[left(i)], s[right(i)]) {
        Some(left(i))
    } else {
        Some(right(i))
    }
}

/// Percolation downwards from position `i`: while the preferred child
/// strictly beats the element the two are exchanged; it stops where there is
/// no child or the preferred child does not beat it.
pub open spec fn sift_down<T: PartialOrd>(s: Seq<T>, i: int, policy: HeapType) -> Seq<T>
    decreases s.len() - i,
{
    if 0 <= i {
        match preferred_child(s, i, policy) {
            Some(c) => {
                if prefers(policy, s[c], s[i]) {
                    sift_down(swapped(s, i, c), c, policy)
                } else {
                    s
                }
            },
            None => s,
        }
    } else {
        s
    }
}

/// The backing sequence after `x` has been inserted into `s`.
pub open spec fn after_insert<T: PartialOrd>(s: Seq<T>, x: T, policy: HeapType) -> Seq<T> {
    sift_up(s.push(x), s.len() as int, policy)
}

/// The backing sequence after the root has been taken out of `s`: the last
/// element moves to the root and percolates down. An empty `s` stays empty.
pub open spec fn after_pop<T: PartialOrd>(s: Seq<T>, policy: HeapType) -> Seq<T> {
    if s.len() == 0 {
        s
    } else {
        sift_down(s.update(0, s.last()).drop_last(), 0, policy)
    }
}

/// Heap order holds everywhere but between position `i` and its parent, and
/// the children of `i` do not beat the parent of `i`: the state while an
/// element climbs.
pub open spec fn ordered_but_above<T: PartialOrd>(s: Seq<T>, i: int, policy: HeapType) -> bool {
    &&& forall|j: int| 0 < j < s.len() && j != i ==> !prefers(policy, #[trigger] s[j], s[parent(j)])
    &&& forall|j: int|
        0 < j < s.len() && parent(j) == i && i > 0 ==> !prefers(
            policy,
            #[trigger] s[j],
            s[parent(i)],
        )
}

/// Heap order holds everywhere but between position `i` and its children, and
/// the children of `i` do not beat the parent of `i`: the state while an
/// element sinks.
pub open spec fn ordered_but_below<T: PartialOrd>(s: Seq<T>, i: int, policy: HeapType) -> bool {
    &&& forall|j: int|
        0 < j < s.len() && parent(j) != i ==> !prefers(policy, #[trigger] s[j], s[parent(j)])
    &&& forall|j: int|
        0 < j < s.len() && parent(j) == i && i > 0 ==> !prefers(
            policy,
            #[trigger] s[j],
            s[parent(i)],
        )
}

/// Exchanging two elements keeps the multiset of elements.
pub proof fn lemma_swapped_permutes<T>(s: Seq<T>, i: int, j: int)
    requires
        0 <= i < s.len(),
        0 <= j < s.len(),
    ensures
        swapped(s, i, j).len() == s.len(),
        swapped(s, i, j).to_multiset() == s.to_multiset(),
{
    broadcast use group_to_multiset_ensures;

    let t = s.update(i, s[j]);
    assert(t.to_multiset() == s.to_multiset().insert(s[j]).remove(s[i]));
    assert(swapped(s, i, j).to_multiset() == t.to_multiset().insert(s[i]).remove(t[j]));
    assert(s.to_multiset().count(s[i]) > 0);
    assert(s.to_multiset().count(s[j]) > 0);
    assert(swapped(s, i, j).to_multiset() =~= s.to_multiset());
}

/// Percolating up rearranges the elements and loses none.
pub proof fn lemma_sift_up_permutes<T: PartialOrd>(s: Seq<T>, i: int, policy: HeapType)
    ensures
        sift_up(s, i, policy).len() == s.len(),
        sift_up(s, i, policy).to_multiset() == s.to_multiset(),
    decreases i,
{
    if 0 < i < s.len() && prefers(policy, s[i], s[parent(i)]) {
        lemma_swapped_permutes(s, parent(i), i);
        lemma_sift_up_permutes(swapped(s, parent(i), i), parent(i), policy);
    }
}

/// Percolating down rearranges the elements and loses none.
pub proof fn lemma_sift_down_permutes<T: PartialOrd>(s: Seq<T>, i: int, policy: HeapType)
    ensures
        sift_down(s, i, policy).len() == s.len(),
        sift_down(s, i, policy).to_multiset() == s.to_multiset(),
    decreases s.len() - i,
{
    if 0 <= i {
        match preferred_child(s, i, policy) {
            Some(c) => {
                if prefers(policy, s[c], s[i]) {
                    lemma_swapped_permutes(s, i, c);
                    lemma_sift_down_permutes(swapped(s, i, c), c, policy);
                }
            },
            None => {},
        }
    }
}

/// Percolating up from the one place where heap order may fail restores it.
pub proof fn lemma_sift_up_restores<T: PartialOrd>(s: Seq<T>, i: int, policy: HeapType)
    requires
        lawful::<T>(policy),
        0 <= i < s.len(),
        ordered_but_above(s, i, policy),
    ensures
        heap_ordered(sift_up(s, i, policy), policy),
    decreases i,
{
    if 0 < i && prefers(policy, s[i], s[parent(i)]) {
        let p = parent(i);
        let t = swapped(s, p, i);
        assert forall|j: int| 0 < j < t.len() && j != p implies !prefers(
            policy,
            #[trigger] t[j],
            t[parent(j)],
        ) by {
            if j == i {
                lemma_asymmetric(policy, s[i], s[p]);
            } else if parent(j) == p {
                // the sibling of `i`: it did not beat the old parent
                assert(!prefers(policy, s[j], s[parent(j)]));
                lemma_beaten_by_better(policy, s[i], s[p], s[j]);
            } else if parent(j) == i {
                // a child of `i`, now below the old parent
                assert(!prefers(policy, s[j], s[parent(i)]));
            } else {
                assert(!prefers(policy, s[j], s[parent(j)]));
            }
        }
        assert forall|j: int| 0 < j < t.len() && parent(j) == p && p > 0 implies !prefers(
            policy,
            #[trigger] t[j],
            t[parent(p)],
        ) by {
            assert(!prefers(policy, s[p], s[parent(p)]));
            if j == i {
            } else {
                assert(!prefers(policy, s[j], s[parent(j)]));
                lemma_chained(policy, s[j], s[p], s[parent(p)]);
            }
        }
        lemma_sift_up_restores(t, p, policy);
    } else {
        assert forall|j: int| 0 < j < s.len() implies !prefers(
            policy,
            #[trigger] s[j],
            s[parent(j)],
        ) by {}
    }
}

/// Percolating down from the one place where heap order may fail restores it.
pub proof fn lemma_sift_down_restores<T: PartialOrd>(s: Seq<T>, i: int, policy: HeapType)
    requires
        lawful::<T>(policy),
        0 <= i,
        ordered_but_below(s, i, policy),
    ensures
        heap_ordered(sift_down(s, i, policy), policy),
    decreases s.len() - i,
{
    match preferred_child(s, i, policy) {
        Some(c) => {
            if prefers(policy, s[c], s[i]) {
                let t = swapped(s, i, c);
                assert forall|j: int| 0 < j < t.len() && parent(j) != c implies !prefers(
                    policy,
                    #[trigger] t[j],
                    t[parent(j)],
                ) by {
                    if j == c {
                        lemma_asymmetric(policy, s[c], s[i]);
                    } else if parent(j) == i {
                        // the other child of `i`: the preferred child was at
                        // least as good
                        if c == left(i) {
                            assert(j == right(i));
                            assert(prefers(policy, s[c], s[j]));
                            lemma_asymmetric(policy, s[c], s[j]);
                        } else {
                            assert(j == left(i));
                            assert(!prefers(policy, s[j], s[c]));
                        }
                    } else if j == i {
                        assert(!prefers(policy, s[c], s[parent(i)]));
                    } else {
                        assert(!prefers(policy, s[j], s[parent(j)]));
                    }
                }
                assert forall|j: int| 0 < j < t.len() && parent(j) == c && c > 0 implies !prefers(
                    policy,
                    #[trigger] t[j],
                    t[parent(c)],
                ) by {
                    assert(!prefers(policy, s[j], s[parent(j)]));
                }
                lemma_sift_down_restores(t, c, policy);
            } else {
                assert forall|j: int| 0 < j < s.len() implies !prefers(
                    policy,
                    #[trigger] s[j],
                    s[parent(j)],
                ) by {
                    if parent(j) == i {
                        if j == c {
                        } else if c == left(i) {
                            assert(j == right(i));
                            assert(prefers(policy, s[c], s[j]));
                            if prefers(policy, s[j], s[i]) {
                                lemma_transitive(policy, s[c], s[j], s[i]);
                            }
                        } else {
                            assert(j == left(i));
                            assert(!prefers(policy, s[j], s[c]));
                            lemma_chained(policy, s[j], s[c], s[i]);
                        }
                    }
                }
            }
        },
        None => {
            assert forall|j: int| 0 < j < s.len() implies !prefers(
                policy,
                #[trigger] s[j],
                s[parent(j)],
            ) by {}
        },
    }
}

/// In a heap-ordered sequence no element beats the root.
pub proof fn lemma_root_is_extremal<T: PartialOrd>(s: Seq<T>, policy: HeapType, i: int)
    requires
        lawful::<T>(policy),
        heap_ordered(s, policy),
        0 <= i < s.len(),
    ensures
        !prefers(policy, s[i], s[0]),
    decreases i,
{
    if i == 0 {
        if prefers(policy, s[0], s[0]) {
            lemma_asymmetric(policy, s[0], s[0]);
        }
    } else {
        lemma_root_is_extremal(s, policy, parent(i));
        lemma_chained(policy, s[i], s[parent(i)], s[0]);
    }
}

/// Inserting into a heap-ordered sequence gives a heap-ordered sequence that
/// holds one element more.
pub proof fn lemma_after_insert<T: PartialOrd>(s: Seq<T>, x: T, policy: HeapType)
    ensures
        after_insert(s, x, policy).len() == s.len() + 1,
        after_insert(s, x, policy).to_multiset() == s.to_multiset().insert(x),
        lawful::<T>(policy) && heap_ordered(s, policy) ==> heap_ordered(
            after_insert(s, x, policy),
            policy,
        ),
{
    broadcast use group_to_multiset_ensures;

    let t = s.push(x);
    lemma_sift_up_permutes(t, s.len() as int, policy);
    if lawful::<T>(policy) && heap_ordered(s, policy) {
        assert forall|j: int| 0 < j < t.len() && j != s.len() implies !prefers(
            policy,
            #[trigger] t[j],
            t[parent(j)],
        ) by {
            assert(t[j] == s[j]);
        }
        lemma_sift_up_restores(t, s.len() as int, policy);
    }
}

/// Taking the root out of a heap-ordered sequence gives a heap-ordered
/// sequence that holds the other elements.
pub proof fn lemma_after_pop<T: PartialOrd>(s: Seq<T>, policy: HeapType)
    requires
        s.len() > 0,
    ensures
        after_pop(s, policy).len() == s.len() - 1,
        after_pop(s, policy).to_multiset() == s.to_multiset().remove(s[0]),
        lawful::<T>(policy) && heap_ordered(s, policy) ==> heap_ordered(
            after_pop(s, policy),
            policy,
        ),
{
    broadcast use group_to_multiset_ensures;

    {
        let n = s.len() as int;
        let t = s.update(0, s.last()).drop_last();
        lemma_sift_down_permutes(t, 0, policy);
        assert(t.to_multiset() =~= s.to_multiset().remove(s[0])) by {
            let u = s.update(0, s.last());
            assert(u.to_multiset() == s.to_multiset().insert(s.last()).remove(s[0]));
            assert(t =~= u.remove(n - 1));
            assert(t.to_multiset() == u.to_multiset().remove(u[n - 1]));
            assert(s.to_multiset().count(s[0]) > 0);
        }
        if lawful::<T>(policy) && heap_ordered(s, policy) {
            assert forall|j: int| 0 < j < t.len() && parent(j) != 0 implies !prefers(
                policy,
                #[trigger] t[j],
                t[parent(j)],
            ) by {
                assert(t[j] == s[j]);
                assert(!prefers(policy, s[j], s[parent(j)]));
            }
            lemma_sift_down_restores(t, 0, policy);
        }
    }
}

} // verus!
