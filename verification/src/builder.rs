//! Building the Huffman tree: the two lightest trees of a forest are joined
//! until one tree is left.

use vstd::prelude::*;
use std::collections::HashMap;
use crate::forest::{
    entry_counts, forest_count, forest_weight, greedy, holds_entries, is_blank, is_entry,
    is_least, leaf, leaf_row, lemma_forest_push, lemma_forest_remove, lemma_leaf_row, weights,
};
use crate::freq::{frequencies, frequency_table, lemma_total_weight, total_weight};
use crate::heap::BinaryHeap;
use crate::node::{lemma_nodes_lawful, lemma_prefers_by_weight, HuffmanNode};
use crate::optimal::{cheapest, lemma_greedy_is_cheapest};
use crate::order::{lawful, prefers, HeapType};
use crate::sums::lemma_sum_push;
use crate::tree::{is_full, is_weighted, leaves, lemma_merged, merged};

verus! {

/// `t` is a Huffman tree for the table: a strict binary tree whose leaves
/// are the entries of the table, in which every internal node weighs what
/// its subtrees weigh together and the root what the whole table counts,
/// which greedy joining makes of the leaves, and which is a cheapest tree
/// with these leaves.
pub open spec fn huffman_tree_for(t: HuffmanNode, freqs: Map<u8, u64>) -> bool {
    &&& is_full(t)
    &&& is_weighted(t)
    &&& t.f == total_weight(freqs)
    &&& holds_entries(t, freqs)
    &&& greedy(leaf_row(freqs, 256).to_multiset(), t)
    &&& cheapest(t)
}

/// Seeds a queue with one leaf per entry of the table and joins the two
/// lightest trees until at most one is left.
fn merge_all(freqs: &HashMap<u8, u64>) -> (pq: BinaryHeap<HuffmanNode>)
    requires
        total_weight(freqs@) <= u64::MAX,
    ensures
        pq.policy() == HeapType::Min,
        pq@.len() <= 1,
        pq@.len() == 0 <==> is_blank(freqs@),
        pq@.len() == 1 ==> huffman_tree_for(pq@[0], freqs@),
{
    let mut pq: BinaryHeap<HuffmanNode> = BinaryHeap::default();
    let ghost mut forest: Seq<HuffmanNode> = Seq::empty();
    proof {
        lemma_nodes_lawful(HeapType::Min);
    }
    let mut next: usize = 0;
    while next < 256
        invariant
            next <= 256,
            pq.policy() == HeapType::Min,
            pq.is_heap(),
            forest == leaf_row(freqs@, next as int),
            pq@.to_multiset() == forest.to_multiset(),
            lawful::<HuffmanNode>(HeapType::Min),
        decreases 256 - next,
    {
        let sym = next as u8;
        match freqs.get(&sym) {
            Some(count) => {
                let node = HuffmanNode::single(Some(sym), *count);
                pq.insert(node);
                proof {
                    assert(node == leaf(sym, freqs@[sym]));
                    forest.to_multiset_ensures();
                    forest = forest.push(node);
                }
            },
            None => {},
        }
        next += 1;
    }
    let ghost start = forest.to_multiset();
    proof {
        assert forall|e: (u8, u64)| #[trigger]
            forest_count(forest, e) == if is_entry(freqs@, e) {
                1int
            } else {
                0int
            } by {
            lemma_leaf_row(freqs@, 256, e);
        }
        lemma_leaf_row(freqs@, 256, (0u8, 0u64));
        pq@.to_multiset_ensures();
        forest.to_multiset_ensures();
        assert(pq@.to_multiset().len() == forest.to_multiset().len());
        assert(pq@.len() == forest.len());
    }
    while pq.size() > 1
        invariant
            pq.policy() == HeapType::Min,
            pq.is_heap(),
            lawful::<HuffmanNode>(HeapType::Min),
            pq@.to_multiset() == forest.to_multiset(),
            pq@.len() == forest.len(),
            forall|k: int|
                0 <= k < forest.len() ==> is_full(#[trigger] forest[k]) && is_weighted(forest[k]),
            forest_weight(forest) == total_weight(freqs@),
            total_weight(freqs@) <= u64::MAX,
            forall|e: (u8, u64)| #[trigger]
                forest_count(forest, e) == if is_entry(freqs@, e) {
                    1int
                } else {
                    0int
                },
            forall|t: HuffmanNode| greedy(forest.to_multiset(), t) ==> greedy(start, t),
            forest.len() == 0 <==> is_blank(freqs@),
            start == leaf_row(freqs@, 256).to_multiset(),
        decreases pq@.len(),
    {
        let ghost before = pq@;
        let ghost whole = forest.to_multiset();
        let ghost forest0 = forest;
        let l = pq.pop().unwrap();
        let ghost mut kl: int = 0;
        proof {
            before.to_multiset_ensures();
            forest.to_multiset_ensures();
            assert(before[0] == l);
            assert(before.contains(l));
            assert(whole.count(l) > 0);
            assert(forest.contains(l));
            kl = choose|k: int| 0 <= k < forest.len() && forest[k] == l;
            assert forall|y: HuffmanNode| whole.count(y) > 0 implies l.f <= y.f by {
                assert(before.contains(y));
                let i = choose|i: int| 0 <= i < before.len() && before[i] == y;
                assert(!prefers(HeapType::Min, before[i], before[0]));
                lemma_prefers_by_weight(y, l);
            }
            assert(is_least(whole, l));
            forest = forest.remove(kl);
            assert(forest.to_multiset() == whole.remove(l));
        }
        let ghost forest1 = forest;
        let ghost others = pq@;
        let r = pq.pop().unwrap();
        let ghost mut kr: int = 0;
        proof {
            others.to_multiset_ensures();
            forest.to_multiset_ensures();
            assert(others[0] == r);
            assert(others.contains(r));
            assert(forest.to_multiset().count(r) > 0);
            assert(forest.contains(r));
            kr = choose|k: int| 0 <= k < forest.len() && forest[k] == r;
            assert forall|y: HuffmanNode| whole.remove(l).count(y) > 0 implies r.f <= y.f by {
                assert(others.contains(y));
                let i = choose|i: int| 0 <= i < others.len() && others[i] == y;
                assert(!prefers(HeapType::Min, others[i], others[0]));
                lemma_prefers_by_weight(y, r);
            }
            assert(is_least(whole.remove(l), r));
            forest = forest.remove(kr);
            assert(forest.to_multiset() == whole.remove(l).remove(r));
            lemma_forest_remove(forest0, kl, (0u8, 0u64));
            lemma_forest_remove(forest1, kr, (0u8, 0u64));
            assert(l.f + r.f <= u64::MAX);
            lemma_merged(l, r);
        }
        let ghost forest2 = forest;
        let p = HuffmanNode { f: l.f + r.f, ch: None, l: Some(Box::new(l)), r: Some(Box::new(r)) };
        assert(p == merged(l, r));
        pq.insert(p);
        proof {
            forest.to_multiset_ensures();
            forest = forest.push(p);
            forest.to_multiset_ensures();
            pq@.to_multiset_ensures();
            assert(forest.to_multiset() == whole.remove(l).remove(r).insert(merged(l, r)));
            assert forall|e: (u8, u64)| #[trigger]
                forest_count(forest, e) == if is_entry(freqs@, e) {
                    1int
                } else {
                    0int
                } by {
                lemma_forest_remove(forest0, kl, e);
                lemma_forest_remove(forest1, kr, e);
                lemma_forest_push(forest2, p, e);
                vstd::seq_lib::lemma_multiset_commutative(leaves(l), leaves(r));
            }
            lemma_forest_push(forest2, p, (0u8, 0u64));
            assert forall|t: HuffmanNode| greedy(forest.to_multiset(), t) implies greedy(
                start,
                t,
            ) by {
                assert(whole.len() > 1);
                assert(greedy(whole, t));
            }
            assert forall|k: int| 0 <= k < forest.len() implies is_full(#[trigger] forest[k])
                && is_weighted(forest[k]) by {
                if k < forest2.len() {
                    let k1 = if k < kr {
                        k
                    } else {
                        k + 1
                    };
                    assert(forest2[k] == forest1[k1]);
                    let k0 = if k1 < kl {
                        k1
                    } else {
                        k1 + 1
                    };
                    assert(forest1[k1] == forest0[k0]);
                } else {
                    assert(is_full(forest0[kl]));
                    assert(forest1[kr] == forest0[if kr < kl {
                        kr
                    } else {
                        kr + 1
                    }]);
                }
            }
        }
    }
    proof {
        pq@.to_multiset_ensures();
        forest.to_multiset_ensures();
        if pq@.len() == 1 {
            let t = forest[0];
            assert(pq@.to_multiset().count(t) > 0);
            assert(pq@.contains(t));
            assert(pq@[0] == t);
            assert(forest =~= Seq::<HuffmanNode>::empty().push(t));
            lemma_forest_push(Seq::<HuffmanNode>::empty(), t, (0u8, 0u64));
            assert(forest_weight(Seq::<HuffmanNode>::empty()) == 0) by {
                assert(weights(Seq::<HuffmanNode>::empty()) =~= Seq::<int>::empty());
            }
            assert forall|e: (u8, u64)| #[trigger]
                leaves(t).to_multiset().count(e) == if is_entry(freqs@, e) {
                    1nat
                } else {
                    0nat
                } by {
                let count = leaves(t).to_multiset().count(e) as int;
                assert(entry_counts(forest, e) =~= Seq::<int>::empty().push(count));
                lemma_sum_push(Seq::<int>::empty(), count);
                assert(forest_count(forest, e) == count);
            }
            assert(forest.to_multiset().count(t) == 1);
            assert(greedy(forest.to_multiset(), t));
            assert(holds_entries(t, freqs@));
            lemma_greedy_is_cheapest(t, freqs@);
        }
    }
    pq
}

/// The Huffman tree for a frequency table: `None` for a table without
/// entries, a single leaf for a table with one entry.
pub fn build_tree(freqs: &HashMap<u8, u64>) -> (tree: Option<HuffmanNode>)
    requires
        total_weight(freqs@) <= u64::MAX,
    ensures
        tree is None <==> is_blank(freqs@),
        tree matches Some(t) ==> huffman_tree_for(t, freqs@),
{
    let mut pq = merge_all(freqs);
    pq.pop()
}

/// The Huffman tree for `content`, as the only element of a queue; the queue
/// is empty where `content` is.
pub fn build_huffman_tree(content: &[u8]) -> (pq: BinaryHeap<HuffmanNode>)
    ensures
        pq.policy() == HeapType::Min,
        content@.len() == 0 ==> pq@.len() == 0,
        content@.len() > 0 ==> pq@.len() == 1 && huffman_tree_for(
            pq@[0],
            frequency_table(content@),
        ),
{
    let freqs = frequencies(content);
    let length = content.len();
    proof {
        assert(content@.len() == length);
        lemma_total_weight(content@);
        if content@.len() > 0 {
            assert(content@.contains(content@[0]));
            assert(frequency_table(content@).contains_key(content@[0]));
        }
    }
    merge_all(&freqs)
}

} // verus!
