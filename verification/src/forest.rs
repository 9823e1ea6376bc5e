//! Forests of Huffman trees: the row of leaves that tree building starts
//! from, what greedy joining can make of a forest, and the sums over a
//! forest that the proofs keep track of.

use vstd::prelude::*;
use vstd::multiset::Multiset;
use vstd::seq_lib::*;
use crate::freq::weight_below;
use crate::node::HuffmanNode;
use crate::sums::{lemma_sum_nonnegative, lemma_sum_push, lemma_sum_remove, sum_of};
use crate::tree::{cost, is_full, is_weighted, leaves, merged};

verus! {

/// The leaf for `sym` with the given weight.
pub open spec fn leaf(sym: u8, weight: u64) -> HuffmanNode {
    HuffmanNode { ch: Some(sym), f: weight, l: None, r: None }
}

/// One leaf for each entry of the table whose symbol is below `k`, in the
/// order of the symbols.
pub open spec fn leaf_row(freqs: Map<u8, u64>, k: int) -> Seq<HuffmanNode>
    decreases k,
{
    if k <= 0 {
        Seq::empty()
    } else if freqs.contains_key((k - 1) as u8) {
        leaf_row(freqs, k - 1).push(leaf((k - 1) as u8, freqs[(k - 1) as u8]))
    } else {
        leaf_row(freqs, k - 1)
    }
}

/// `x` is in the forest and no tree of the forest is lighter.
pub open spec fn is_least(forest: Multiset<HuffmanNode>, x: HuffmanNode) -> bool {
    forest.count(x) > 0 && forall|y: HuffmanNode| forest.count(y) > 0 ==> x.f <= y.f
}

/// `t` is what greedy joining can make of the forest: a forest of one tree
/// is that tree; in a larger one a lightest tree `l` and a lightest of the
/// others `r` are replaced by the node that joins them, `l` to the left, and
/// the joining goes on. Which of several equally light trees is taken is
/// left open.
pub open spec fn greedy(forest: Multiset<HuffmanNode>, t: HuffmanNode) -> bool
    decreases forest.len(),
{
    if forest.len() <= 1 {
        forest.count(t) == 1
    } else {
        exists|l: HuffmanNode, r: HuffmanNode|
            is_least(forest, l) && is_least(forest.remove(l), r) && greedy(
                forest.remove(l).remove(r).insert(merged(l, r)),
                t,
            )
    }
}

/// `e` is an entry of the table: a symbol with its count.
pub open spec fn is_entry(freqs: Map<u8, u64>, e: (u8, u64)) -> bool {
    freqs.contains_key(e.0) && freqs[e.0] == e.1
}

/// The leaves of `t` are the entries of the table, each exactly once.
pub open spec fn holds_entries(t: HuffmanNode, freqs: Map<u8, u64>) -> bool {
    forall|e: (u8, u64)| #[trigger]
        leaves(t).to_multiset().count(e) == if is_entry(freqs, e) {
            1nat
        } else {
            0nat
        }
}

/// The table has no entry.
pub open spec fn is_blank(freqs: Map<u8, u64>) -> bool {
    forall|sym: u8| !freqs.contains_key(sym)
}

/// The weights of the trees of a forest.
pub open spec fn weights(forest: Seq<HuffmanNode>) -> Seq<int> {
    forest.map_values(|n: HuffmanNode| n.f as int)
}

/// The costs of the trees of a forest.
pub open spec fn costs(forest: Seq<HuffmanNode>) -> Seq<int> {
    forest.map_values(|n: HuffmanNode| cost(n))
}

/// For each tree of a forest, how many of its leaves are the entry `e`.
pub open spec fn entry_counts(forest: Seq<HuffmanNode>, e: (u8, u64)) -> Seq<int> {
    forest.map_values(|n: HuffmanNode| leaves(n).to_multiset().count(e) as int)
}

/// The weights of the trees of a forest, added up.
pub open spec fn forest_weight(forest: Seq<HuffmanNode>) -> int {
    sum_of(weights(forest))
}

/// How many leaves of the forest are the entry `e`.
pub open spec fn forest_count(forest: Seq<HuffmanNode>, e: (u8, u64)) -> int {
    sum_of(entry_counts(forest, e))
}

/// What one more tree at the end adds to the sums over a forest.
pub proof fn lemma_forest_push(forest: Seq<HuffmanNode>, n: HuffmanNode, e: (u8, u64))
    ensures
        forest_weight(forest.push(n)) == forest_weight(forest) + n.f,
        forest_count(forest.push(n), e) == forest_count(forest, e) + leaves(n).to_multiset().count(
            e,
        ),
{
    assert(weights(forest.push(n)) =~= weights(forest).push(n.f as int));
    lemma_sum_push(weights(forest), n.f as int);
    let count = leaves(n).to_multiset().count(e) as int;
    assert(entry_counts(forest.push(n), e) =~= entry_counts(forest, e).push(count));
    lemma_sum_push(entry_counts(forest, e), count);
}

/// What taking a tree out takes off the sums over a forest.
pub proof fn lemma_forest_remove(forest: Seq<HuffmanNode>, k: int, e: (u8, u64))
    requires
        0 <= k < forest.len(),
    ensures
        forest_weight(forest.remove(k)) == forest_weight(forest) - forest[k].f,
        forest_count(forest.remove(k), e) == forest_count(forest, e) - leaves(
            forest[k],
        ).to_multiset().count(e),
        forest_weight(forest.remove(k)) >= 0,
{
    assert(weights(forest.remove(k)) =~= weights(forest).remove(k));
    lemma_sum_remove(weights(forest), k);
    assert(entry_counts(forest.remove(k), e) =~= entry_counts(forest, e).remove(k));
    lemma_sum_remove(entry_counts(forest, e), k);
    lemma_sum_nonnegative(weights(forest.remove(k)));
}

/// What holds of the row of leaves that the joining starts from.
pub proof fn lemma_leaf_row(freqs: Map<u8, u64>, k: int, e: (u8, u64))
    requires
        0 <= k <= 256,
    ensures
        forest_weight(leaf_row(freqs, k)) == weight_below(freqs, k),
        forest_count(leaf_row(freqs, k), e) == if e.0 < k && is_entry(freqs, e) {
            1int
        } else {
            0int
        },
        forall|i: int|
            0 <= i < leaf_row(freqs, k).len() ==> is_full(#[trigger] leaf_row(freqs, k)[i])
                && is_weighted(leaf_row(freqs, k)[i]),
        leaf_row(freqs, k).len() == 0 <==> forall|sym: u8| sym < k ==> !freqs.contains_key(sym),
        leaf_row(freqs, k).len() <= k,
        forall|i: int|
            0 <= i < leaf_row(freqs, k).len() ==> (#[trigger] leaf_row(freqs, k)[i]).ch is Some,
    decreases k,
{
    broadcast use group_to_multiset_ensures;

    if k > 0 {
        lemma_leaf_row(freqs, k - 1, e);
        let sym = (k - 1) as u8;
        if freqs.contains_key(sym) {
            let n = leaf(sym, freqs[sym]);
            lemma_forest_push(leaf_row(freqs, k - 1), n, e);
            assert(leaves(n) =~= Seq::<(u8, u64)>::empty().push((sym, freqs[sym])));
            assert(leaf_row(freqs, k)[leaf_row(freqs, k).len() - 1] == n);
        }
        assert forall|other: u8| other < k && freqs.contains_key(other) implies leaf_row(
            freqs,
            k,
        ).len() > 0 by {
            if other < k - 1 {
                assert(leaf_row(freqs, k - 1).len() > 0);
            }
        }
    } else {
        assert(weights(leaf_row(freqs, k)) =~= Seq::<int>::empty());
        assert(entry_counts(leaf_row(freqs, k), e) =~= Seq::<int>::empty());
    }
}

} // verus!
