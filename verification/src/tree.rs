//! Huffman trees as mathematical objects: their shape, their leaves, and
//! the paths that lead to the leaves.

use vstd::prelude::*;
use crate::node::HuffmanNode;

verus! {

/// The subtree in a child slot, if the slot is filled.
pub open spec fn unboxed(slot: Option<Box<HuffmanNode>>) -> Option<HuffmanNode> {
    match slot {
        Some(sub) => Some(*sub),
        None => None,
    }
}

/// The subtree that a bit leads to from an internal node: left on `0`,
/// right on `1`.
pub open spec fn child(n: HuffmanNode, bit: bool) -> Option<HuffmanNode> {
    if bit {
        unboxed(n.r)
    } else {
        unboxed(n.l)
    }
}

/// The internal node that joins `l` and `r`; its weight is the sum of
/// theirs.
pub open spec fn merged(l: HuffmanNode, r: HuffmanNode) -> HuffmanNode {
    HuffmanNode { ch: None, f: (l.f + r.f) as u64, l: Some(Box::new(l)), r: Some(Box::new(r)) }
}

/// A strict binary tree: every leaf has no subtree, every internal node has
/// two, and both are strict binary trees.
pub open spec fn is_full(n: HuffmanNode) -> bool
    decreases n,
{
    match n.ch {
        Some(_) => n.l is None && n.r is None,
        None => match (n.l, n.r) {
            (Some(l), Some(r)) => is_full(*l) && is_full(*r),
            _ => false,
        },
    }
}

/// The weight of every internal node is the sum of the weights of its two
/// subtrees.
pub open spec fn is_weighted(n: HuffmanNode) -> bool
    decreases n,
{
    match n.ch {
        Some(_) => true,
        None => match (n.l, n.r) {
            (Some(l), Some(r)) => n.f == l.f + r.f && is_weighted(*l) && is_weighted(*r),
            _ => false,
        },
    }
}

/// The leaves from left to right, each with its symbol and weight. What
/// hangs below a node that carries a symbol is not looked at.
pub open spec fn leaves(n: HuffmanNode) -> Seq<(u8, u64)>
    decreases n,
{
    match n.ch {
        Some(c) => seq![(c, n.f)],
        None => {
            let in_left = match n.l {
                Some(l) => leaves(*l),
                None => Seq::empty(),
            };
            let in_right = match n.r {
                Some(r) => leaves(*r),
                None => Seq::empty(),
            };
            in_left + in_right
        },
    }
}

/// The number of levels below `n`: none below a leaf, and below an internal
/// node one more than below its higher subtree.
pub open spec fn height(n: HuffmanNode) -> nat
    decreases n,
{
    match n.ch {
        Some(_) => 0,
        None => {
            let of_left = match n.l {
                Some(l) => height(*l),
                None => 0,
            };
            let of_right = match n.r {
                Some(r) => height(*r),
                None => 0,
            };
            if of_left >= of_right {
                of_left + 1
            } else {
                of_right + 1
            }
        },
    }
}

/// The depths of the leaves from left to right, where `n` itself stands at
/// the depth `from`.
pub open spec fn leaf_depths(n: HuffmanNode, from: nat) -> Seq<nat>
    decreases n,
{
    match n.ch {
        Some(_) => seq![from],
        None => {
            let in_left = match n.l {
                Some(l) => leaf_depths(*l, from + 1),
                None => Seq::empty(),
            };
            let in_right = match n.r {
                Some(r) => leaf_depths(*r, from + 1),
                None => Seq::empty(),
            };
            in_left + in_right
        },
    }
}

/// What the tree costs: the weights of all subtrees but the whole, added
/// up. Where every internal node weighs what its subtrees weigh together,
/// this is the sum over the leaves of weight times depth.
pub open spec fn cost(n: HuffmanNode) -> int
    decreases n,
{
    match n.ch {
        Some(_) => 0,
        None => {
            let of_left = match n.l {
                Some(l) => cost(*l) + l.f,
                None => 0,
            };
            let of_right = match n.r {
                Some(r) => cost(*r) + r.f,
                None => 0,
            };
            of_left + of_right
        },
    }
}

/// The way from `n` down to the leaf that carries `sym`, as the bits taken:
/// `false` for left, `true` for right. Where several leaves carry `sym`, the
/// rightmost one counts. `None` where no leaf carries it.
pub open spec fn path_to(n: HuffmanNode, sym: u8) -> Option<Seq<bool>>
    decreases n,
{
    match n.ch {
        Some(c) => if c == sym {
            Some(Seq::empty())
        } else {
            None
        },
        None => {
            let in_right = match n.r {
                Some(r) => path_to(*r, sym),
                None => None,
            };
            let in_left = match n.l {
                Some(l) => path_to(*l, sym),
                None => None,
            };
            match in_right {
                Some(p) => Some(seq![true] + p),
                None => match in_left {
                    Some(p) => Some(seq![false] + p),
                    None => None,
                },
            }
        },
    }
}

/// The symbols of a sequence of leaves.
pub open spec fn symbols_of(entries: Seq<(u8, u64)>) -> Seq<u8> {
    entries.map_values(|e: (u8, u64)| e.0)
}

/// A path exists to every symbol that a leaf carries, and to no other.
pub proof fn lemma_path_iff_leaf(n: HuffmanNode, sym: u8)
    ensures
        path_to(n, sym) is Some <==> symbols_of(leaves(n)).contains(sym),
    decreases n,
{
    match n.ch {
        Some(c) => {
            if c == sym {
                assert(symbols_of(leaves(n))[0] == sym);
            }
        },
        None => {
            let in_left = match n.l {
                Some(l) => leaves(*l),
                None => Seq::empty(),
            };
            let in_right = match n.r {
                Some(r) => leaves(*r),
                None => Seq::empty(),
            };
            if let Some(l) = n.l {
                lemma_path_iff_leaf(*l, sym);
            }
            if let Some(r) = n.r {
                lemma_path_iff_leaf(*r, sym);
            }
            let all = symbols_of(leaves(n));
            assert(all =~= symbols_of(in_left) + symbols_of(in_right));
            if symbols_of(in_left).contains(sym) {
                let k = choose|k: int| 0 <= k < in_left.len() && symbols_of(in_left)[k] == sym;
                assert(all[k] == sym);
            }
            if symbols_of(in_right).contains(sym) {
                let k = choose|k: int| 0 <= k < in_right.len() && symbols_of(in_right)[k] == sym;
                assert(all[in_left.len() + k] == sym);
            }
            if all.contains(sym) {
                let k = choose|k: int| 0 <= k < all.len() && all[k] == sym;
                if k < in_left.len() {
                    assert(symbols_of(in_left)[k] == sym);
                } else {
                    assert(symbols_of(in_right)[k - in_left.len()] == sym);
                }
            }
        },
    }
}

/// A strict binary tree has at least one leaf, and fewer levels below its
/// root than it has leaves.
pub proof fn lemma_height_below_leaf_count(n: HuffmanNode)
    requires
        is_full(n),
    ensures
        height(n) + 1 <= leaves(n).len(),
    decreases n,
{
    if n.ch is None {
        lemma_height_below_leaf_count(*n.l.unwrap());
        lemma_height_below_leaf_count(*n.r.unwrap());
    }
}

/// Joining two trees gives one whose leaves are theirs, and which costs what
/// they cost and weigh together.
pub proof fn lemma_merged(l: HuffmanNode, r: HuffmanNode)
    requires
        l.f + r.f <= u64::MAX,
    ensures
        merged(l, r).f == l.f + r.f,
        leaves(merged(l, r)) == leaves(l) + leaves(r),
        cost(merged(l, r)) == cost(l) + cost(r) + l.f + r.f,
        is_full(l) && is_full(r) ==> is_full(merged(l, r)),
        is_weighted(l) && is_weighted(r) ==> is_weighted(merged(l, r)),
{
}

} // verus!
