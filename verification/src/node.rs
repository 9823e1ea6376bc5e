//! The nodes of a Huffman tree.

use vstd::prelude::*;
use vstd::std_specs::cmp::PartialEqSpecImpl;
use vstd::std_specs::cmp::PartialOrdSpecImpl;
use core::cmp::Ordering;
use crate::order::{lawful, prefers, HeapType};

verus! {

/// A node of a Huffman tree. A node that carries a symbol is a leaf; any
/// other node is internal and is meant to own two subtrees.
#[derive(Debug)]
pub struct HuffmanNode {
    /// The symbol of a leaf.
    pub ch: Option<u8>,
    /// The weight: how often the symbols below occur.
    pub f: u64,
    /// The subtree reached by a `0` bit.
    pub l: Option<Box<HuffmanNode>>,
    /// The subtree reached by a `1` bit.
    pub r: Option<Box<HuffmanNode>>,
}

impl HuffmanNode {
    /// A node without subtrees: a leaf where `ch` is a symbol.
    pub fn single(ch: Option<u8>, f: u64) -> (node: Self)
        ensures
            node == (HuffmanNode { ch, f, l: None, r: None }),
    {
        HuffmanNode { f, ch, l: None, r: None }
    }
}

impl Clone for HuffmanNode {
    /// A deep copy, equal to this node.
    fn clone(&self) -> (res: Self)
        ensures
            res == *self,
        decreases *self,
    {
        let l = match &self.l {
            Some(sub) => Some(Box::new((**sub).clone())),
            None => None,
        };
        let r = match &self.r {
            Some(sub) => Some(Box::new((**sub).clone())),
            None => None,
        };
        HuffmanNode { ch: self.ch, f: self.f, l, r }
    }
}

impl PartialEq for HuffmanNode {
    /// Two nodes are equal where symbol, weight and both subtrees are.
    fn eq(&self, o: &Self) -> (res: bool)
        decreases *self,
    {
        let same_l = match (&self.l, &o.l) {
            (Some(a), Some(b)) => (**a).eq(&**b),
            (None, None) => true,
            _ => false,
        };
        let same_r = match (&self.r, &o.r) {
            (Some(a), Some(b)) => (**a).eq(&**b),
            (None, None) => true,
            _ => false,
        };
        self.f == o.f && self.ch == o.ch && same_l && same_r
    }
}

impl PartialEqSpecImpl for HuffmanNode {
    open spec fn obeys_eq_spec() -> bool {
        true
    }

    open spec fn eq_spec(&self, o: &Self) -> bool {
        *self == *o
    }
}

impl Eq for HuffmanNode {

}

impl PartialOrd for HuffmanNode {
    /// Nodes are ordered by weight alone.
    fn partial_cmp(&self, o: &Self) -> (res: Option<Ordering>) {
        if self.f < o.f {
            Some(Ordering::Less)
        } else if self.f == o.f {
            Some(Ordering::Equal)
        } else {
            Some(Ordering::Greater)
        }
    }
}

impl PartialOrdSpecImpl for HuffmanNode {
    open spec fn obeys_partial_cmp_spec() -> bool {
        true
    }

    open spec fn partial_cmp_spec(&self, o: &Self) -> Option<Ordering> {
        if self.f < o.f {
            Some(Ordering::Less)
        } else if self.f == o.f {
            Some(Ordering::Equal)
        } else {
            Some(Ordering::Greater)
        }
    }
}

/// Nodes are lawfully ordered under either policy.
pub proof fn lemma_nodes_lawful(policy: HeapType)
    ensures
        lawful::<HuffmanNode>(policy),
{
    reveal(lawful);
}

/// Under `Min` a node is strictly preferred exactly where it is lighter,
/// under `Max` exactly where it is heavier.
pub proof fn lemma_prefers_by_weight(a: HuffmanNode, b: HuffmanNode)
    ensures
        prefers(HeapType::Min, a, b) <==> a.f < b.f,
        prefers(HeapType::Max, a, b) <==> a.f > b.f,
{
}

} // verus!
