//! The tree descriptor: a Huffman tree written out in bytes, from the root
//! down and left before right, so that a decoder can rebuild it.
//!
//! A leaf is the byte `1` followed by its symbol. An internal node is the
//! byte `0` followed by its left and its right slot; a slot holds a node, or
//! the byte `2` where the subtree is missing. Weights are not written.
//!
//! A descriptor is read back only where its tree has at most 255 levels
//! below the root: no strict binary tree over distinct bytes has more.

use vstd::prelude::*;
use crate::codec::DecodeError;
use crate::forest::leaf;
use crate::node::HuffmanNode;
use crate::tree::height;

verus! {

/// The byte that starts an internal node.
pub const TAG_INTERNAL: u8 = 0;

/// The byte that starts a leaf.
pub const TAG_LEAF: u8 = 1;

/// The byte that stands for a missing subtree.
pub const TAG_MISSING: u8 = 2;

/// The greatest number of levels below the root of a tree that is read back.
pub const MAX_HEIGHT: usize = 255;

/// The descriptor of the tree under `n`.
pub open spec fn descriptor(n: HuffmanNode) -> Seq<u8>
    decreases n,
{
    match n.ch {
        Some(sym) => seq![TAG_LEAF, sym],
        None => {
            let of_left = match n.l {
                Some(l) => descriptor(*l),
                None => seq![TAG_MISSING],
            };
            let of_right = match n.r {
                Some(r) => descriptor(*r),
                None => seq![TAG_MISSING],
            };
            seq![TAG_INTERNAL] + of_left + of_right
        },
    }
}

/// The tree as its descriptor keeps it: all weights are zero, and nothing
/// hangs below a node that carries a symbol.
pub open spec fn shape(n: HuffmanNode) -> HuffmanNode
    decreases n,
{
    match n.ch {
        Some(sym) => leaf(sym, 0),
        None => HuffmanNode {
            ch: None,
            f: 0,
            l: match n.l {
                Some(l) => Some(Box::new(shape(*l))),
                None => None,
            },
            r: match n.r {
                Some(r) => Some(Box::new(shape(*r))),
                None => None,
            },
        },
    }
}

/// The node that the front of `bytes` describes, with the bytes that follow
/// it; `None` where the front describes no node, or one with more than
/// `room` levels below it.
pub open spec fn parse_node(bytes: Seq<u8>, room: nat) -> Option<(HuffmanNode, Seq<u8>)>
    decreases bytes.len(), 0nat,
{
    if bytes.len() == 0 {
        None
    } else if bytes[0] == TAG_LEAF {
        if bytes.len() >= 2 {
            Some((leaf(bytes[1], 0), bytes.skip(2)))
        } else {
            None
        }
    } else if bytes[0] == TAG_INTERNAL && room > 0 {
        match parse_slot(bytes.skip(1), (room - 1) as nat) {
            Some((l, after_left)) => if after_left.len() < bytes.len() {
                match parse_slot(after_left, (room - 1) as nat) {
                    Some((r, after_right)) => Some(
                        (HuffmanNode { ch: None, f: 0, l, r }, after_right),
                    ),
                    None => None,
                }
            } else {
                None
            },
            None => None,
        }
    } else {
        None
    }
}

/// The slot that the front of `bytes` describes, with the bytes that follow
/// it.
pub open spec fn parse_slot(bytes: Seq<u8>, room: nat) -> Option<
    (Option<Box<HuffmanNode>>, Seq<u8>),
>
    decreases bytes.len(), 1nat,
{
    if bytes.len() > 0 && bytes[0] == TAG_MISSING {
        Some((None, bytes.skip(1)))
    } else {
        match parse_node(bytes, room) {
            Some((n, rest)) => Some((Some(Box::new(n)), rest)),
            None => None,
        }
    }
}

/// The tree that `bytes` describes. The bytes must describe one node of at
/// most `MAX_HEIGHT` levels and end with it.
pub open spec fn tree_of(bytes: Seq<u8>) -> Result<HuffmanNode, DecodeError> {
    match parse_node(bytes, MAX_HEIGHT as nat) {
        Some((t, rest)) => if rest.len() == 0 {
            Ok(t)
        } else {
            Err(DecodeError::CorruptTree)
        },
        None => Err(DecodeError::CorruptTree),
    }
}

/// Parsing uses up at least one byte, and what it leaves is the end of what
/// it was given.
pub proof fn lemma_parse_consumes(bytes: Seq<u8>, room: nat)
    ensures
        parse_node(bytes, room) matches Some((_, rest)) ==> rest.len() < bytes.len() && rest
            == bytes.skip(bytes.len() - rest.len()),
        parse_slot(bytes, room) matches Some((_, rest)) ==> rest.len() < bytes.len() && rest
            == bytes.skip(bytes.len() - rest.len()),
    decreases bytes.len(),
{
    if bytes.len() > 0 && bytes[0] == TAG_INTERNAL && room > 0 {
        let below = (room - 1) as nat;
        let inner = bytes.skip(1);
        lemma_parse_consumes(inner, below);
        if let Some((l, after_left)) = parse_slot(inner, below) {
            lemma_parse_consumes(after_left, below);
            if let Some((r, after_right)) = parse_slot(after_left, below) {
                assert(after_right =~= bytes.skip(bytes.len() - after_right.len()));
            }
        }
        if let Some((n, rest)) = parse_node(bytes, room) {
            assert(parse_slot(bytes, room) == Some((Some(Box::new(n)), rest)));
        }
    }
}

/// A descriptor is read back as the shape of the tree that it was written
/// for, whatever follows it.
pub proof fn lemma_parse_descriptor(n: HuffmanNode, rest: Seq<u8>, room: nat)
    requires
        height(n) <= room,
    ensures
        parse_node(descriptor(n) + rest, room) == Some((shape(n), rest)),
    decreases n,
{
    let bytes = descriptor(n) + rest;
    match n.ch {
        Some(sym) => {
            assert(bytes[0] == TAG_LEAF);
            assert(bytes[1] == sym);
            assert(bytes.skip(2) =~= rest);
        },
        None => {
            let of_left = match n.l {
                Some(l) => descriptor(*l),
                None => seq![TAG_MISSING],
            };
            let of_right = match n.r {
                Some(r) => descriptor(*r),
                None => seq![TAG_MISSING],
            };
            assert(bytes[0] == TAG_INTERNAL);
            assert(bytes.skip(1) =~= of_left + (of_right + rest));
            let after_left = of_right + rest;
            let below = (room - 1) as nat;
            match n.l {
                Some(l) => {
                    lemma_parse_descriptor(*l, after_left, below);
                    lemma_descriptor_starts_a_node(*l);
                    assert((of_left + after_left)[0] == of_left[0]);
                },
                None => {
                    assert((of_left + after_left)[0] == TAG_MISSING);
                    assert((of_left + after_left).skip(1) =~= after_left);
                },
            }
            assert(parse_slot(bytes.skip(1), below) == Some(
                (
                    match n.l {
                        Some(l) => Some(Box::new(shape(*l))),
                        None => None,
                    },
                    after_left,
                ),
            ));
            match n.r {
                Some(r) => {
                    lemma_parse_descriptor(*r, rest, below);
                    lemma_descriptor_starts_a_node(*r);
                    assert((of_right + rest)[0] == of_right[0]);
                },
                None => {
                    assert((of_right + rest)[0] == TAG_MISSING);
                    assert((of_right + rest).skip(1) =~= rest);
                },
            }
        },
    }
}

/// A descriptor starts with the byte of a leaf or of an internal node.
pub proof fn lemma_descriptor_starts_a_node(n: HuffmanNode)
    ensures
        descriptor(n).len() > 0,
        descriptor(n)[0] == TAG_LEAF || descriptor(n)[0] == TAG_INTERNAL,
{
}

/// Reading the descriptor of a tree of at most `MAX_HEIGHT` levels gives
/// the shape of the tree.
pub proof fn lemma_tree_of_descriptor(n: HuffmanNode)
    requires
        height(n) <= MAX_HEIGHT,
    ensures
        tree_of(descriptor(n)) == Ok::<HuffmanNode, DecodeError>(shape(n)),
{
    lemma_parse_descriptor(n, Seq::empty(), MAX_HEIGHT as nat);
    assert(descriptor(n) + Seq::<u8>::empty() =~= descriptor(n));
}

/// Appends the descriptor of the tree under `n` to `out`.
fn write_node(n: &HuffmanNode, out: &mut Vec<u8>)
    ensures
        final(out)@ == old(out)@ + descriptor(*n),
    decreases *n,
{
    match n.ch {
        Some(sym) => {
            out.push(TAG_LEAF);
            out.push(sym);
            assert(out@ =~= old(out)@ + descriptor(*n));
        },
        None => {
            out.push(TAG_INTERNAL);
            match &n.l {
                Some(l) => write_node(l, out),
                None => out.push(TAG_MISSING),
            }
            match &n.r {
                Some(r) => write_node(r, out),
                None => out.push(TAG_MISSING),
            }
            assert(out@ =~= old(out)@ + descriptor(*n));
        },
    }
}

/// The descriptor of the tree under `root`.
pub fn tree_descriptor(root: &HuffmanNode) -> (bytes: Vec<u8>)
    ensures
        bytes@ == descriptor(*root),
{
    let mut bytes: Vec<u8> = Vec::new();
    write_node(root, &mut bytes);
    assert(bytes@ =~= descriptor(*root));
    bytes
}

/// What was read from the bytes at `pos` on is what the model reads there.
pub open spec fn reads_as<A>(
    got: Option<(A, usize)>,
    model: Option<(A, Seq<u8>)>,
    bytes: Seq<u8>,
) -> bool {
    match (got, model) {
        (Some((n, next)), Some((m, rest))) => n == m && next <= bytes.len() && rest == bytes.skip(
            next as int,
        ),
        (None, None) => true,
        _ => false,
    }
}

/// Reads the node that starts at `pos`, and returns it with the position
/// after it; the node may have `room` levels below it.
fn read_node(bytes: &[u8], pos: usize, room: usize) -> (r: Option<(HuffmanNode, usize)>)
    requires
        pos <= bytes.len(),
    ensures
        reads_as(r, parse_node(bytes@.skip(pos as int), room as nat), bytes@),
        r matches Some((_, next)) ==> pos < next,
    decreases bytes.len() - pos, 0nat,
{
    let ghost here = bytes@.skip(pos as int);
    if pos >= bytes.len() {
        return None;
    }
    let tag = bytes[pos];
    assert(here[0] == tag);
    if tag == TAG_LEAF {
        if bytes.len() - pos < 2 {
            return None;
        }
        assert(here[1] == bytes@[pos + 1]);
        assert(here.skip(2) =~= bytes@.skip(pos + 2));
        Some((HuffmanNode::single(Some(bytes[pos + 1]), 0), pos + 2))
    } else if tag == TAG_INTERNAL && room > 0 {
        assert(here.skip(1) =~= bytes@.skip(pos + 1));
        match read_slot(bytes, pos + 1, room - 1) {
            None => None,
            Some((l, after_left)) => {
                proof {
                    lemma_parse_consumes(here.skip(1), (room - 1) as nat);
                }
                match read_slot(bytes, after_left, room - 1) {
                    None => None,
                    Some((r, after_right)) => Some(
                        (HuffmanNode { ch: None, f: 0, l, r }, after_right),
                    ),
                }
            },
        }
    } else {
        None
    }
}

/// Reads the slot that starts at `pos`, and returns it with the position
/// after it; a node in it may have `room` levels below it.
fn read_slot(bytes: &[u8], pos: usize, room: usize) -> (r: Option<
    (Option<Box<HuffmanNode>>, usize),
>)
    requires
        pos <= bytes.len(),
    ensures
        reads_as(r, parse_slot(bytes@.skip(pos as int), room as nat), bytes@),
        r matches Some((_, next)) ==> pos < next,
    decreases bytes.len() - pos, 1nat,
{
    let ghost here = bytes@.skip(pos as int);
    if pos < bytes.len() && bytes[pos] == TAG_MISSING {
        assert(here[0] == TAG_MISSING);
        assert(here.skip(1) =~= bytes@.skip(pos + 1));
        Some((None, pos + 1))
    } else {
        if pos < bytes.len() {
            assert(here[0] == bytes@[pos as int]);
        }
        match read_node(bytes, pos, room) {
            Some((n, next)) => Some((Some(Box::new(n)), next)),
            None => None,
        }
    }
}

/// Rebuilds the tree that `bytes` describes. Fails where the bytes do not
/// describe exactly one tree, or one with more than `MAX_HEIGHT` levels.
pub fn parse_descriptor(bytes: &[u8]) -> (r: Result<HuffmanNode, DecodeError>)
    ensures
        r == tree_of(bytes@),
{
    assert(bytes@.skip(0) =~= bytes@);
    match read_node(bytes, 0, MAX_HEIGHT) {
        Some((t, next)) => {
            if next == bytes.len() {
                Ok(t)
            } else {
                Err(DecodeError::CorruptTree)
            }
        },
        None => Err(DecodeError::CorruptTree),
    }
}

} // verus!
