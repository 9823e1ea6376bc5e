//! Compression and decompression of byte sequences by Huffman coding.

use vstd::prelude::*;
use std::collections::HashMap;
use crate::bits::pack;
use crate::bound::{lemma_compression_bound, lemma_tree_knows_content};
use crate::builder::{build_huffman_tree, huffman_tree_for};
use crate::codec::{
    agrees, all_known, decode, decoding, encode, encoding, lemma_decode_encode,
    lemma_decoding_packed, step, walk, DecodeError,
};
use crate::codes::{code_table, derive_codes, prefix_free, table_view};
use crate::descriptor::{
    descriptor, lemma_tree_of_descriptor, parse_descriptor, shape, tree_descriptor, tree_of,
    MAX_HEIGHT,
};
use crate::freq::frequency_table;
use crate::heap::BinaryHeap;
use crate::node::HuffmanNode;
use crate::optimal::lemma_height_of_entries;
use crate::order::HeapType;
use crate::tree::height;

verus! {

/// A compressed byte sequence with all that is needed to get it back.
#[derive(Debug)]
pub struct CompressedPayload {
    /// The descriptor of the Huffman tree; empty where the input was.
    pub tree_descriptor: Vec<u8>,
    /// The codes of the input's bytes, packed; the last byte is padded.
    pub packed_bits: Vec<u8>,
    /// How many bits of `packed_bits` count.
    pub bit_count: usize,
    /// How many bytes the input had.
    pub original_length: usize,
}

/// What a payload with these parts decompresses to. An empty descriptor
/// stands for the empty input and goes with no bits and no length. Any other
/// descriptor must describe a tree, the bits must decode under it, and they
/// must give as many bytes as the payload says.
pub open spec fn decompressed(
    tree_descriptor: Seq<u8>,
    packed_bits: Seq<u8>,
    bit_count: nat,
    original_length: nat,
) -> Result<Seq<u8>, DecodeError> {
    if tree_descriptor.len() == 0 {
        if bit_count == 0 && original_length == 0 {
            Ok(Seq::empty())
        } else {
            Err(DecodeError::CorruptTree)
        }
    } else {
        match tree_of(tree_descriptor) {
            Err(e) => Err(e),
            Ok(t) => match decoding(t, packed_bits, bit_count) {
                Err(e) => Err(e),
                Ok(out) => if out.len() == original_length {
                    Ok(out)
                } else {
                    Err(DecodeError::TruncatedStream)
                },
            },
        }
    }
}

impl CompressedPayload {
    /// What this payload decompresses to.
    pub open spec fn content(&self) -> Result<Seq<u8>, DecodeError> {
        decompressed(
            self.tree_descriptor@,
            self.packed_bits@,
            self.bit_count as nat,
            self.original_length as nat,
        )
    }
}

/// Decoding looks at the shape of the tree alone.
pub proof fn lemma_walk_shape(root: HuffmanNode, cur: HuffmanNode, mid: bool, stream: Seq<bool>)
    ensures
        walk(shape(root), shape(cur), mid, stream) == walk(root, cur, mid, stream),
    decreases stream.len(),
{
    if stream.len() > 0 {
        match step(cur, stream[0]) {
            None => {
                assert(step(shape(cur), stream[0]) is None);
            },
            Some(next) => {
                assert(step(shape(cur), stream[0]) == Some(shape(next)));
                assert(shape(next).ch == next.ch);
                if next.ch is Some {
                    lemma_walk_shape(root, root, false, stream.drop_first());
                } else {
                    lemma_walk_shape(root, next, true, stream.drop_first());
                }
            },
        }
    }
}

/// The encoding of a sequence under the code table of a tree that knows
/// every symbol of it, packed and stored with the tree's descriptor,
/// decompresses to the sequence. The tree must not be higher than a
/// descriptor is read back.
pub proof fn lemma_round_trip(t: HuffmanNode, content: Seq<u8>)
    requires
        all_known(content, code_table(t)),
        height(t) <= MAX_HEIGHT,
    ensures
        decompressed(
            descriptor(t),
            pack(encoding(content, code_table(t))),
            encoding(content, code_table(t)).len(),
            content.len(),
        ) == Ok::<Seq<u8>, DecodeError>(content),
{
    let stream = encoding(content, code_table(t));
    crate::descriptor::lemma_descriptor_starts_a_node(t);
    lemma_tree_of_descriptor(t);
    lemma_decoding_packed(shape(t), stream);
    lemma_walk_shape(t, t, false, stream);
    lemma_decode_encode(t, content);
}

/// The code table for `content` and the queue that holds its Huffman tree;
/// `None` for empty content.
pub fn build_huffman_encoding(content: &[u8]) -> (r: Option<
    (HashMap<u8, String>, BinaryHeap<HuffmanNode>),
>)
    ensures
        r is None <==> content@.len() == 0,
        r matches Some((codes, pq)) ==> ({
            &&& pq@.len() == 1
            &&& pq.policy() == HeapType::Min
            &&& huffman_tree_for(pq@[0], frequency_table(content@))
            &&& table_view(codes@) == code_table(pq@[0])
            &&& prefix_free(table_view(codes@))
            &&& all_known(content@, table_view(codes@))
        }),
{
    let mut pq = build_huffman_tree(content);
    if pq.size() == 0 {
        return None;
    }
    let pq_clone = pq.clone();
    let root = pq.pop().unwrap();
    let encodings = derive_codes(&root);
    proof {
        assert(pq_clone@[0] == root);
        lemma_tree_knows_content(root, content@);
    }
    Some((encodings, pq_clone))
}

/// Compresses `input`: the Huffman tree of its bytes is built and written
/// out, and the bytes are written as their codes. Empty input gives an empty
/// payload.
pub fn compress(input: &[u8]) -> (payload: CompressedPayload)
    ensures
        payload.original_length == input@.len(),
        input@.len() == 0 ==> payload.tree_descriptor@.len() == 0 && payload.packed_bits@.len()
            == 0 && payload.bit_count == 0,
        input@.len() > 0 ==> (exists|t: HuffmanNode|
            ({
                &&& huffman_tree_for(t, frequency_table(input@))
                &&& payload.tree_descriptor@ == descriptor(t)
                &&& payload.bit_count == encoding(input@, code_table(t)).len()
                &&& payload.packed_bits@ == pack(encoding(input@, code_table(t)))
            })),
        payload.content() == Ok::<Seq<u8>, DecodeError>(input@),
        payload.bit_count <= 8 * input@.len(),
{
    match build_huffman_encoding(input) {
        None => {
            assert(input@ =~= Seq::<u8>::empty());
            CompressedPayload {
                tree_descriptor: Vec::new(),
                packed_bits: Vec::new(),
                bit_count: 0,
                original_length: 0,
            }
        },
        Some((encoding_map, mut huffman_tree)) => {
            let root = huffman_tree.pop().unwrap();
            let tree_descriptor = tree_descriptor(&root);
            match encode(input, &encoding_map) {
                Ok((packed_bits, bit_count)) => {
                    let original_length = input.len();
                    proof {
                        lemma_height_of_entries(root, frequency_table(input@));
                        lemma_round_trip(root, input@);
                        lemma_compression_bound(root, input@);
                    }
                    CompressedPayload { tree_descriptor, packed_bits, bit_count, original_length }
                },
                Err(_) => vstd::pervasive::unreached(),
            }
        },
    }
}

/// Decompresses `payload`. Fails with `CorruptTree` where the descriptor
/// describes no tree or a bit asks for a missing subtree, and with
/// `TruncatedStream` where the bits run out or do not give as many bytes as
/// the payload says.
pub fn decompress(payload: &CompressedPayload) -> (r: Result<Vec<u8>, DecodeError>)
    ensures
        agrees(r, payload.content()),
{
    if payload.tree_descriptor.len() == 0 {
        if payload.bit_count == 0 && payload.original_length == 0 {
            return Ok(Vec::new());
        } else {
            return Err(DecodeError::CorruptTree);
        }
    }
    match parse_descriptor(payload.tree_descriptor.as_slice()) {
        Err(e) => Err(e),
        Ok(root) => match decode(payload.packed_bits.as_slice(), payload.bit_count, &root) {
            Err(e) => Err(e),
            Ok(out) => {
                if out.len() == payload.original_length {
                    Ok(out)
                } else {
                    Err(DecodeError::TruncatedStream)
                }
            },
        },
    }
}

} // verus!
