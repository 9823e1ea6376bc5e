//! The byte layout of a payload, for storing it.
//!
//! A stored payload is three 64-bit numbers, least significant byte first:
//! the length of the input, the bit count and the length of the tree
//! descriptor. The descriptor follows, and the packed bits fill the rest.

use vstd::prelude::*;
use vstd::bytes::{
    lemma_auto_spec_u64_to_from_le_bytes, spec_u64_from_le_bytes, spec_u64_to_le_bytes,
    u64_from_le_bytes, u64_to_le_bytes,
};
use vstd::slice::{slice_subrange, slice_to_vec};
use crate::codec::DecodeError;
use crate::huffman::CompressedPayload;

verus! {

/// The number of bytes before the descriptor.
pub const HEADER_LEN: usize = 24;

/// The stored form of a payload with these parts.
pub open spec fn stored(
    tree_descriptor: Seq<u8>,
    packed_bits: Seq<u8>,
    bit_count: nat,
    original_length: nat,
) -> Seq<u8> {
    spec_u64_to_le_bytes(original_length as u64) + spec_u64_to_le_bytes(bit_count as u64)
        + spec_u64_to_le_bytes(tree_descriptor.len() as u64) + tree_descriptor + packed_bits
}

/// The three numbers at the front of a stored payload: the length of the
/// input, the bit count and the length of the descriptor.
pub open spec fn header(bytes: Seq<u8>) -> (u64, u64, u64) {
    (
        spec_u64_from_le_bytes(bytes.subrange(0, 8)),
        spec_u64_from_le_bytes(bytes.subrange(8, 16)),
        spec_u64_from_le_bytes(bytes.subrange(16, 24)),
    )
}

/// `bytes` are a stored payload: the header is whole, its numbers fit the
/// machine, and the descriptor is as long as the header says.
pub open spec fn is_stored(bytes: Seq<u8>) -> bool {
    &&& bytes.len() >= HEADER_LEN
    &&& header(bytes).0 <= usize::MAX
    &&& header(bytes).1 <= usize::MAX
    &&& header(bytes).2 <= bytes.len() - HEADER_LEN
}

impl CompressedPayload {
    /// The stored form of this payload.
    pub open spec fn stored(&self) -> Seq<u8> {
        stored(
            self.tree_descriptor@,
            self.packed_bits@,
            self.bit_count as nat,
            self.original_length as nat,
        )
    }
}

/// The header of a stored payload holds the numbers that were stored, and
/// the descriptor and the bits follow it.
pub proof fn lemma_stored_reads_back(
    tree_descriptor: Seq<u8>,
    packed_bits: Seq<u8>,
    bit_count: nat,
    original_length: nat,
)
    requires
        tree_descriptor.len() <= u64::MAX,
        bit_count <= usize::MAX,
        original_length <= usize::MAX,
    ensures
        ({
            let bytes = stored(tree_descriptor, packed_bits, bit_count, original_length);
            &&& is_stored(bytes)
            &&& header(bytes) == (
                original_length as u64,
                bit_count as u64,
                tree_descriptor.len() as u64,
            )
            &&& bytes.subrange(HEADER_LEN as int, HEADER_LEN + tree_descriptor.len())
                == tree_descriptor
            &&& bytes.subrange(HEADER_LEN + tree_descriptor.len(), bytes.len() as int)
                == packed_bits
        }),
{
    lemma_auto_spec_u64_to_from_le_bytes();
    let bytes = stored(tree_descriptor, packed_bits, bit_count, original_length);
    let a = spec_u64_to_le_bytes(original_length as u64);
    let b = spec_u64_to_le_bytes(bit_count as u64);
    let c = spec_u64_to_le_bytes(tree_descriptor.len() as u64);
    assert(bytes.subrange(0, 8) =~= a);
    assert(bytes.subrange(8, 16) =~= b);
    assert(bytes.subrange(16, 24) =~= c);
    assert(bytes.subrange(HEADER_LEN as int, HEADER_LEN + tree_descriptor.len())
        =~= tree_descriptor);
    assert(bytes.subrange(HEADER_LEN + tree_descriptor.len(), bytes.len() as int)
        =~= packed_bits);
}

/// Appends `bytes` to `out`.
fn append_all(out: &mut Vec<u8>, bytes: &[u8])
    ensures
        final(out)@ == old(out)@ + bytes@,
{
    let mut i: usize = 0;
    while i < bytes.len()
        invariant
            i <= bytes.len(),
            out@ == old(out)@ + bytes@.take(i as int),
        decreases bytes.len() - i,
    {
        out.push(bytes[i]);
        i += 1;
        assert(out@ =~= old(out)@ + bytes@.take(i as int));
    }
    assert(bytes@.take(i as int) =~= bytes@);
}

/// The stored form of `payload`.
pub fn to_bytes(payload: &CompressedPayload) -> (bytes: Vec<u8>)
    ensures
        bytes@ == payload.stored(),
{
    let mut bytes = u64_to_le_bytes(payload.original_length as u64);
    let mut field = u64_to_le_bytes(payload.bit_count as u64);
    bytes.append(&mut field);
    let mut field = u64_to_le_bytes(payload.tree_descriptor.len() as u64);
    bytes.append(&mut field);
    append_all(&mut bytes, payload.tree_descriptor.as_slice());
    append_all(&mut bytes, payload.packed_bits.as_slice());
    bytes
}

/// Reads a stored payload. Fails with `TruncatedStream` where the bytes are
/// no stored payload: they end before the header or the descriptor does, or
/// a number of the header does not fit the machine.
pub fn from_bytes(bytes: &[u8]) -> (r: Result<CompressedPayload, DecodeError>)
    ensures
        r is Ok <==> is_stored(bytes@),
        r matches Ok(p) ==> p.original_length == header(bytes@).0 && p.bit_count == header(
            bytes@,
        ).1 && p.tree_descriptor@ == bytes@.subrange(
            HEADER_LEN as int,
            HEADER_LEN + header(bytes@).2,
        ) && p.packed_bits@ == bytes@.subrange(
            HEADER_LEN + header(bytes@).2,
            bytes@.len() as int,
        ),
        r matches Err(e) ==> e == DecodeError::TruncatedStream,
{
    if bytes.len() < HEADER_LEN {
        return Err(DecodeError::TruncatedStream);
    }
    let original_length = u64_from_le_bytes(slice_subrange(bytes, 0, 8));
    let bit_count = u64_from_le_bytes(slice_subrange(bytes, 8, 16));
    let descriptor_len = u64_from_le_bytes(slice_subrange(bytes, 16, 24));
    if original_length > usize::MAX as u64 || bit_count > usize::MAX as u64 || descriptor_len > (
    bytes.len() - HEADER_LEN) as u64 {
        return Err(DecodeError::TruncatedStream);
    }
    let split = HEADER_LEN + descriptor_len as usize;
    Ok(
        CompressedPayload {
            tree_descriptor: slice_to_vec(slice_subrange(bytes, HEADER_LEN, split)),
            packed_bits: slice_to_vec(slice_subrange(bytes, split, bytes.len())),
            bit_count: bit_count as usize,
            original_length: original_length as usize,
        },
    )
}

/// Reading what was stored gives the payload back, part by part.
pub proof fn lemma_from_bytes_of_stored(p: CompressedPayload)
    ensures
        is_stored(p.stored()),
        header(p.stored()).0 == p.original_length,
        header(p.stored()).1 == p.bit_count,
        p.stored().subrange(HEADER_LEN as int, HEADER_LEN + header(p.stored()).2)
            == p.tree_descriptor@,
        p.stored().subrange(HEADER_LEN + header(p.stored()).2, p.stored().len() as int)
            == p.packed_bits@,
{
    assert(p.tree_descriptor.len() == p.tree_descriptor@.len());
    lemma_stored_reads_back(
        p.tree_descriptor@,
        p.packed_bits@,
        p.bit_count as nat,
        p.original_length as nat,
    );
}

} // verus!
