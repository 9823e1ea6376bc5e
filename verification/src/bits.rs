//! Bits packed into bytes, most significant bit first. The last byte of a
//! packed sequence is filled up with clear bits.

use vstd::prelude::*;

verus! {

/// The value of the bit at place `j` of a byte, counted from the most
/// significant one.
pub open spec fn weight(j: int) -> int {
    if j == 0 {
        128
    } else if j == 1 {
        64
    } else if j == 2 {
        32
    } else if j == 3 {
        16
    } else if j == 4 {
        8
    } else if j == 5 {
        4
    } else if j == 6 {
        2
    } else {
        1
    }
}

/// `1` where `bits` has a set bit at `i`; `0` where the bit is clear or `i`
/// lies outside.
pub open spec fn bit_value(bits: Seq<bool>, i: int) -> int {
    if 0 <= i < bits.len() && bits[i] {
        1
    } else {
        0
    }
}

/// The `k`-th byte of the packed form of `bits`.
pub open spec fn byte_at(bits: Seq<bool>, k: int) -> int {
    bit_value(bits, 8 * k) * 128 + bit_value(bits, 8 * k + 1) * 64 + bit_value(bits, 8 * k + 2)
        * 32 + bit_value(bits, 8 * k + 3) * 16 + bit_value(bits, 8 * k + 4) * 8 + bit_value(
        bits,
        8 * k + 5,
    ) * 4 + bit_value(bits, 8 * k + 6) * 2 + bit_value(bits, 8 * k + 7)
}

/// The number of bytes that `n` bits take.
pub open spec fn packed_len(n: nat) -> nat {
    ((n + 7) / 8) as nat
}

/// `bits` packed into bytes.
pub open spec fn pack(bits: Seq<bool>) -> Seq<u8> {
    Seq::new(packed_len(bits.len()), |k: int| byte_at(bits, k) as u8)
}

/// The bit at place `i` of a packed sequence.
pub open spec fn bit_at(bytes: Seq<u8>, i: int) -> bool {
    (bytes[i / 8] as int / weight(i % 8)) % 2 == 1
}

/// The first `n` bits of a packed sequence.
pub open spec fn unpack(bytes: Seq<u8>, n: nat) -> Seq<bool> {
    Seq::new(n, |i: int| bit_at(bytes, i))
}

/// Every bit can be read back from the packed form.
pub proof fn lemma_bit_at_pack(bits: Seq<bool>, i: int)
    requires
        0 <= i < bits.len(),
    ensures
        bit_at(pack(bits), i) == bits[i],
{
    let k = i / 8;
    let j = i % 8;
    let v0 = bit_value(bits, 8 * k);
    let v1 = bit_value(bits, 8 * k + 1);
    let v2 = bit_value(bits, 8 * k + 2);
    let v3 = bit_value(bits, 8 * k + 3);
    let v4 = bit_value(bits, 8 * k + 4);
    let v5 = bit_value(bits, 8 * k + 5);
    let v6 = bit_value(bits, 8 * k + 6);
    let v7 = bit_value(bits, 8 * k + 7);
    let b = byte_at(bits, k);
    assert(b == v0 * 128 + v1 * 64 + v2 * 32 + v3 * 16 + v4 * 8 + v5 * 4 + v6 * 2 + v7);
    assert(0 <= b < 256);
    assert(pack(bits)[k] == b as u8);
    assert(bit_value(bits, i) == if bits[i] { 1int } else { 0int });
    if j == 0 {
        assert((b / 128) % 2 == v0);
    } else if j == 1 {
        assert((b / 64) % 2 == v1);
    } else if j == 2 {
        assert((b / 32) % 2 == v2);
    } else if j == 3 {
        assert((b / 16) % 2 == v3);
    } else if j == 4 {
        assert((b / 8) % 2 == v4);
    } else if j == 5 {
        assert((b / 4) % 2 == v5);
    } else if j == 6 {
        assert((b / 2) % 2 == v6);
    } else {
        assert((b / 1) % 2 == v7);
    }
}

/// Unpacking what was packed gives the bits back.
pub proof fn lemma_unpack_pack(bits: Seq<bool>)
    ensures
        unpack(pack(bits), bits.len()) == bits,
{
    assert forall|i: int| 0 <= i < bits.len() implies unpack(pack(bits), bits.len())[i]
        == bits[i] by {
        lemma_bit_at_pack(bits, i);
    }
    assert(unpack(pack(bits), bits.len()) =~= bits);
}

/// `1` where `bits` has a set bit `offset` places after `base`, else `0`.
fn bit_or_zero(bits: &Vec<bool>, base: usize, offset: usize) -> (v: u8)
    requires
        base <= bits.len(),
    ensures
        v == bit_value(bits@, base + offset),
{
    if offset < bits.len() - base && bits[base + offset] {
        1
    } else {
        0
    }
}

/// Packs `bits` into bytes, most significant bit first; the last byte is
/// filled up with clear bits.
pub fn pack_bits(bits: &Vec<bool>) -> (packed: Vec<u8>)
    ensures
        packed@ == pack(bits@),
{
    let n = bits.len();
    let count = n / 8 + if n % 8 == 0 {
        0
    } else {
        1
    };
    assert(count == packed_len(n as nat));
    let mut packed: Vec<u8> = Vec::new();
    let mut k: usize = 0;
    while k < count
        invariant
            n == bits.len(),
            count == packed_len(n as nat),
            k <= count,
            packed@.len() == k,
            forall|t: int| 0 <= t < k ==> #[trigger] packed@[t] == byte_at(bits@, t) as u8,
        decreases count - k,
    {
        let base = 8 * k;
        let byte = bit_or_zero(bits, base, 0) * 128 + bit_or_zero(bits, base, 1) * 64
            + bit_or_zero(bits, base, 2) * 32 + bit_or_zero(bits, base, 3) * 16 + bit_or_zero(
            bits,
            base,
            4,
        ) * 8 + bit_or_zero(bits, base, 5) * 4 + bit_or_zero(bits, base, 6) * 2 + bit_or_zero(
            bits,
            base,
            7,
        );
        packed.push(byte);
        k += 1;
    }
    assert(packed@ =~= pack(bits@));
    packed
}

/// The value of the bit at place `j` of a byte.
fn weight_of(j: usize) -> (w: u8)
    requires
        j < 8,
    ensures
        w == weight(j as int),
{
    let shift = j as u8;
    assert(shift < 8 ==> (128u8 >> shift) == if shift == 0 {
        128u8
    } else if shift == 1 {
        64u8
    } else if shift == 2 {
        32u8
    } else if shift == 3 {
        16u8
    } else if shift == 4 {
        8u8
    } else if shift == 5 {
        4u8
    } else if shift == 6 {
        2u8
    } else {
        1u8
    }) by (bit_vector);
    128u8 >> shift
}

/// Reads the bit at place `i` of a packed sequence.
pub fn read_bit(bytes: &[u8], i: usize) -> (bit: bool)
    requires
        i / 8 < bytes.len(),
    ensures
        bit == bit_at(bytes@, i as int),
{
    (bytes[i / 8] / weight_of(i % 8)) % 2 == 1
}

} // verus!
