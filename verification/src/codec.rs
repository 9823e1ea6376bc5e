//! The bitstream codec: symbols to packed bits by a code table, and packed
//! bits back to symbols by a walk through the tree.

use vstd::prelude::*;
use std::collections::HashMap;
use crate::bits::{lemma_unpack_pack, pack, pack_bits, packed_len, read_bit, unpack};
use crate::codes::{bits_of, code_table, lemma_bits_of_digits, table_view};
use crate::node::HuffmanNode;
use crate::tree::{child, path_to};

verus! {

/// Why encoding failed.
#[derive(Clone, Copy, Debug, PartialEq, Eq, Structural)]
pub enum EncodeError {
    /// A symbol of the input has no code in the table.
    UnknownSymbol,
}

/// Why decoding failed.
#[derive(Clone, Copy, Debug, PartialEq, Eq, Structural)]
pub enum DecodeError {
    /// The bits ended in the middle of a code, or fewer bits are stored than
    /// the bit count says.
    TruncatedStream,
    /// A bit asked for a subtree that the tree does not have.
    CorruptTree,
}

/// The bits that `sym` is written as; none where the table does not know it.
pub open spec fn code_bits(table: Map<u8, Seq<char>>, sym: u8) -> Seq<bool> {
    if table.contains_key(sym) {
        bits_of(table[sym])
    } else {
        Seq::empty()
    }
}

/// The codes of `symbols`, one after another in input order.
pub open spec fn encoding(symbols: Seq<u8>, table: Map<u8, Seq<char>>) -> Seq<bool>
    decreases symbols.len(),
{
    if symbols.len() == 0 {
        Seq::empty()
    } else {
        code_bits(table, symbols[0]) + encoding(symbols.drop_first(), table)
    }
}

/// Every symbol has a code in the table.
pub open spec fn all_known(symbols: Seq<u8>, table: Map<u8, Seq<char>>) -> bool {
    forall|i: int| 0 <= i < symbols.len() ==> table.contains_key(#[trigger] symbols[i])
}

/// Where a bit leads from `cur`. A tree that is a single leaf is read as if
/// that leaf hung to the left of a root.
pub open spec fn step(cur: HuffmanNode, bit: bool) -> Option<HuffmanNode> {
    if cur.ch is Some {
        if bit {
            None
        } else {
            Some(cur)
        }
    } else {
        child(cur, bit)
    }
}

/// `rest` with `done` put in front of what it decoded.
pub open spec fn prefixed(done: Seq<u8>, rest: Result<Seq<u8>, DecodeError>) -> Result<
    Seq<u8>,
    DecodeError,
> {
    match rest {
        Ok(more) => Ok(done + more),
        Err(e) => Err(e),
    }
}

/// What the bits of `stream` decode to when the walk stands at `cur`; `mid`
/// says that it has left the root. Each bit leads one step down; a leaf
/// gives its symbol and sends the walk back to the root.
pub open spec fn walk(root: HuffmanNode, cur: HuffmanNode, mid: bool, stream: Seq<bool>) -> Result<
    Seq<u8>,
    DecodeError,
>
    decreases stream.len(),
{
    if stream.len() == 0 {
        if mid {
            Err(DecodeError::TruncatedStream)
        } else {
            Ok(Seq::empty())
        }
    } else {
        match step(cur, stream[0]) {
            None => Err(DecodeError::CorruptTree),
            Some(next) => match next.ch {
                Some(sym) => prefixed(seq![sym], walk(root, root, false, stream.drop_first())),
                None => walk(root, next, true, stream.drop_first()),
            },
        }
    }
}

/// What a bit sequence decodes to under the tree at `root`.
pub open spec fn decoded(root: HuffmanNode, stream: Seq<bool>) -> Result<Seq<u8>, DecodeError> {
    walk(root, root, false, stream)
}

/// What the first `bit_count` bits of `bytes` decode to. Where `bytes` holds
/// fewer bits than that, the stream is truncated.
pub open spec fn decoding(root: HuffmanNode, bytes: Seq<u8>, bit_count: nat) -> Result<
    Seq<u8>,
    DecodeError,
> {
    if packed_len(bit_count) > bytes.len() {
        Err(DecodeError::TruncatedStream)
    } else {
        decoded(root, unpack(bytes, bit_count))
    }
}

/// The result of a decoding run is the one that the model gives.
pub open spec fn agrees(
    got: Result<Vec<u8>, DecodeError>,
    model: Result<Seq<u8>, DecodeError>,
) -> bool {
    match (got, model) {
        (Ok(v), Ok(s)) => v@ == s,
        (Err(e), Err(d)) => e == d,
        _ => false,
    }
}

/// The encoding of a sequence with one more symbol is the encoding of the
/// sequence followed by the code of that symbol.
pub proof fn lemma_encoding_push(symbols: Seq<u8>, sym: u8, table: Map<u8, Seq<char>>)
    ensures
        encoding(symbols.push(sym), table) == encoding(symbols, table) + code_bits(table, sym),
    decreases symbols.len(),
{
    if symbols.len() == 0 {
        assert(symbols.push(sym).drop_first() =~= Seq::<u8>::empty());
        assert(symbols.push(sym)[0] == sym);
        assert(encoding(symbols.push(sym).drop_first(), table) =~= Seq::<bool>::empty());
        assert(encoding(symbols.push(sym), table) =~= code_bits(table, sym));
        assert(encoding(symbols, table) + code_bits(table, sym) =~= code_bits(table, sym));
    } else {
        assert(symbols.push(sym).drop_first() =~= symbols.drop_first().push(sym));
        lemma_encoding_push(symbols.drop_first(), sym, table);
        assert(encoding(symbols.push(sym), table) =~= encoding(symbols, table) + code_bits(
            table,
            sym,
        ));
    }
}

/// Walking the path to a symbol gives the symbol, and leaves the walk at the
/// root for the bits that follow.
pub proof fn lemma_walk_path(
    root: HuffmanNode,
    cur: HuffmanNode,
    mid: bool,
    sym: u8,
    rest: Seq<bool>,
)
    requires
        cur.ch is None,
        path_to(cur, sym) is Some,
    ensures
        walk(root, cur, mid, path_to(cur, sym).unwrap() + rest) == prefixed(
            seq![sym],
            walk(root, root, false, rest),
        ),
    decreases cur,
{
    let p = path_to(cur, sym).unwrap();
    let stream = p + rest;
    let in_right = match cur.r {
        Some(r) => path_to(*r, sym),
        None => None,
    };
    let bit = in_right is Some;
    let sub = child(cur, bit).unwrap();
    let q = path_to(sub, sym).unwrap();
    assert(p =~= seq![bit] + q);
    assert(stream[0] == bit);
    assert(stream.drop_first() =~= q + rest);
    if sub.ch is Some {
        assert(q =~= Seq::<bool>::empty());
        assert(stream.drop_first() =~= rest);
    } else {
        lemma_walk_path(root, sub, true, sym, rest);
    }
}

/// Decoding the encoding of a sequence gives the sequence back, where the
/// code table is that of the tree and knows every symbol.
pub proof fn lemma_decode_encode(root: HuffmanNode, symbols: Seq<u8>)
    requires
        all_known(symbols, code_table(root)),
    ensures
        decoded(root, encoding(symbols, code_table(root))) == Ok::<Seq<u8>, DecodeError>(symbols),
    decreases symbols.len(),
{
    let table = code_table(root);
    if symbols.len() == 0 {
        assert(symbols =~= Seq::<u8>::empty());
    } else {
        let sym = symbols[0];
        let rest = encoding(symbols.drop_first(), table);
        assert(table.contains_key(sym));
        assert forall|i: int| 0 <= i < symbols.drop_first().len() implies table.contains_key(
            #[trigger] symbols.drop_first()[i],
        ) by {
            assert(symbols.drop_first()[i] == symbols[i + 1]);
        }
        lemma_decode_encode(root, symbols.drop_first());
        let stream = code_bits(table, sym) + rest;
        if root.ch is Some {
            assert(code_bits(table, sym) =~= seq![false]);
            assert(stream[0] == false);
            assert(stream.drop_first() =~= rest);
        } else {
            let p = path_to(root, sym).unwrap();
            lemma_bits_of_digits(p);
            lemma_walk_path(root, root, false, sym, rest);
        }
        assert(seq![sym] + symbols.drop_first() =~= symbols);
    }
}

/// Writing the bits out in bytes and reading them back changes nothing of
/// what they decode to.
pub proof fn lemma_decoding_packed(root: HuffmanNode, stream: Seq<bool>)
    ensures
        decoding(root, pack(stream), stream.len()) == decoded(root, stream),
{
    lemma_unpack_pack(stream);
}

/// Appends the bits of `code` to `stream`.
fn append_code(stream: &mut Vec<bool>, code: &String)
    ensures
        final(stream)@ == old(stream)@ + bits_of(code@),
{
    let chars = code.as_str().chars();
    for c in it: chars
        invariant
            it.seq() == code@,
            stream@ == old(stream)@ + bits_of(code@.take(it.index())),
    {
        proof {
            assert(c == code@[it.index()]);
            assert(bits_of(code@.take(it.index() + 1)) =~= bits_of(code@.take(it.index())).push(
                c == '1',
            ));
        }
        stream.push(c == '1');
    }
    proof {
        assert(code@.take(code@.len() as int) =~= code@);
    }
}

/// Writes `symbols` as the concatenation of their codes, packed into bytes,
/// and returns the bytes with the number of bits that count. Fails where a
/// symbol has no code.
pub fn encode(symbols: &[u8], codes: &HashMap<u8, String>) -> (r: Result<
    (Vec<u8>, usize),
    EncodeError,
>)
    ensures
        r is Ok <==> all_known(symbols@, table_view(codes@)),
        r matches Ok((packed, bit_count)) ==> bit_count == encoding(
            symbols@,
            table_view(codes@),
        ).len() && packed@ == pack(encoding(symbols@, table_view(codes@))),
        r matches Err(e) ==> e == EncodeError::UnknownSymbol,
{
    let ghost table = table_view(codes@);
    let mut stream: Vec<bool> = Vec::new();
    let mut i: usize = 0;
    while i < symbols.len()
        invariant
            i <= symbols.len(),
            table == table_view(codes@),
            all_known(symbols@.take(i as int), table),
            stream@ == encoding(symbols@.take(i as int), table),
        decreases symbols.len() - i,
    {
        let sym = symbols[i];
        match codes.get(&sym) {
            None => {
                assert(!table.contains_key(symbols@[i as int]));
                return Err(EncodeError::UnknownSymbol);
            },
            Some(code) => {
                proof {
                    assert(symbols@.take(i + 1) =~= symbols@.take(i as int).push(sym));
                    lemma_encoding_push(symbols@.take(i as int), sym, table);
                    assert(table[sym] == code@);
                }
                append_code(&mut stream, code);
            },
        }
        i += 1;
    }
    proof {
        assert(symbols@.take(i as int) =~= symbols@);
    }
    let packed = pack_bits(&stream);
    Ok((packed, stream.len()))
}

/// Reads the first `bit_count` bits of `bits` as codes of the tree at
/// `root`: a `0` bit goes left, a `1` bit right, and each leaf reached gives
/// its symbol and sends the walk back to the root. Fails where the bits end
/// in the middle of a code or a bit asks for a missing subtree.
pub fn decode(bits: &[u8], bit_count: usize, root: &HuffmanNode) -> (r: Result<
    Vec<u8>,
    DecodeError,
>)
    ensures
        agrees(r, decoding(*root, bits@, bit_count as nat)),
{
    let needed = bit_count / 8 + if bit_count % 8 == 0 {
        0
    } else {
        1
    };
    assert(needed == packed_len(bit_count as nat));
    if needed > bits.len() {
        return Err(DecodeError::TruncatedStream);
    }
    let ghost stream = unpack(bits@, bit_count as nat);
    let mut out: Vec<u8> = Vec::new();
    let mut cur: &HuffmanNode = root;
    let mut mid = false;
    let mut i: usize = 0;
    proof {
        assert(stream.skip(0) =~= stream);
        if let Ok(all) = decoded(*root, stream) {
            assert(out@ + all =~= all);
        }
    }
    while i < bit_count
        invariant
            i <= bit_count,
            packed_len(bit_count as nat) <= bits.len(),
            stream == unpack(bits@, bit_count as nat),
            decoded(*root, stream) == prefixed(out@, walk(*root, *cur, mid, stream.skip(i as int))),
            !mid ==> *cur == *root,
            mid ==> cur.ch is None,
        decreases bit_count - i,
    {
        let bit = read_bit(bits, i);
        let ghost tail = stream.skip(i as int);
        proof {
            assert(tail[0] == bit);
            assert(tail.drop_first() =~= stream.skip(i + 1));
        }
        let next: Option<&HuffmanNode> = if cur.ch.is_some() {
            if bit {
                None
            } else {
                Some(cur)
            }
        } else if bit {
            match &cur.r {
                Some(sub) => Some(&**sub),
                None => None,
            }
        } else {
            match &cur.l {
                Some(sub) => Some(&**sub),
                None => None,
            }
        };
        assert(step(*cur, bit) == match next {
            Some(n) => Some(*n),
            None => None,
        });
        match next {
            None => {
                return Err(DecodeError::CorruptTree);
            },
            Some(n) => match n.ch {
                Some(sym) => {
                    proof {
                        let after = walk(*root, *root, false, stream.skip(i + 1));
                        assert(prefixed(out@, prefixed(seq![sym], after)) == prefixed(
                            out@.push(sym),
                            after,
                        )) by {
                            if let Ok(more) = after {
                                assert(out@ + (seq![sym] + more) =~= out@.push(sym) + more);
                            }
                        }
                    }
                    out.push(sym);
                    cur = root;
                    mid = false;
                },
                None => {
                    cur = n;
                    mid = true;
                },
            },
        }
        i += 1;
    }
    proof {
        assert(stream.skip(i as int).len() == 0);
        assert(out@ + Seq::<u8>::empty() =~= out@);
    }
    if mid {
        Err(DecodeError::TruncatedStream)
    } else {
        Ok(out)
    }
}

} // verus!
