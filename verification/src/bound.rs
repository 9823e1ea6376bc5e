//! Compression never takes more than eight bits for a byte: the encoding is
//! as long as the tree costs, and a cheapest tree over at most 256 leaves
//! costs no more than one with every leaf at depth eight.

use vstd::prelude::*;
use vstd::seq_lib::*;
use crate::builder::huffman_tree_for;
use crate::codec::{all_known, code_bits, encoding};
use crate::codes::code_table;
use crate::forest::{costs, holds_entries, is_entry, leaf_row, lemma_leaf_row, weights};
use crate::freq::{frequency_table, lemma_occurrences, lemma_total_weight, occurrences};
use crate::node::HuffmanNode;
use crate::optimal::{feasible, lemma_greedy_beats, shares, two_to, weighted_depths};
use crate::sums::{lemma_sum_scaled, lemma_sum_zeros, sum_of};
use crate::tree::{
    cost, is_full, is_weighted, leaves, lemma_path_iff_leaf, path_to, symbols_of,
};

verus! {

/// The length of the path to the leaf of `sym` below `n`; zero where there
/// is none.
pub open spec fn depth_of(n: HuffmanNode, sym: u8) -> nat {
    match path_to(n, sym) {
        Some(p) => p.len(),
        None => 0,
    }
}

/// The lengths of the paths below `n` to the symbols of `content`, added up.
pub open spec fn path_bits(n: HuffmanNode, content: Seq<u8>) -> nat
    decreases content.len(),
{
    if content.len() == 0 {
        0
    } else {
        depth_of(n, content[0]) + path_bits(n, content.drop_first())
    }
}

/// How many symbols of `content` have a leaf below `n`.
pub open spec fn hits(n: HuffmanNode, content: Seq<u8>) -> nat
    decreases content.len(),
{
    if content.len() == 0 {
        0
    } else {
        hits(n, content.drop_first()) + if path_to(n, content[0]) is Some {
            1nat
        } else {
            0nat
        }
    }
}

/// No symbol has a leaf below both.
pub open spec fn apart(l: HuffmanNode, r: HuffmanNode) -> bool {
    forall|sym: u8| !(#[trigger] path_to(l, sym) is Some && path_to(r, sym) is Some)
}

/// The tree under `n` fits `content`: a leaf weighs as often as its symbol
/// occurs, an internal node has two subtrees that fit, share no symbol and
/// weigh together what it weighs.
pub open spec fn fits(n: HuffmanNode, content: Seq<u8>) -> bool
    decreases n,
{
    match n.ch {
        Some(sym) => n.f == occurrences(content, sym),
        None => match (n.l, n.r) {
            (Some(l), Some(r)) => n.f == l.f + r.f && fits(*l, content) && fits(*r, content)
                && apart(*l, *r),
            _ => false,
        },
    }
}

/// No leaf of `n` is anything but an entry of the table, and none is there
/// twice.
pub open spec fn leaves_are_entries(n: HuffmanNode, freqs: Map<u8, u64>) -> bool {
    forall|e: (u8, u64)| #[trigger]
        leaves(n).to_multiset().count(e) <= if is_entry(freqs, e) {
            1nat
        } else {
            0nat
        }
}

/// The first symbol of a sequence occurs once more in it than in the rest.
proof fn lemma_occurrences_first(content: Seq<u8>, sym: u8)
    requires
        content.len() > 0,
    ensures
        occurrences(content, sym) == occurrences(content.drop_first(), sym) + if content[0]
            == sym {
            1nat
        } else {
            0nat
        },
{
    broadcast use group_to_multiset_ensures;

    let first = Seq::<u8>::empty().push(content[0]);
    assert(content =~= first + content.drop_first());
    lemma_multiset_commutative(first, content.drop_first());
}

/// Below a leaf every path is empty, and the symbols that have a leaf are
/// the occurrences of its symbol.
proof fn lemma_leaf_hits(n: HuffmanNode, content: Seq<u8>)
    requires
        n.ch is Some,
    ensures
        hits(n, content) == occurrences(content, n.ch.unwrap()),
        path_bits(n, content) == 0,
    decreases content.len(),
{
    if content.len() > 0 {
        lemma_leaf_hits(n, content.drop_first());
        lemma_occurrences_first(content, n.ch.unwrap());
    } else {
        lemma_occurrences(content, n.ch.unwrap());
    }
}

/// Below an internal node whose subtrees share no symbol, every path is one
/// longer than the path below the subtree that has the symbol.
proof fn lemma_split(n: HuffmanNode, content: Seq<u8>)
    requires
        n.ch is None,
        n.l is Some,
        n.r is Some,
        apart(*n.l.unwrap(), *n.r.unwrap()),
    ensures
        hits(n, content) == hits(*n.l.unwrap(), content) + hits(*n.r.unwrap(), content),
        path_bits(n, content) == path_bits(*n.l.unwrap(), content) + path_bits(
            *n.r.unwrap(),
            content,
        ) + hits(*n.l.unwrap(), content) + hits(*n.r.unwrap(), content),
    decreases content.len(),
{
    if content.len() > 0 {
        lemma_split(n, content.drop_first());
        let sym = content[0];
        let l = *n.l.unwrap();
        let r = *n.r.unwrap();
        assert(!(path_to(l, sym) is Some && path_to(r, sym) is Some));
        if path_to(r, sym) is Some {
            assert(path_to(n, sym).unwrap() =~= seq![true] + path_to(r, sym).unwrap());
        } else if path_to(l, sym) is Some {
            assert(path_to(n, sym).unwrap() =~= seq![false] + path_to(l, sym).unwrap());
        }
    }
}

/// In a tree that fits the content, every subtree weighs as many symbols of
/// the content as have a leaf in it, and the paths to the symbols of the
/// content are together as long as the tree costs.
pub proof fn lemma_fits_cost(n: HuffmanNode, content: Seq<u8>)
    requires
        fits(n, content),
    ensures
        hits(n, content) == n.f,
        path_bits(n, content) == cost(n),
    decreases n,
{
    if n.ch is Some {
        lemma_leaf_hits(n, content);
    } else {
        lemma_fits_cost(*n.l.unwrap(), content);
        lemma_fits_cost(*n.r.unwrap(), content);
        lemma_split(n, content);
    }
}

/// Under the code table of an internal root that knows every symbol, the
/// encoding has one bit for each step of each path.
pub proof fn lemma_encoding_len(root: HuffmanNode, content: Seq<u8>)
    requires
        root.ch is None,
        all_known(content, code_table(root)),
    ensures
        encoding(content, code_table(root)).len() == path_bits(root, content),
    decreases content.len(),
{
    if content.len() > 0 {
        let rest = content.drop_first();
        assert forall|i: int| 0 <= i < rest.len() implies code_table(root).contains_key(
            #[trigger] rest[i],
        ) by {
            assert(rest[i] == content[i + 1]);
        }
        lemma_encoding_len(root, rest);
        assert(code_table(root).contains_key(content[0]));
        assert(code_bits(code_table(root), content[0]).len() == depth_of(root, content[0]));
    }
}

/// Under the code table of a single leaf, the encoding has at most one bit
/// for each symbol.
pub proof fn lemma_encoding_len_single(root: HuffmanNode, content: Seq<u8>)
    requires
        root.ch is Some,
    ensures
        encoding(content, code_table(root)).len() <= content.len(),
    decreases content.len(),
{
    if content.len() > 0 {
        lemma_encoding_len_single(root, content.drop_first());
    }
}

/// A strict binary tree with consistent weights whose leaves are entries of
/// the frequency table of the content, none of them twice, fits the content.
pub proof fn lemma_tree_fits(n: HuffmanNode, content: Seq<u8>)
    requires
        is_full(n),
        is_weighted(n),
        leaves_are_entries(n, frequency_table(content)),
        content.len() <= u64::MAX,
    ensures
        fits(n, content),
    decreases n,
{
    let freqs = frequency_table(content);
    match n.ch {
        Some(sym) => {
            let e = (sym, n.f);
            assert(leaves(n) =~= Seq::<(u8, u64)>::empty().push(e));
            leaves(n).to_multiset_ensures();
            Seq::<(u8, u64)>::empty().to_multiset_ensures();
            assert(leaves(n).to_multiset().count(e) >= 1);
            assert(is_entry(freqs, e));
            lemma_occurrences(content, sym);
        },
        None => {
            let l = *n.l.unwrap();
            let r = *n.r.unwrap();
            lemma_multiset_commutative(leaves(l), leaves(r));
            assert(leaves(n) == leaves(l) + leaves(r));
            assert forall|e: (u8, u64)| #[trigger]
                leaves(l).to_multiset().count(e) <= if is_entry(freqs, e) {
                    1nat
                } else {
                    0nat
                } by {
                assert(leaves(n).to_multiset().count(e) == leaves(l).to_multiset().count(e)
                    + leaves(r).to_multiset().count(e));
            }
            assert forall|e: (u8, u64)| #[trigger]
                leaves(r).to_multiset().count(e) <= if is_entry(freqs, e) {
                    1nat
                } else {
                    0nat
                } by {
                assert(leaves(n).to_multiset().count(e) == leaves(l).to_multiset().count(e)
                    + leaves(r).to_multiset().count(e));
            }
            lemma_tree_fits(l, content);
            lemma_tree_fits(r, content);
            assert forall|sym: u8| !(#[trigger] path_to(l, sym) is Some && path_to(
                r,
                sym,
            ) is Some) by {
                if path_to(l, sym) is Some && path_to(r, sym) is Some {
                    lemma_path_iff_leaf(l, sym);
                    lemma_path_iff_leaf(r, sym);
                    let kl = choose|k: int|
                        0 <= k < leaves(l).len() && symbols_of(leaves(l))[k] == sym;
                    let kr = choose|k: int|
                        0 <= k < leaves(r).len() && symbols_of(leaves(r))[k] == sym;
                    let el = leaves(l)[kl];
                    let er = leaves(r)[kr];
                    leaves(l).to_multiset_ensures();
                    leaves(r).to_multiset_ensures();
                    assert(leaves(l).contains(el));
                    assert(leaves(r).contains(er));
                    assert(leaves(l).to_multiset().count(el) >= 1);
                    assert(leaves(r).to_multiset().count(er) >= 1);
                    assert(is_entry(freqs, el));
                    assert(is_entry(freqs, er));
                    assert(el == er);
                    assert(leaves(n).to_multiset().count(el) == leaves(l).to_multiset().count(el)
                        + leaves(r).to_multiset().count(el));
                }
            }
        },
    }
}

/// A Huffman tree for a sequence has a code for every symbol of it.
pub proof fn lemma_tree_knows_content(t: HuffmanNode, content: Seq<u8>)
    requires
        holds_entries(t, frequency_table(content)),
    ensures
        all_known(content, code_table(t)),
{
    let freqs = frequency_table(content);
    assert forall|i: int| 0 <= i < content.len() implies code_table(t).contains_key(
        #[trigger] content[i],
    ) by {
        let sym = content[i];
        assert(content.contains(sym));
        let e = (sym, freqs[sym]);
        assert(is_entry(freqs, e));
        assert(leaves(t).to_multiset().count(e) == 1);
        leaves(t).to_multiset_ensures();
        assert(leaves(t).contains(e));
        let k = choose|k: int| 0 <= k < leaves(t).len() && leaves(t)[k] == e;
        assert(symbols_of(leaves(t))[k] == sym);
        lemma_path_iff_leaf(t, sym);
    }
}

/// A Huffman tree for the bytes of a content costs at most eight times the
/// length of the content.
pub proof fn lemma_huffman_cost(t: HuffmanNode, content: Seq<u8>)
    requires
        huffman_tree_for(t, frequency_table(content)),
        content.len() <= u64::MAX,
    ensures
        cost(t) <= 8 * content.len(),
{
    let freqs = frequency_table(content);
    let row = leaf_row(freqs, 256);
    lemma_leaf_row(freqs, 256, (0u8, 0u64));
    lemma_total_weight(content);
    row.to_multiset_ensures();
    if row.len() == 0 {
        assert(row.to_multiset().count(t) == 1);
    }
    // every leaf at depth eight
    let depths = Seq::new(row.len(), |i: int| 8nat);
    let ones = Seq::new(row.len(), |i: int| 1int);
    assert(shares(depths, 8) =~= ones) by {
        reveal_with_fuel(two_to, 2);
    }
    lemma_ones(row.len());
    assert(two_to(8) == 256) by {
        reveal_with_fuel(two_to, 9);
    }
    assert(feasible(depths, 8));
    assert(costs(row) =~= Seq::new(row.len(), |i: int| 0int)) by {
        assert forall|i: int| 0 <= i < row.len() implies costs(row)[i] == 0 by {
            assert(row[i].ch is Some);
        }
    }
    lemma_sum_zeros(costs(row));
    assert forall|i: int| 0 <= i < row.len() implies weighted_depths(row, depths)[i] == 8
        * weights(row)[i] by {
        assert(depths[i] == 8);
    }
    lemma_sum_scaled(weights(row), weighted_depths(row, depths), 8);
    lemma_greedy_beats(row, depths, 8, t);
}

/// As many ones add up to their number.
proof fn lemma_ones(m: nat)
    ensures
        sum_of(Seq::new(m, |i: int| 1int)) == m,
    decreases m,
{
    let ones = Seq::new(m, |i: int| 1int);
    if m > 0 {
        lemma_ones((m - 1) as nat);
        assert(ones.drop_last() =~= Seq::new((m - 1) as nat, |i: int| 1int));
    }
}

/// Compression never takes more than eight bits for a byte: under the code
/// table of a Huffman tree for the content, the encoding of the content has
/// at most eight times as many bits as the content has bytes.
pub proof fn lemma_compression_bound(t: HuffmanNode, content: Seq<u8>)
    requires
        huffman_tree_for(t, frequency_table(content)),
        content.len() <= u64::MAX,
    ensures
        encoding(content, code_table(t)).len() <= 8 * content.len(),
{
    if t.ch is Some {
        lemma_encoding_len_single(t, content);
    } else {
        lemma_huffman_cost(t, content);
        lemma_tree_knows_content(t, content);
        lemma_tree_fits(t, content);
        lemma_fits_cost(t, content);
        lemma_encoding_len(t, content);
    }
}

} // verus!
