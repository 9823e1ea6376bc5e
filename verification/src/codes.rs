//! The code table of a Huffman tree: for each symbol the path to its leaf,
//! written as a string of the digits `0` and `1`.

use vstd::prelude::*;
use vstd::string::StringExecFns;
use std::collections::HashMap;
use crate::node::HuffmanNode;
use crate::tree::path_to;

verus! {

/// A path written out: `0` for left, `1` for right.
pub open spec fn digits(path: Seq<bool>) -> Seq<char> {
    path.map_values(
        |bit: bool|
            if bit {
                '1'
            } else {
                '0'
            },
    )
}

/// A code read as bits: the digit `1` is a set bit, any other character a
/// clear one.
pub open spec fn bits_of(code: Seq<char>) -> Seq<bool> {
    code.map_values(|c: char| c == '1')
}

/// The code of `sym` in the tree under `root`: the digits of the path to its
/// leaf. A tree that is a single leaf gives its symbol the code `0`.
pub open spec fn code_of(root: HuffmanNode, sym: u8) -> Option<Seq<char>> {
    match root.ch {
        Some(c) => if c == sym {
            Some(seq!['0'])
        } else {
            None
        },
        None => match path_to(root, sym) {
            Some(p) => Some(digits(p)),
            None => None,
        },
    }
}

/// The code table of the tree under `root`.
pub open spec fn code_table(root: HuffmanNode) -> Map<u8, Seq<char>> {
    Map::new(|sym: u8| code_of(root, sym) is Some, |sym: u8| code_of(root, sym).unwrap())
}

/// A table of strings, read as a table of character sequences.
pub open spec fn table_view(table: Map<u8, String>) -> Map<u8, Seq<char>> {
    table.map_values(|code: String| code@)
}

/// No code is a prefix of the code of another symbol.
pub open spec fn prefix_free(table: Map<u8, Seq<char>>) -> bool {
    forall|a: u8, b: u8|
        table.contains_key(a) && table.contains_key(b) && a != b ==> !(#[trigger] table[a])
            .is_prefix_of(#[trigger] table[b])
}

/// Reading back the digits of a path gives the path.
pub proof fn lemma_bits_of_digits(path: Seq<bool>)
    ensures
        bits_of(digits(path)) == path,
{
    assert(bits_of(digits(path)) =~= path);
}

/// Below an internal node, the path to one symbol is never the start of the
/// path to another.
pub proof fn lemma_paths_prefix_free(n: HuffmanNode, a: u8, b: u8)
    requires
        a != b,
        path_to(n, a) is Some,
        path_to(n, b) is Some,
    ensures
        !path_to(n, a).unwrap().is_prefix_of(path_to(n, b).unwrap()),
    decreases n,
{
    let pa = path_to(n, a).unwrap();
    let pb = path_to(n, b).unwrap();
    if n.ch is None {
        let right_a = match n.r {
            Some(r) => path_to(*r, a),
            None => None,
        };
        let right_b = match n.r {
            Some(r) => path_to(*r, b),
            None => None,
        };
        if pa.is_prefix_of(pb) {
            assert(pa[0] == pb.subrange(0, pa.len() as int)[0]);
            assert(pa[0] == pb[0]);
            let sub = if pa[0] {
                *n.r.unwrap()
            } else {
                *n.l.unwrap()
            };
            let qa = path_to(sub, a).unwrap();
            let qb = path_to(sub, b).unwrap();
            assert(pa.drop_first() =~= qa);
            assert(pb.drop_first() =~= qb);
            lemma_paths_prefix_free(sub, a, b);
            assert(qa =~= qb.subrange(0, qa.len() as int)) by {
                assert forall|k: int| 0 <= k < qa.len() implies qa[k] == qb[k] by {
                    assert(pa[k + 1] == pb.subrange(0, pa.len() as int)[k + 1]);
                }
            }
        }
    }
}

/// A derived code table is prefix-free, and none of its codes is empty.
pub proof fn lemma_code_table_prefix_free(root: HuffmanNode)
    ensures
        prefix_free(code_table(root)),
        forall|sym: u8|
            code_table(root).contains_key(sym) ==> (#[trigger] code_table(root)[sym]).len() > 0,
{
    let table = code_table(root);
    assert forall|a: u8, b: u8|
        table.contains_key(a) && table.contains_key(b) && a != b implies !(#[trigger] table[a])
            .is_prefix_of(#[trigger] table[b]) by {
        if root.ch is None {
            let pa = path_to(root, a).unwrap();
            let pb = path_to(root, b).unwrap();
            lemma_paths_prefix_free(root, a, b);
            if digits(pa).is_prefix_of(digits(pb)) {
                assert(pa =~= pb.subrange(0, pa.len() as int)) by {
                    assert forall|k: int| 0 <= k < pa.len() implies pa[k] == pb[k] by {
                        assert(digits(pa)[k] == digits(pb).subrange(0, pa.len() as int)[k]);
                    }
                }
            }
        }
    }
}

/// Records below `n` the code of every leaf: the digits in `s` followed by
/// the digits of the path from `n`. An entry that `e` already holds for such
/// a symbol is replaced; every other entry stays.
fn recursive_encoding(n: &HuffmanNode, e: &mut HashMap<u8, String>, s: String)
    ensures
        forall|sym: u8| #[trigger]
            final(e)@.contains_key(sym) <==> path_to(*n, sym) is Some || old(e)@.contains_key(sym),
        forall|sym: u8|
            path_to(*n, sym) is Some ==> (#[trigger] final(e)@[sym])@ == s@ + digits(
                path_to(*n, sym).unwrap(),
            ),
        forall|sym: u8|
            path_to(*n, sym) is None && old(e)@.contains_key(sym) ==> #[trigger] final(e)@[sym]
                == old(e)@[sym],
    decreases *n,
{
    if let Some(ch) = n.ch {
        assert(s@ + digits(Seq::<bool>::empty()) =~= s@);
        e.insert(ch, s);
    } else {
        if let Some(l) = &n.l {
            let down = s.clone().concat("0");
            proof {
                reveal_strlit("0");
                assert forall|sym: u8| path_to(**l, sym) is Some implies down@ + digits(
                    path_to(**l, sym).unwrap(),
                ) == s@ + digits(seq![false] + path_to(**l, sym).unwrap()) by {
                    assert(down@ + digits(path_to(**l, sym).unwrap()) =~= s@ + digits(
                        seq![false] + path_to(**l, sym).unwrap(),
                    ));
                }
            }
            recursive_encoding(l, e, down);
        }
        let ghost middle = e@;
        if let Some(r) = &n.r {
            let down = s.clone().concat("1");
            proof {
                reveal_strlit("1");
                assert forall|sym: u8| path_to(**r, sym) is Some implies down@ + digits(
                    path_to(**r, sym).unwrap(),
                ) == s@ + digits(seq![true] + path_to(**r, sym).unwrap()) by {
                    assert(down@ + digits(path_to(**r, sym).unwrap()) =~= s@ + digits(
                        seq![true] + path_to(**r, sym).unwrap(),
                    ));
                }
            }
            recursive_encoding(r, e, down);
        }
        proof {
            assert forall|sym: u8| #[trigger]
                e@.contains_key(sym) <==> path_to(*n, sym) is Some || old(e)@.contains_key(
                    sym,
                ) by {
                let in_left = match n.l {
                    Some(l) => path_to(*l, sym),
                    None => None,
                };
                assert(middle.contains_key(sym) <==> in_left is Some || old(e)@.contains_key(sym));
            }
            assert forall|sym: u8| path_to(*n, sym) is Some implies (#[trigger] e@[sym])@ == s@
                + digits(path_to(*n, sym).unwrap()) by {
                let in_right = match n.r {
                    Some(r) => path_to(*r, sym),
                    None => None,
                };
                if in_right is None {
                    assert(middle.contains_key(sym));
                    assert(e@[sym] == middle[sym]);
                }
            }
            assert forall|sym: u8|
                path_to(*n, sym) is None && old(e)@.contains_key(sym) implies #[trigger] e@[sym]
                == old(e)@[sym] by {
                assert(middle.contains_key(sym));
                assert(middle[sym] == old(e)@[sym]);
                assert(e@[sym] == middle[sym]);
            }
        }
    }
}

/// The code table of the tree under `root`, with every code as a string of
/// the digits `0` and `1`.
pub fn derive_codes(root: &HuffmanNode) -> (codes: HashMap<u8, String>)
    ensures
        table_view(codes@) == code_table(*root),
        prefix_free(table_view(codes@)),
{
    let mut encodings: HashMap<u8, String> = HashMap::new();
    if let Some(ch) = root.ch {
        let zero = String::from_str("0");
        proof {
            reveal_strlit("0");
            assert(zero@ =~= seq!['0']);
        }
        encodings.insert(ch, zero);
    } else {
        let start = String::new();
        proof {
            assert forall|sym: u8| path_to(*root, sym) is Some implies start@ + digits(
                path_to(*root, sym).unwrap(),
            ) == digits(path_to(*root, sym).unwrap()) by {
                assert(start@ + digits(path_to(*root, sym).unwrap()) =~= digits(
                    path_to(*root, sym).unwrap(),
                ));
            }
        }
        recursive_encoding(root, &mut encodings, start);
    }
    proof {
        assert forall|sym: u8| #[trigger]
            table_view(encodings@).contains_key(sym) <==> code_table(*root).contains_key(
                sym,
            ) by {
            assert(table_view(encodings@).contains_key(sym) <==> encodings@.contains_key(sym));
        }
        assert forall|sym: u8| #[trigger]
            table_view(encodings@).contains_key(sym) implies table_view(encodings@)[sym]
            == code_table(*root)[sym] by {
            assert(table_view(encodings@)[sym] == encodings@[sym]@);
        }
        assert(table_view(encodings@) =~= code_table(*root));
        lemma_code_table_prefix_free(*root);
    }
    encodings
}

} // verus!
