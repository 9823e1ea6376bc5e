//! The frequency table: how often each symbol occurs in an input.

use vstd::prelude::*;
use vstd::seq_lib::*;
use std::collections::HashMap;

verus! {

/// How often `sym` occurs in `content`.
pub open spec fn occurrences(content: Seq<u8>, sym: u8) -> nat {
    content.to_multiset().count(sym)
}

/// The table that gives each symbol of `content` the number of times it
/// occurs, and has no entry for any other symbol.
pub open spec fn frequency_table(content: Seq<u8>) -> Map<u8, u64> {
    Map::new(|sym: u8| content.contains(sym), |sym: u8| occurrences(content, sym) as u64)
}

/// The weight that a table gives to `sym`: its count, or nothing where it
/// has no entry.
pub open spec fn weight_in(freqs: Map<u8, u64>, sym: u8) -> int {
    if freqs.contains_key(sym) {
        freqs[sym] as int
    } else {
        0
    }
}

/// The counts of all symbols below `k`, added up.
pub open spec fn weight_below(freqs: Map<u8, u64>, k: int) -> int
    decreases k,
{
    if k <= 0 {
        0
    } else {
        weight_below(freqs, k - 1) + weight_in(freqs, (k - 1) as u8)
    }
}

/// All counts of a table, added up.
pub open spec fn total_weight(freqs: Map<u8, u64>) -> int {
    weight_below(freqs, 256)
}

/// A symbol occurs in a sequence exactly where its number of occurrences is
/// positive, and never more often than the sequence is long.
pub proof fn lemma_occurrences(content: Seq<u8>, sym: u8)
    ensures
        content.contains(sym) <==> occurrences(content, sym) > 0,
        occurrences(content, sym) <= content.len(),
{
    broadcast use group_to_multiset_ensures;

    assert(content.to_multiset().count(sym) <= content.to_multiset().len());
}

/// One more symbol at the end is one more occurrence of that symbol, and of
/// no other.
pub proof fn lemma_occurrences_push(content: Seq<u8>, last: u8, sym: u8)
    ensures
        occurrences(content.push(last), sym) == occurrences(content, sym) + if sym == last {
            1nat
        } else {
            0nat
        },
{
    broadcast use group_to_multiset_ensures;

}

/// Up to any symbol, the counts of the table of a sequence with one more
/// symbol add up to those of the shorter one, and one more where the new
/// symbol is among them.
proof fn lemma_weight_below_push(content: Seq<u8>, last: u8, k: int)
    requires
        0 <= k <= 256,
        content.len() < u64::MAX,
    ensures
        weight_below(frequency_table(content.push(last)), k) == weight_below(
            frequency_table(content),
            k,
        ) + if last < k {
            1int
        } else {
            0int
        },
    decreases k,
{
    if k > 0 {
        lemma_weight_below_push(content, last, k - 1);
        let sym = (k - 1) as u8;
        lemma_occurrences(content, sym);
        lemma_occurrences(content.push(last), sym);
        lemma_occurrences_push(content, last, sym);
    }
}

/// No symbol below `k` has an entry in the table of the empty sequence.
proof fn lemma_weight_below_empty(k: int)
    requires
        0 <= k <= 256,
    ensures
        weight_below(frequency_table(Seq::<u8>::empty()), k) == 0,
    decreases k,
{
    if k > 0 {
        lemma_weight_below_empty(k - 1);
    }
}

/// The counts of the table of a sequence add up to its length.
pub proof fn lemma_total_weight(content: Seq<u8>)
    requires
        content.len() <= u64::MAX,
    ensures
        total_weight(frequency_table(content)) == content.len(),
    decreases content.len(),
{
    if content.len() == 0 {
        assert(content =~= Seq::<u8>::empty());
        lemma_weight_below_empty(256);
    } else {
        lemma_total_weight(content.drop_last());
        assert(content =~= content.drop_last().push(content.last()));
        lemma_weight_below_push(content.drop_last(), content.last(), 256);
    }
}

/// Counts the occurrences of each symbol of `content`.
pub fn frequencies(content: &[u8]) -> (freqs: HashMap<u8, u64>)
    ensures
        freqs@ == frequency_table(content@),
{
    let mut freqs: HashMap<u8, u64> = HashMap::new();
    let mut i: usize = 0;
    proof {
        assert(freqs@ =~= frequency_table(content@.take(0)));
    }
    while i < content.len()
        invariant
            i <= content.len(),
            freqs@ == frequency_table(content@.take(i as int)),
        decreases content.len() - i,
    {
        let sym = content[i];
        let seen: u64 = match freqs.get(&sym) {
            Some(n) => *n,
            None => 0,
        };
        proof {
            let before = content@.take(i as int);
            assert(content@.take(i + 1) =~= before.push(sym));
            lemma_occurrences(before, sym);
            assert(seen == occurrences(before, sym));
            assert forall|other: u8| #[trigger]
                frequency_table(before.push(sym)).contains_key(other) <==> (other == sym
                    || frequency_table(before).contains_key(other)) by {
                lemma_occurrences(before, other);
                lemma_occurrences(before.push(sym), other);
                lemma_occurrences_push(before, sym, other);
            }
            let after = frequency_table(before.push(sym));
            assert forall|other: u8| after.contains_key(other) implies #[trigger] after[other]
                == if other == sym {
                (seen + 1) as u64
            } else {
                frequency_table(before)[other]
            } by {
                lemma_occurrences(before, other);
                lemma_occurrences_push(before, sym, other);
            }
            assert(freqs@.insert(sym, (seen + 1) as u64) =~= frequency_table(before.push(sym)));
        }
        freqs.insert(sym, seen + 1);
        i += 1;
    }
    proof {
        assert(content@.take(i as int) =~= content@);
    }
    freqs
}

} // verus!
