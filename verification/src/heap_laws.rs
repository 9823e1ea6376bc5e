//! What holds of a queue over whole runs of operations.

use vstd::prelude::*;
use vstd::seq_lib::*;
use crate::heap_spec::{
    after_insert, after_pop, heap_ordered, lemma_after_insert, lemma_after_pop,
    lemma_root_is_extremal,
};
use crate::order::{lawful, lemma_u64_lawful, prefers, HeapType};

verus! {

/// One operation that changes a queue.
pub enum HeapOp<T> {
    Insert(T),
    Pop,
}

/// The backing sequence after one operation.
pub open spec fn applied<T: PartialOrd>(s: Seq<T>, op: HeapOp<T>, policy: HeapType) -> Seq<T> {
    match op {
        HeapOp::Insert(x) => after_insert(s, x, policy),
        HeapOp::Pop => after_pop(s, policy),
    }
}

/// The backing sequence of a queue that started empty and went through
/// `ops` in order.
pub open spec fn run<T: PartialOrd>(ops: Seq<HeapOp<T>>, policy: HeapType) -> Seq<T>
    decreases ops.len(),
{
    if ops.len() == 0 {
        Seq::empty()
    } else {
        applied(run(ops.drop_last(), policy), ops.last(), policy)
    }
}

/// The backing sequence of a queue into which `values` were inserted one by
/// one, starting empty.
pub open spec fn seeded<T: PartialOrd>(values: Seq<T>, policy: HeapType) -> Seq<T>
    decreases values.len(),
{
    if values.len() == 0 {
        Seq::empty()
    } else {
        after_insert(seeded(values.drop_last(), policy), values.last(), policy)
    }
}

/// The elements that `n` pops take out of `s`, in the order in which they
/// come; popping stops early where the queue runs empty.
pub open spec fn drained<T: PartialOrd>(s: Seq<T>, n: nat, policy: HeapType) -> Seq<T>
    decreases n,
{
    if n == 0 || s.len() == 0 {
        Seq::empty()
    } else {
        seq![s[0]] + drained(after_pop(s, policy), (n - 1) as nat, policy)
    }
}

/// No element of `out` is strictly preferred over one that stands before it.
pub open spec fn in_policy_order<T: PartialOrd>(out: Seq<T>, policy: HeapType) -> bool {
    forall|i: int, j: int| 0 <= i <= j < out.len() ==> !prefers(policy, out[j], out[i])
}

/// After any run of inserts and pops on a queue that started empty, the
/// queue is heap-ordered, and no element that it holds is strictly preferred
/// over its root: the root is what `peek` returns.
pub proof fn lemma_root_extremal_after_any_run<T: PartialOrd>(
    ops: Seq<HeapOp<T>>,
    policy: HeapType,
)
    requires
        lawful::<T>(policy),
    ensures
        heap_ordered(run(ops, policy), policy),
        forall|i: int|
            0 <= i < run(ops, policy).len() ==> !prefers(
                policy,
                #[trigger] run(ops, policy)[i],
                run(ops, policy)[0],
            ),
    decreases ops.len(),
{
    if ops.len() > 0 {
        let before = run(ops.drop_last(), policy);
        lemma_root_extremal_after_any_run(ops.drop_last(), policy);
        match ops.last() {
            HeapOp::Insert(x) => {
                lemma_after_insert(before, x, policy);
            },
            HeapOp::Pop => {
                if before.len() > 0 {
                    lemma_after_pop(before, policy);
                }
            },
        }
    }
    let s = run(ops, policy);
    assert forall|i: int| 0 <= i < s.len() implies !prefers(policy, #[trigger] s[i], s[0]) by {
        lemma_root_is_extremal(s, policy, i);
    }
}

/// Seeding a queue keeps every value and leaves the queue heap-ordered.
pub proof fn lemma_seeded<T: PartialOrd>(values: Seq<T>, policy: HeapType)
    ensures
        seeded(values, policy).len() == values.len(),
        seeded(values, policy).to_multiset() == values.to_multiset(),
        lawful::<T>(policy) ==> heap_ordered(seeded(values, policy), policy),
    decreases values.len(),
{
    broadcast use group_to_multiset_ensures;

    if values.len() > 0 {
        lemma_seeded(values.drop_last(), policy);
        lemma_after_insert(seeded(values.drop_last(), policy), values.last(), policy);
        assert(values =~= values.drop_last().push(values.last()));
    } else {
        assert(values =~= Seq::<T>::empty());
    }
}

/// Popping a heap-ordered queue until it is empty hands out every element
/// once, and none that is strictly preferred over one handed out before it.
pub proof fn lemma_drained<T: PartialOrd>(s: Seq<T>, policy: HeapType)
    requires
        lawful::<T>(policy),
        heap_ordered(s, policy),
    ensures
        drained(s, s.len(), policy).len() == s.len(),
        drained(s, s.len(), policy).to_multiset() == s.to_multiset(),
        in_policy_order(drained(s, s.len(), policy), policy),
    decreases s.len(),
{
    broadcast use group_to_multiset_ensures;

    if s.len() == 0 {
        assert(s =~= Seq::<T>::empty());
    } else {
        let rest = after_pop(s, policy);
        lemma_after_pop(s, policy);
        lemma_drained(rest, policy);
        let tail = drained(rest, rest.len(), policy);
        let out = drained(s, s.len(), policy);
        assert(out == seq![s[0]] + tail);
        assert(out.to_multiset() =~= s.to_multiset()) by {
            lemma_multiset_commutative(seq![s[0]], tail);
            assert(seq![s[0]] =~= Seq::<T>::empty().push(s[0]));
            assert(s.to_multiset().count(s[0]) > 0);
        }
        assert forall|i: int, j: int| 0 <= i <= j < out.len() implies !prefers(
            policy,
            out[j],
            out[i],
        ) by {
            if i == 0 {
                assert(out.to_multiset().count(out[j]) > 0);
                assert(s.contains(out[j]));
                let k = choose|k: int| 0 <= k < s.len() && s[k] == out[j];
                lemma_root_is_extremal(s, policy, k);
            } else {
                assert(out[i] == tail[i - 1]);
                assert(out[j] == tail[j - 1]);
            }
        }
    }
}

/// A queue seeded with `values` in any order and then popped as many times
/// hands the values back in policy order: never one that is strictly
/// preferred over one that came before. Under `Min` that is non-decreasing
/// order, under `Max` non-increasing.
pub proof fn lemma_pops_come_in_order<T: PartialOrd>(values: Seq<T>, policy: HeapType)
    requires
        lawful::<T>(policy),
    ensures
        drained(seeded(values, policy), values.len(), policy).len() == values.len(),
        drained(seeded(values, policy), values.len(), policy).to_multiset()
            == values.to_multiset(),
        in_policy_order(drained(seeded(values, policy), values.len(), policy), policy),
{
    lemma_seeded(values, policy);
    lemma_drained(seeded(values, policy), policy);
}

/// A `Min` queue of unsigned 64-bit integers, seeded with `values` in any
/// order and popped as many times, hands them back in non-decreasing order;
/// a `Max` queue hands them back in non-increasing order.
pub proof fn lemma_integers_come_sorted(values: Seq<u64>)
    ensures
        ({
            let out = drained(seeded(values, HeapType::Min), values.len(), HeapType::Min);
            &&& out.to_multiset() == values.to_multiset()
            &&& forall|i: int, j: int| 0 <= i <= j < out.len() ==> out[i] <= out[j]
        }),
        ({
            let out = drained(seeded(values, HeapType::Max), values.len(), HeapType::Max);
            &&& out.to_multiset() == values.to_multiset()
            &&& forall|i: int, j: int| 0 <= i <= j < out.len() ==> out[i] >= out[j]
        }),
{
    lemma_u64_lawful(HeapType::Min);
    lemma_u64_lawful(HeapType::Max);
    lemma_pops_come_in_order(values, HeapType::Min);
    lemma_pops_come_in_order(values, HeapType::Max);
    let up = drained(seeded(values, HeapType::Min), values.len(), HeapType::Min);
    assert forall|i: int, j: int| 0 <= i <= j < up.len() implies up[i] <= up[j] by {
        assert(!prefers(HeapType::Min, up[j], up[i]));
    }
    let down = drained(seeded(values, HeapType::Max), values.len(), HeapType::Max);
    assert forall|i: int, j: int| 0 <= i <= j < down.len() implies down[i] >= down[j] by {
        assert(!prefers(HeapType::Max, down[j], down[i]));
    }
}

} // verus!
