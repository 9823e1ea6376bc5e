//! The comparison policy of the priority queue, and the laws that a well
//! behaved element type obeys under it.

use vstd::prelude::*;
use vstd::std_specs::cmp::PartialOrdIs;
use vstd::std_specs::cmp::PartialOrdSpec;

verus! {

/// Which element a queue keeps at its top: the least or the greatest.
#[derive(Clone, Copy, Debug, PartialEq, Eq, Structural)]
pub enum HeapType {
    Min,
    Max,
}

/// `a` is strictly preferred over `b`: under `Min` it is less, under `Max`
/// it is greater.
pub open spec fn prefers<T: PartialOrd>(policy: HeapType, a: T, b: T) -> bool {
    match policy {
        HeapType::Min => a.is_lt(&b),
        HeapType::Max => a.is_gt(&b),
    }
}

/// The executable comparisons of `T` agree with its specification.
pub open spec fn comparable<T: PartialOrd>() -> bool {
    T::obeys_partial_cmp_spec()
}

/// Strict preference is asymmetric.
pub open spec fn asymmetric<T: PartialOrd>(policy: HeapType) -> bool {
    forall|a: T, b: T| #[trigger] prefers(policy, a, b) ==> !prefers(policy, b, a)
}

/// "Not preferred over" is transitive: where `a` does not beat `b` and `b`
/// does not beat `c`, `a` does not beat `c`.
pub open spec fn chained<T: PartialOrd>(policy: HeapType) -> bool {
    forall|a: T, b: T, c: T|
        !#[trigger] prefers(policy, a, b) && !#[trigger] prefers(policy, b, c) ==> !prefers(
            policy,
            a,
            c,
        )
}

/// `T` is ordered as a queue needs it under `policy`: its comparisons can be
/// relied on, and strict preference is a strict weak order (elements may tie,
/// but none is incomparable in a way that breaks transitivity).
#[verifier::opaque]
pub open spec fn lawful<T: PartialOrd>(policy: HeapType) -> bool {
    &&& comparable::<T>()
    &&& asymmetric::<T>(policy)
    &&& chained::<T>(policy)
}

/// A lawful type is comparable.
pub proof fn lemma_lawful_comparable<T: PartialOrd>(policy: HeapType)
    requires
        lawful::<T>(policy),
    ensures
        comparable::<T>(),
{
    reveal(lawful);
}

/// Under a lawful order no two elements beat each other.
pub proof fn lemma_asymmetric<T: PartialOrd>(policy: HeapType, a: T, b: T)
    requires
        lawful::<T>(policy),
        prefers(policy, a, b),
    ensures
        !prefers(policy, b, a),
{
    reveal(lawful);
}

/// Under a lawful order "does not beat" chains.
pub proof fn lemma_chained<T: PartialOrd>(policy: HeapType, a: T, b: T, c: T)
    requires
        lawful::<T>(policy),
        !prefers(policy, a, b),
        !prefers(policy, b, c),
    ensures
        !prefers(policy, a, c),
{
    reveal(lawful);
}

/// Under a lawful order strict preference is transitive.
pub proof fn lemma_transitive<T: PartialOrd>(policy: HeapType, a: T, b: T, c: T)
    requires
        lawful::<T>(policy),
        prefers(policy, a, b),
        prefers(policy, b, c),
    ensures
        prefers(policy, a, c),
{
    if !prefers(policy, a, c) {
        lemma_asymmetric(policy, b, c);
        lemma_chained(policy, a, c, b);
    }
}

/// Under a lawful order, whoever does not beat `b` does not beat an element
/// that beats `b`.
pub proof fn lemma_beaten_by_better<T: PartialOrd>(policy: HeapType, a: T, b: T, c: T)
    requires
        lawful::<T>(policy),
        prefers(policy, a, b),
        !prefers(policy, c, b),
    ensures
        !prefers(policy, c, a),
{
    if prefers(policy, c, a) {
        lemma_transitive(policy, c, a, b);
    }
}

/// The unsigned 64-bit integers are lawfully ordered under either policy.
pub proof fn lemma_u64_lawful(policy: HeapType)
    ensures
        lawful::<u64>(policy),
{
    reveal(lawful);
}

} // verus!
