//! Sums over sequences of integers.

use vstd::prelude::*;

verus! {

/// The numbers of a sequence, added up.
pub open spec fn sum_of(vals: Seq<int>) -> int
    decreases vals.len(),
{
    if vals.len() == 0 {
        0
    } else {
        sum_of(vals.drop_last()) + vals.last()
    }
}

/// One more number at the end adds that number to the sum.
pub proof fn lemma_sum_push(vals: Seq<int>, x: int)
    ensures
        sum_of(vals.push(x)) == sum_of(vals) + x,
{
    assert(vals.push(x).drop_last() =~= vals);
}

/// The sum of two sequences in a row is the sum of their sums.
pub proof fn lemma_sum_concat(a: Seq<int>, b: Seq<int>)
    ensures
        sum_of(a + b) == sum_of(a) + sum_of(b),
    decreases b.len(),
{
    if b.len() == 0 {
        assert(a + b =~= a);
    } else {
        lemma_sum_concat(a, b.drop_last());
        assert((a + b).drop_last() =~= a + b.drop_last());
    }
}

/// Taking a number out takes it off the sum.
pub proof fn lemma_sum_remove(vals: Seq<int>, k: int)
    requires
        0 <= k < vals.len(),
    ensures
        sum_of(vals.remove(k)) == sum_of(vals) - vals[k],
    decreases vals.len(),
{
    if k == vals.len() - 1 {
        assert(vals.remove(k) =~= vals.drop_last());
    } else {
        lemma_sum_remove(vals.drop_last(), k);
        assert(vals.remove(k) =~= vals.drop_last().remove(k).push(vals.last()));
        lemma_sum_push(vals.drop_last().remove(k), vals.last());
    }
}

/// Putting a number in the place of another changes the sum by their
/// difference.
pub proof fn lemma_sum_update(vals: Seq<int>, k: int, x: int)
    requires
        0 <= k < vals.len(),
    ensures
        sum_of(vals.update(k, x)) == sum_of(vals) - vals[k] + x,
    decreases vals.len(),
{
    if k == vals.len() - 1 {
        assert(vals.update(k, x) =~= vals.drop_last().push(x));
        lemma_sum_push(vals.drop_last(), x);
    } else {
        lemma_sum_update(vals.drop_last(), k, x);
        assert(vals.update(k, x) =~= vals.drop_last().update(k, x).push(vals.last()));
        lemma_sum_push(vals.drop_last().update(k, x), vals.last());
    }
}

/// A sum of numbers that are not negative is not negative.
pub proof fn lemma_sum_nonnegative(vals: Seq<int>)
    requires
        forall|i: int| 0 <= i < vals.len() ==> vals[i] >= 0,
    ensures
        sum_of(vals) >= 0,
    decreases vals.len(),
{
    if vals.len() > 0 {
        lemma_sum_nonnegative(vals.drop_last());
    }
}

/// A sum of zeros is zero.
pub proof fn lemma_sum_zeros(vals: Seq<int>)
    requires
        forall|i: int| 0 <= i < vals.len() ==> vals[i] == 0,
    ensures
        sum_of(vals) == 0,
    decreases vals.len(),
{
    if vals.len() > 0 {
        lemma_sum_zeros(vals.drop_last());
    }
}

/// A sum of even numbers is even.
pub proof fn lemma_sum_even(vals: Seq<int>)
    requires
        forall|i: int| 0 <= i < vals.len() ==> vals[i] % 2 == 0,
    ensures
        sum_of(vals) % 2 == 0,
    decreases vals.len(),
{
    if vals.len() > 0 {
        lemma_sum_even(vals.drop_last());
    }
}

/// Where every number is `c` times the one in the same place of another
/// sequence, the sum is `c` times the sum of that one.
pub proof fn lemma_sum_scaled(vals: Seq<int>, scaled: Seq<int>, c: int)
    requires
        scaled.len() == vals.len(),
        forall|i: int| 0 <= i < vals.len() ==> scaled[i] == c * vals[i],
    ensures
        sum_of(scaled) == c * sum_of(vals),
    decreases vals.len(),
{
    if vals.len() > 0 {
        lemma_sum_scaled(vals.drop_last(), scaled.drop_last(), c);
        assert(c * (sum_of(vals.drop_last()) + vals.last()) == c * sum_of(vals.drop_last()) + c
            * vals.last()) by (nonlinear_arith);
    } else {
        assert(c * 0 == 0);
    }
}

} // verus!
