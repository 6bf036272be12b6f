use vstd::prelude::*;

verus! {

/// `g(0) + g(1) + ... + g(k - 1)`, and zero when `k <= 0`.
pub open spec fn sum_to(g: spec_fn(int) -> int, k: int) -> int
    decreases k,
{
    if k <= 0 {
        0
    } else {
        sum_to(g, k - 1) + g(k - 1)
    }
}

/// Sums of functions that agree on `[0, k)` are equal.
pub proof fn lemma_sum_ext(a: spec_fn(int) -> int, b: spec_fn(int) -> int, k: int)
    requires
        forall|i: int| 0 <= i < k ==> #[trigger] a(i) == b(i),
    ensures
        sum_to(a, k) == sum_to(b, k),
    decreases k,
{
    if k > 0 {
        lemma_sum_ext(a, b, k - 1);
    }
}

/// The sum of a pointwise sum is the sum of the sums.
pub proof fn lemma_sum_add(a: spec_fn(int) -> int, b: spec_fn(int) -> int, k: int)
    ensures
        sum_to(|i: int| a(i) + b(i), k) == sum_to(a, k) + sum_to(b, k),
    decreases k,
{
    if k > 0 {
        lemma_sum_add(a, b, k - 1);
    }
}

/// The sum of the negation is the negated sum.
pub proof fn lemma_sum_neg(a: spec_fn(int) -> int, k: int)
    ensures
        sum_to(|i: int| -a(i), k) == -sum_to(a, k),
    decreases k,
{
    if k > 0 {
        lemma_sum_neg(a, k - 1);
    }
}

/// Sums are monotone in the summand.
pub proof fn lemma_sum_le(a: spec_fn(int) -> int, b: spec_fn(int) -> int, k: int)
    requires
        forall|i: int| 0 <= i < k ==> #[trigger] a(i) <= b(i),
    ensures
        sum_to(a, k) <= sum_to(b, k),
    decreases k,
{
    if k > 0 {
        lemma_sum_le(a, b, k - 1);
    }
}

/// A sum of zeros is zero.
pub proof fn lemma_sum_zero(a: spec_fn(int) -> int, k: int)
    requires
        forall|i: int| 0 <= i < k ==> #[trigger] a(i) == 0,
    ensures
        sum_to(a, k) == 0,
    decreases k,
{
    if k > 0 {
        lemma_sum_zero(a, k - 1);
    }
}

/// A sum of non-negative terms is non-negative.
pub proof fn lemma_sum_nonneg(a: spec_fn(int) -> int, k: int)
    requires
        forall|i: int| 0 <= i < k ==> #[trigger] a(i) >= 0,
    ensures
        sum_to(a, k) >= 0,
    decreases k,
{
    if k > 0 {
        lemma_sum_nonneg(a, k - 1);
    }
}

/// Changing one term changes the sum by the same amount.
pub proof fn lemma_sum_point(a: spec_fn(int) -> int, b: spec_fn(int) -> int, k: int, j: int)
    requires
        0 <= j < k,
        forall|i: int| 0 <= i < k && i != j ==> #[trigger] a(i) == b(i),
    ensures
        sum_to(b, k) == sum_to(a, k) - a(j) + b(j),
    decreases k,
{
    if k - 1 == j {
        lemma_sum_ext(a, b, k - 1);
    } else {
        lemma_sum_point(a, b, k - 1, j);
    }
}

/// A sum with a single non-zero term is that term.
pub proof fn lemma_sum_single(a: spec_fn(int) -> int, k: int, j: int)
    requires
        0 <= j < k,
        forall|i: int| 0 <= i < k && i != j ==> #[trigger] a(i) == 0,
    ensures
        sum_to(a, k) == a(j),
{
    let z = |i: int| 0int;
    lemma_sum_zero(z, k);
    lemma_sum_point(z, a, k, j);
}

/// A sum of non-negative terms is at least any one of them.
pub proof fn lemma_sum_ge_one(a: spec_fn(int) -> int, k: int, j: int)
    requires
        0 <= j < k,
        forall|i: int| 0 <= i < k ==> #[trigger] a(i) >= 0,
    ensures
        sum_to(a, k) >= a(j),
{
    let b = |i: int| if i == j { a(i) } else { 0 };
    lemma_sum_le(b, a, k);
    lemma_sum_single(b, k, j);
}

/// Splitting a sum by a predicate on the index.
pub proof fn lemma_sum_split(a: spec_fn(int) -> int, side: spec_fn(int) -> bool, k: int)
    ensures
        sum_to(a, k) == sum_to(|i: int| if side(i) { a(i) } else { 0 }, k) + sum_to(
            |i: int| if side(i) { 0 } else { a(i) },
            k,
        ),
{
    let p = |i: int| if side(i) { a(i) } else { 0 };
    let q = |i: int| if side(i) { 0 } else { a(i) };
    lemma_sum_add(p, q, k);
    lemma_sum_ext(a, |i: int| p(i) + q(i), k);
}

} // verus!
