//! Finite sums of integer-valued terms, with the manipulation lemmas the
//! ring engine's proofs need: congruence, linearity, splitting, reversal,
//! and exchange of a double sum.

use vstd::prelude::*;

verus! {

/// The sum of `f(0) + f(1) + ... + f(n - 1)`.
pub open spec fn sum_terms(n: nat, f: spec_fn(int) -> int) -> int
    decreases n,
{
    if n == 0 {
        0
    } else {
        sum_terms((n - 1) as nat, f) + f(n - 1)
    }
}

/// Two term functions that agree below `n` have the same sum.
pub proof fn lemma_sum_congruence(n: nat, f: spec_fn(int) -> int, g: spec_fn(int) -> int)
    requires
        forall|i: int| 0 <= i < n ==> #[trigger] f(i) == g(i),
    ensures
        sum_terms(n, f) == sum_terms(n, g),
    decreases n,
{
    if n > 0 {
        lemma_sum_congruence((n - 1) as nat, f, g);
    }
}

/// A sum of zeros is zero.
pub proof fn lemma_sum_zero(n: nat, f: spec_fn(int) -> int)
    requires
        forall|i: int| 0 <= i < n ==> #[trigger] f(i) == 0,
    ensures
        sum_terms(n, f) == 0,
    decreases n,
{
    if n > 0 {
        lemma_sum_zero((n - 1) as nat, f);
    }
}

/// Sums add termwise.
pub proof fn lemma_sum_add(
    n: nat,
    f: spec_fn(int) -> int,
    g: spec_fn(int) -> int,
    h: spec_fn(int) -> int,
)
    requires
        forall|i: int| 0 <= i < n ==> #[trigger] h(i) == f(i) + g(i),
    ensures
        sum_terms(n, h) == sum_terms(n, f) + sum_terms(n, g),
    decreases n,
{
    if n > 0 {
        lemma_sum_add((n - 1) as nat, f, g, h);
    }
}

/// A constant factor moves out of a sum.
pub proof fn lemma_sum_scale(n: nat, c: int, f: spec_fn(int) -> int, g: spec_fn(int) -> int)
    requires
        forall|i: int| 0 <= i < n ==> #[trigger] g(i) == c * f(i),
    ensures
        sum_terms(n, g) == c * sum_terms(n, f),
    decreases n,
{
    if n > 0 {
        lemma_sum_scale((n - 1) as nat, c, f, g);
        let s = sum_terms((n - 1) as nat, f);
        let t = f(n - 1);
        assert(c * (s + t) == c * s + c * t) by (nonlinear_arith);
    }
}

/// Sums are monotone termwise.
pub proof fn lemma_sum_le(n: nat, f: spec_fn(int) -> int, g: spec_fn(int) -> int)
    requires
        forall|i: int| 0 <= i < n ==> #[trigger] f(i) <= #[trigger] g(i),
    ensures
        sum_terms(n, f) <= sum_terms(n, g),
    decreases n,
{
    if n > 0 {
        lemma_sum_le((n - 1) as nat, f, g);
    }
}

/// A sum of terms bounded by `c` is bounded by `n * c`.
pub proof fn lemma_sum_bound(n: nat, c: int, f: spec_fn(int) -> int)
    requires
        forall|i: int| 0 <= i < n ==> -c <= #[trigger] f(i) <= c,
    ensures
        -(n * c) <= sum_terms(n, f) <= n * c,
    decreases n,
{
    if n > 0 {
        lemma_sum_bound((n - 1) as nat, c, f);
        assert((n - 1) * c + c == n * c) by (nonlinear_arith);
    }
}

/// Each term of a sum of nonnegative terms is at most the whole sum.
pub proof fn lemma_sum_nonneg_term_le(n: nat, f: spec_fn(int) -> int, k: int)
    requires
        forall|i: int| 0 <= i < n ==> #[trigger] f(i) >= 0,
        0 <= k < n,
    ensures
        0 <= f(k) <= sum_terms(n, f),
        sum_terms(n, f) >= 0,
    decreases n,
{
    if k == n - 1 {
        lemma_sum_nonneg((n - 1) as nat, f);
    } else {
        lemma_sum_nonneg_term_le((n - 1) as nat, f, k);
    }
}

/// A sum of nonnegative terms is nonnegative.
pub proof fn lemma_sum_nonneg(n: nat, f: spec_fn(int) -> int)
    requires
        forall|i: int| 0 <= i < n ==> #[trigger] f(i) >= 0,
    ensures
        sum_terms(n, f) >= 0,
    decreases n,
{
    if n > 0 {
        lemma_sum_nonneg((n - 1) as nat, f);
    }
}

/// A prefix of a sum of nonnegative terms is at most the whole sum.
pub proof fn lemma_sum_nonneg_prefix_le(n: nat, m: nat, f: spec_fn(int) -> int)
    requires
        m <= n,
        forall|i: int| 0 <= i < n ==> #[trigger] f(i) >= 0,
    ensures
        sum_terms(m, f) <= sum_terms(n, f),
    decreases n,
{
    if m < n && n > 0 {
        lemma_sum_nonneg_prefix_le((n - 1) as nat, m, f);
    }
}

/// Splitting a sum at position `k`: the tail is a sum over shifted indices.
pub proof fn lemma_sum_split(n: nat, k: nat, f: spec_fn(int) -> int, g: spec_fn(int) -> int)
    requires
        k <= n,
        forall|i: int| 0 <= i < n - k ==> #[trigger] g(i) == f(i + k),
    ensures
        sum_terms(n, f) == sum_terms(k, f) + sum_terms((n - k) as nat, g),
    decreases n,
{
    if n > k {
        lemma_sum_split((n - 1) as nat, k, f, g);
    }
}

/// Trailing zero terms do not change a sum.
pub proof fn lemma_sum_zero_tail(m: nat, n: nat, f: spec_fn(int) -> int)
    requires
        m <= n,
        forall|i: int| m <= i < n ==> #[trigger] f(i) == 0,
    ensures
        sum_terms(n, f) == sum_terms(m, f),
    decreases n,
{
    if n > m {
        lemma_sum_zero_tail(m, (n - 1) as nat, f);
    }
}

/// Reversing the order of the terms keeps the sum.
pub proof fn lemma_sum_reverse(n: nat, f: spec_fn(int) -> int, g: spec_fn(int) -> int)
    requires
        forall|i: int| 0 <= i < n ==> #[trigger] g(i) == f(n - 1 - i),
    ensures
        sum_terms(n, g) == sum_terms(n, f),
    decreases n,
{
    if n > 0 {
        let f1 = |i: int| f(i + 1);
        assert forall|i: int| 0 <= i < n - 1 implies #[trigger] g(i) == f1((n - 1) - 1 - i) by {}
        lemma_sum_reverse((n - 1) as nat, f1, g);
        lemma_sum_split(n, 1nat, f, f1);
        assert(sum_terms(0nat, f) == 0);
        assert(sum_terms(1nat, f) == f(0));
    }
}

/// A sum whose terms are a shifted copy of `h`, with `h` zero at
/// negative positions, equals the sum of `h` over the shorter range.
pub proof fn lemma_sum_shift_drop(n: nat, j: nat, f: spec_fn(int) -> int, h: spec_fn(int) -> int)
    requires
        j <= n,
        forall|i: int| 0 <= i < n ==> #[trigger] f(i) == h(i - j),
        forall|m: int| m < 0 ==> #[trigger] h(m) == 0,
    ensures
        sum_terms(n, f) == sum_terms((n - j) as nat, h),
{
    let g = |i: int| f(i + j);
    lemma_sum_split(n, j, f, g);
    assert forall|i: int| 0 <= i < j implies #[trigger] f(i) == 0 by {
        assert(h(i - j) == 0);
    }
    lemma_sum_zero(j, f);
    assert forall|i: int| 0 <= i < n - j implies #[trigger] g(i) == h(i) by {
        assert(f(i + j) == h(i));
    }
    lemma_sum_congruence((n - j) as nat, g, h);
}

/// Exchanging the order of summation in a double sum.
pub proof fn lemma_sum_exchange(
    n: nat,
    m: nat,
    f: spec_fn(int, int) -> int,
    rows: spec_fn(int) -> int,
    cols: spec_fn(int) -> int,
)
    requires
        forall|i: int| 0 <= i < n ==> #[trigger] rows(i) == sum_terms(m, (|j: int| f(i, j))),
        forall|j: int| 0 <= j < m ==> #[trigger] cols(j) == sum_terms(n, (|i: int| f(i, j))),
    ensures
        sum_terms(n, rows) == sum_terms(m, cols),
    decreases n,
{
    if n == 0 {
        lemma_sum_zero(m, cols);
    } else {
        let rows1 = rows;
        let cols1 = |j: int| sum_terms((n - 1) as nat, (|i: int| f(i, j)));
        lemma_sum_exchange((n - 1) as nat, m, f, rows, cols1);
        let last = |j: int| f(n - 1, j);
        lemma_sum_add(m, cols1, last, cols);
        assert(rows(n - 1) == sum_terms(m, last));
    }
}

} // verus!
