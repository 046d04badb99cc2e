//! The mathematical model of the ring engine: what each polynomial
//! operation returns, as functions over coefficient sequences of
//! unbounded integers.
//!
//! Coefficient sequences are indexed by degree; positions outside a
//! sequence count as zero, which models the zero-padding that addition
//! and convolution perform on operands of different lengths.

use vstd::prelude::*;
use vstd::math::abs;
use vstd::arithmetic::power::pow;
use crate::sums::sum_terms;

verus! {

/// The coefficient of `X^i`, with positions outside the sequence read as zero.
pub open spec fn coeff(s: Seq<int>, i: int) -> int {
    if 0 <= i < s.len() {
        s[i]
    } else {
        0
    }
}

/// The zero polynomial of length `n`.
pub open spec fn zero_poly(n: nat) -> Seq<int> {
    Seq::new(n, |i: int| 0)
}

/// Elementwise sum; the result's length is the longer operand's.
pub open spec fn add_spec(a: Seq<int>, b: Seq<int>) -> Seq<int> {
    Seq::new(
        if a.len() >= b.len() {
            a.len()
        } else {
            b.len()
        },
        |i: int| coeff(a, i) + coeff(b, i),
    )
}

/// Elementwise difference; the result's length is the longer operand's.
pub open spec fn sub_spec(a: Seq<int>, b: Seq<int>) -> Seq<int> {
    Seq::new(
        if a.len() >= b.len() {
            a.len()
        } else {
            b.len()
        },
        |i: int| coeff(a, i) - coeff(b, i),
    )
}

/// Elementwise sign flip.
pub open spec fn neg_spec(a: Seq<int>) -> Seq<int> {
    Seq::new(a.len(), |i: int| -a[i])
}

/// Elementwise multiplication by the integer `k`.
pub open spec fn scalar_mul_spec(a: Seq<int>, k: int) -> Seq<int> {
    Seq::new(a.len(), |i: int| a[i] * k)
}

/// The coefficient of `X^k` in the product `a * b`:
/// the convolution sum over all index pairs `(i, k - i)`.
pub open spec fn conv_at(a: Seq<int>, b: Seq<int>, k: int) -> int {
    if k < 0 {
        0
    } else {
        sum_terms((k + 1) as nat, |i: int| coeff(a, i) * coeff(b, k - i))
    }
}

/// The same convolution sum over absolute values; every partial sum of
/// the product's accumulation is bounded by it.
pub open spec fn conv_abs_at(a: Seq<int>, b: Seq<int>, k: int) -> int {
    if k < 0 {
        0
    } else {
        sum_terms((k + 1) as nat, |i: int| (abs(coeff(a, i)) * abs(coeff(b, k - i))) as int)
    }
}

/// Schoolbook product in Z[X]; the result's length is `|a| + |b| - 1`.
pub open spec fn mul_spec(a: Seq<int>, b: Seq<int>) -> Seq<int> {
    Seq::new((a.len() + b.len() - 1) as nat, |k: int| conv_at(a, b, k))
}

/// The nearest integer to `p / d` for `d > 0`, ties away from zero.
pub open spec fn round_div(p: int, d: int) -> int {
    if p >= 0 {
        (2 * p + d) / (2 * d)
    } else {
        -((2 * (-p) + d) / (2 * d))
    }
}

/// A coefficient scaled by the exact rational `num / den` and rounded
/// to the nearest integer, ties away from zero.
pub open spec fn scale_coeff(c: int, num: int, den: int) -> int {
    round_div(c * num, den)
}

/// Every coefficient scaled by `num / den` with rounding; the length is kept.
pub open spec fn scale_spec(a: Seq<int>, num: int, den: int) -> Seq<int> {
    Seq::new(a.len(), |i: int| scale_coeff(a[i], num, den))
}

/// One step of the anticyclic fold of degrees modulo `X^n + 1`: the
/// coefficient `c` of `X^i` lands on `i mod 2n`, added below `n` and
/// subtracted (shifted down by `n`) above.
pub open spec fn fold_once(acc: Seq<int>, c: int, i: int, n: nat) -> Seq<int> {
    let r = i % (2 * n as int);
    if r < n {
        acc.update(r, acc[r] + c)
    } else {
        acc.update(r - n, acc[r - n] - c)
    }
}

/// The anticyclic fold applied to the first `k` coefficients of `a`.
pub open spec fn fold_prefix(a: Seq<int>, n: nat, k: nat) -> Seq<int>
    decreases k,
{
    if k == 0 {
        zero_poly(n)
    } else {
        fold_once(fold_prefix(a, n, (k - 1) as nat), a[k - 1], k - 1, n)
    }
}

/// The anticyclic fold of all of `a` into length `n`.
pub open spec fn fold_spec(a: Seq<int>, n: nat) -> Seq<int> {
    fold_prefix(a, n, a.len())
}

/// Reduction modulo `(X^n + 1, q)`: the anticyclic fold, then each
/// coefficient brought into `[0, q)`. Spec `%` is Euclidean, so `% q`
/// is itself the nonnegative representative.
pub open spec fn reduce_spec(a: Seq<int>, q: int, n: nat) -> Seq<int> {
    Seq::new(n, |i: int| fold_spec(a, n)[i] % q)
}

/// Division truncated toward zero, for a positive divisor.
pub open spec fn trunc_div(a: int, b: int) -> int {
    if a >= 0 {
        a / b
    } else {
        -((-a) / b)
    }
}

/// The running remainder of the base-`base` digit extraction after the
/// top `m` of `l` levels have been peeled off (levels `l - 1` down to
/// `l - m`), starting from the coefficient `c`.
pub open spec fn dec_rem(c: int, base: int, l: nat, m: nat) -> int
    decreases m,
{
    if m == 0 {
        c
    } else {
        let r = dec_rem(c, base, l, (m - 1) as nat);
        r - pow(base, (l - m) as nat) * trunc_div(r, pow(base, (l - m) as nat))
    }
}

/// The level-`i` digit of the base-`base` decomposition of `c` into `l`
/// levels: the truncating quotient of the remainder left by the levels
/// above `i`.
pub open spec fn digit_at(c: int, base: int, l: nat, i: nat) -> int {
    trunc_div(dec_rem(c, base, l, (l - i - 1) as nat), pow(base, i))
}

/// The level count of the base-`base` decomposition of `q`:
/// `floor(log_base q)`, the largest `l` with `base^l <= q`.
pub open spec fn log_floor(q: int, base: int) -> nat
    decreases q,
    via log_floor_decreases
{
    if base < 2 || q < base {
        0
    } else {
        1 + log_floor(q / base, base)
    }
}

#[via_fn]
proof fn log_floor_decreases(q: int, base: int) {
    if !(base < 2 || q < base) {
        vstd::arithmetic::div_mod::lemma_fundamental_div_mod(q, base);
        vstd::arithmetic::div_mod::lemma_mod_division_less_than_divisor(q, base);
        let d = q / base;
        assert(d >= 1 && d < q) by (nonlinear_arith)
            requires
                base >= 2,
                q >= base,
                q == base * d + q % base,
                0 <= q % base < base,
        ;
    }
}

/// All coefficients within `[-b, b]`.
pub open spec fn bounded(s: Seq<int>, b: int) -> bool {
    forall|i: int| 0 <= i < s.len() ==> -b <= #[trigger] s[i] <= b
}

/// All coefficients within `[lo, hi)`.
pub open spec fn in_range(s: Seq<int>, lo: int, hi: int) -> bool {
    forall|i: int| 0 <= i < s.len() ==> lo <= #[trigger] s[i] < hi
}

/// A value representable by a 64-bit signed integer.
pub open spec fn fits_i64(x: int) -> bool {
    i64::MIN <= x <= i64::MAX
}

/// The sum of the absolute values of all coefficients; every partial
/// value of the anticyclic fold's accumulation is bounded by it.
pub open spec fn abs_sum(s: Seq<int>) -> int {
    sum_terms(s.len(), |i: int| abs(s[i]) as int)
}

} // verus!
