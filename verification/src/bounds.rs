//! Magnitude bounds on the ring model: how large a convolution
//! coefficient, a fold accumulator, a digit, or a rounded quotient can
//! get. The executable engine uses these to show that its 64-bit
//! intermediate values never overflow.

use vstd::prelude::*;
use vstd::math::abs;
use vstd::arithmetic::power::pow;
use vstd::arithmetic::power::lemma_pow_positive;
use vstd::arithmetic::div_mod::lemma_fundamental_div_mod;
use vstd::arithmetic::div_mod::lemma_mod_division_less_than_divisor;
use vstd::arithmetic::div_mod::lemma_div_nonincreasing;
use vstd::arithmetic::div_mod::lemma_div_pos_is_pos;
use vstd::arithmetic::div_mod::lemma_div_is_ordered;
use crate::sums::sum_terms;
use crate::sums::lemma_sum_le;
use crate::sums::lemma_sum_bound;
use crate::sums::lemma_sum_zero;
use crate::sums::lemma_sum_split;
use crate::sums::lemma_sum_nonneg;
use crate::sums::lemma_sum_nonneg_prefix_le;
use crate::sums::lemma_sum_nonneg_term_le;
use crate::ring::coeff;
use crate::ring::conv_at;
use crate::ring::conv_abs_at;
use crate::ring::fold_prefix;
use crate::ring::fold_once;
use crate::ring::reduce_spec;
use crate::ring::fold_spec;
use crate::ring::trunc_div;
use crate::ring::dec_rem;
use crate::ring::digit_at;
use crate::ring::round_div;
use crate::ring::scale_coeff;
use crate::ring::bounded;
use crate::ring::in_range;
use crate::ring::abs_sum;
use crate::ring::add_spec;
use crate::ring::neg_spec;
use crate::ring::scalar_mul_spec;
use crate::ring::mul_spec;
use crate::ring::scale_spec;
use crate::ring::fits_i64;
use crate::ring::log_floor;

verus! {

/// A convolution coefficient is bounded by the same sum over absolute values.
pub proof fn lemma_conv_le_conv_abs(a: Seq<int>, b: Seq<int>, k: int)
    ensures
        -conv_abs_at(a, b, k) <= conv_at(a, b, k) <= conv_abs_at(a, b, k),
        conv_abs_at(a, b, k) >= 0,
{
    if k >= 0 {
        let f = |i: int| coeff(a, i) * coeff(b, k - i);
        let g = |i: int| (abs(coeff(a, i)) * abs(coeff(b, k - i))) as int;
        let gn = |i: int| -((abs(coeff(a, i)) * abs(coeff(b, k - i))) as int);
        assert forall|i: int| 0 <= i < k + 1 implies #[trigger] f(i) <= #[trigger] g(i) by {
            let x = coeff(a, i);
            let y = coeff(b, k - i);
            assert(x * y <= abs(x) * abs(y) && -(abs(x) * abs(y)) <= x * y) by (nonlinear_arith);
        }
        assert forall|i: int| 0 <= i < k + 1 implies #[trigger] gn(i) <= #[trigger] f(i) by {
            let x = coeff(a, i);
            let y = coeff(b, k - i);
            assert(x * y <= abs(x) * abs(y) && -(abs(x) * abs(y)) <= x * y) by (nonlinear_arith);
        }
        lemma_sum_le((k + 1) as nat, f, g);
        lemma_sum_le((k + 1) as nat, gn, f);
        assert forall|i: int| 0 <= i < k + 1 implies #[trigger] gn(i) == -g(i) by {}
        crate::sums::lemma_sum_scale((k + 1) as nat, -1, g, gn);
        assert forall|i: int| 0 <= i < k + 1 implies #[trigger] g(i) >= 0 by {}
        lemma_sum_nonneg((k + 1) as nat, g);
    }
}

/// With `a` bounded by `ba` and `b` bounded by `bb`, a convolution
/// coefficient's absolute sum is at most `|a| * ba * bb`.
pub proof fn lemma_conv_abs_bound(a: Seq<int>, b: Seq<int>, k: int, ba: int, bb: int)
    requires
        ba >= 0,
        bb >= 0,
        bounded(a, ba),
        bounded(b, bb),
    ensures
        conv_abs_at(a, b, k) <= a.len() * ba * bb,
{
    let la = a.len() as int;
    assert(la * ba * bb >= 0) by (nonlinear_arith)
        requires la >= 0, ba >= 0, bb >= 0;
    if k >= 0 {
        let g = |i: int| (abs(coeff(a, i)) * abs(coeff(b, k - i))) as int;
        assert forall|i: int| 0 <= i < k + 1 implies -(ba * bb) <= #[trigger] g(i) <= ba * bb by {
            let x = coeff(a, i);
            let y = coeff(b, k - i);
            assert(abs(x) <= ba && abs(y) <= bb);
            assert(abs(x) * abs(y) <= ba * bb) by (nonlinear_arith)
                requires 0 <= abs(x) <= ba, 0 <= abs(y) <= bb;
        }
        assert forall|i: int| 0 <= i < k + 1 implies #[trigger] g(i) >= 0 by {}
        if k + 1 <= la {
            lemma_sum_bound((k + 1) as nat, ba * bb, g);
            assert((k + 1) * (ba * bb) <= la * ba * bb) by (nonlinear_arith)
                requires 0 <= k + 1 <= la, ba >= 0, bb >= 0;
        } else {
            let tail = |i: int| g(i + la);
            lemma_sum_split((k + 1) as nat, la as nat, g, tail);
            assert forall|i: int| 0 <= i < (k + 1 - la) implies #[trigger] tail(i) == 0 by {
                assert(coeff(a, i + la) == 0);
                assert(abs(coeff(a, i + la)) * abs(coeff(b, k - (i + la))) == 0)
                    by (nonlinear_arith)
                    requires abs(coeff(a, i + la)) == 0;
            }
            lemma_sum_zero((k + 1 - la) as nat, tail);
            lemma_sum_bound(la as nat, ba * bb, g);
            assert(la * (ba * bb) == la * ba * bb) by (nonlinear_arith);
        }
    }
}

/// Every partial sum of a convolution's accumulation is bounded by the
/// full sum over absolute values.
pub proof fn lemma_conv_partial_bound(a: Seq<int>, b: Seq<int>, k: int, m: nat)
    requires
        0 <= k,
        m <= k + 1,
    ensures
        -conv_abs_at(a, b, k)
            <= sum_terms(m, (|i: int| coeff(a, i) * coeff(b, k - i)))
            <= conv_abs_at(a, b, k),
{
    let f = |i: int| coeff(a, i) * coeff(b, k - i);
    let g = |i: int| (abs(coeff(a, i)) * abs(coeff(b, k - i))) as int;
    let gn = |i: int| -((abs(coeff(a, i)) * abs(coeff(b, k - i))) as int);
    assert forall|i: int| 0 <= i < m implies #[trigger] f(i) <= #[trigger] g(i) by {
        let x = coeff(a, i);
        let y = coeff(b, k - i);
        assert(x * y <= abs(x) * abs(y) && -(abs(x) * abs(y)) <= x * y) by (nonlinear_arith);
    }
    assert forall|i: int| 0 <= i < m implies #[trigger] gn(i) <= #[trigger] f(i) by {
        let x = coeff(a, i);
        let y = coeff(b, k - i);
        assert(x * y <= abs(x) * abs(y) && -(abs(x) * abs(y)) <= x * y) by (nonlinear_arith);
    }
    lemma_sum_le(m, f, g);
    lemma_sum_le(m, gn, f);
    assert forall|i: int| 0 <= i < m implies #[trigger] gn(i) == -g(i) by {}
    crate::sums::lemma_sum_scale(m, -1, g, gn);
    assert forall|i: int| 0 <= i < k + 1 implies #[trigger] g(i) >= 0 by {}
    lemma_sum_nonneg_prefix_le((k + 1) as nat, m, g);
}

/// A single convolution term is bounded by the full sum over absolute values.
pub proof fn lemma_conv_term_bound(a: Seq<int>, b: Seq<int>, k: int, i: int)
    requires
        0 <= i <= k,
    ensures
        -conv_abs_at(a, b, k) <= coeff(a, i) * coeff(b, k - i) <= conv_abs_at(a, b, k),
{
    let g = |j: int| (abs(coeff(a, j)) * abs(coeff(b, k - j))) as int;
    assert forall|j: int| 0 <= j < k + 1 implies #[trigger] g(j) >= 0 by {}
    lemma_sum_nonneg_term_le((k + 1) as nat, g, i);
    let x = coeff(a, i);
    let y = coeff(b, k - i);
    assert(x * y <= abs(x) * abs(y) && -(abs(x) * abs(y)) <= x * y) by (nonlinear_arith);
}

/// The fold keeps length `n`, and every accumulator entry stays within
/// the sum of the absolute values of the coefficients folded so far.
pub proof fn lemma_fold_prefix_bound(a: Seq<int>, n: nat, k: nat)
    requires
        n >= 1,
        k <= a.len(),
    ensures
        fold_prefix(a, n, k).len() == n,
        forall|j: int| 0 <= j < n ==>
            -sum_terms(k, (|i: int| abs(a[i]) as int))
                <= #[trigger] fold_prefix(a, n, k)[j]
                <= sum_terms(k, (|i: int| abs(a[i]) as int)),
    decreases k,
{
    let f = |i: int| abs(a[i]) as int;
    assert forall|i: int| 0 <= i < a.len() implies #[trigger] f(i) >= 0 by {}
    if k == 0 {
        lemma_sum_nonneg(0nat, f);
    } else {
        lemma_fold_prefix_bound(a, n, (k - 1) as nat);
        lemma_sum_nonneg((k - 1) as nat, f);
        let prev = fold_prefix(a, n, (k - 1) as nat);
        let c = a[k - 1];
        lemma_mod_division_less_than_divisor(k - 1, 2 * n as int);
        let r = (k - 1) % (2 * n as int);
        assert(0 <= r < 2 * n);
        assert(fold_prefix(a, n, k) == fold_once(prev, c, k - 1, n));
        assert(f(k - 1) == abs(c));
    }
}

/// After reduction modulo `(X^n + 1, q)`, the length is exactly `n`
/// and every coefficient lies in `[0, q)`.
pub proof fn lemma_reduce_range(a: Seq<int>, q: int, n: nat)
    requires
        q >= 1,
        n >= 1,
    ensures
        reduce_spec(a, q, n).len() == n,
        in_range(reduce_spec(a, q, n), 0, q),
{
    assert forall|i: int| 0 <= i < n implies 0 <= #[trigger] reduce_spec(a, q, n)[i] < q by {
        lemma_mod_division_less_than_divisor(fold_spec(a, n)[i], q);
    }
}

/// Truncating division by a positive divisor shrinks magnitudes, and
/// the remainder it leaves is smaller than the divisor and no larger
/// in magnitude than the dividend.
pub proof fn lemma_trunc_div_props(a: int, b: int)
    requires
        b >= 1,
    ensures
        abs(trunc_div(a, b)) <= abs(a),
        0 <= abs(a) - abs(b * trunc_div(a, b)),
        abs(a - b * trunc_div(a, b)) <= abs(a),
        abs(a - b * trunc_div(a, b)) < b,
        a >= 0 ==> trunc_div(a, b) >= 0 && b * trunc_div(a, b) <= a,
        a < 0 ==> trunc_div(a, b) <= 0 && b * trunc_div(a, b) >= a,
{
    if a >= 0 {
        lemma_div_nonincreasing(a, b);
        lemma_div_pos_is_pos(a, b);
        lemma_fundamental_div_mod(a, b);
        lemma_mod_division_less_than_divisor(a, b);
    } else {
        let p = -a;
        lemma_div_nonincreasing(p, b);
        lemma_div_pos_is_pos(p, b);
        lemma_fundamental_div_mod(p, b);
        lemma_mod_division_less_than_divisor(p, b);
        assert(b * (-(p / b)) == -(b * (p / b))) by (nonlinear_arith);
    }
}

/// The running remainder of the digit extraction never grows.
pub proof fn lemma_dec_rem_bound(c: int, base: int, l: nat, m: nat)
    requires
        base >= 1,
    ensures
        abs(dec_rem(c, base, l, m)) <= abs(c),
    decreases m,
{
    if m > 0 {
        lemma_dec_rem_bound(c, base, l, (m - 1) as nat);
        let r = dec_rem(c, base, l, (m - 1) as nat);
        let p = pow(base, (l - m) as nat);
        lemma_pow_positive(base, (l - m) as nat);
        lemma_trunc_div_props(r, p);
    }
}

/// Every digit of the decomposition is bounded by the coefficient it
/// came from.
pub proof fn lemma_digit_bound(c: int, base: int, l: nat, i: nat)
    requires
        base >= 1,
        i < l,
    ensures
        abs(digit_at(c, base, l, i)) <= abs(c),
{
    lemma_dec_rem_bound(c, base, l, (l - i - 1) as nat);
    lemma_pow_positive(base, i);
    lemma_trunc_div_props(dec_rem(c, base, l, (l - i - 1) as nat), pow(base, i));
}

/// Rounding a quotient lands next to the true (floor) quotient.
pub proof fn lemma_round_div_range(p: int, d: int)
    requires
        d >= 1,
        p >= 0,
    ensures
        p / d <= round_div(p, d) <= p / d + 1,
{
    let k = p / d;
    let r = p % d;
    lemma_fundamental_div_mod(p, d);
    lemma_mod_division_less_than_divisor(p, d);
    assert(2 * p + d == (2 * d) * k + (2 * r + d)) by (nonlinear_arith)
        requires p == d * k + r;
    if 2 * r + d < 2 * d {
        vstd::arithmetic::div_mod::lemma_fundamental_div_mod_converse_div(
            2 * p + d, 2 * d, k, 2 * r + d,
        );
    } else {
        assert(2 * p + d == (2 * d) * (k + 1) + (2 * r + d - 2 * d)) by (nonlinear_arith)
            requires 2 * p + d == (2 * d) * k + (2 * r + d);
        vstd::arithmetic::div_mod::lemma_fundamental_div_mod_converse_div(
            2 * p + d, 2 * d, k + 1, 2 * r + d - 2 * d,
        );
    }
}

/// The magnitude of a rounded scaled coefficient, from the magnitude of
/// the coefficient: for `0 <= c < q`, scaling by `t / q` stays in `[0, t]`.
pub proof fn lemma_scale_unit(c: int, t: int, q: int)
    requires
        0 <= c < q,
        t >= 1,
        q >= 1,
    ensures
        0 <= scale_coeff(c, t, q) <= t,
{
    let p = c * t;
    assert(p >= 0 && p <= (q - 1) * t) by (nonlinear_arith)
        requires p == c * t, 0 <= c <= q - 1, t >= 1;
    lemma_round_div_range(p, q);
    lemma_div_pos_is_pos(p, q);
    assert(p / q <= t - 1) by {
        assert(p < q * t) by (nonlinear_arith)
            requires p <= (q - 1) * t, q >= 1, t >= 1;
        assert(q * t == t * q) by (nonlinear_arith);
        vstd::arithmetic::div_mod::lemma_multiply_divide_lt(p, q, t);
    }
}

/// The absolute sum dominates every entry the fold can produce, and is
/// itself nonnegative.
pub proof fn lemma_abs_sum_props(s: Seq<int>)
    ensures
        abs_sum(s) >= 0,
        forall|i: int| 0 <= i < s.len() ==> abs(#[trigger] s[i]) <= abs_sum(s),
{
    let f = |i: int| abs(s[i]) as int;
    assert forall|i: int| 0 <= i < s.len() implies #[trigger] f(i) >= 0 by {}
    lemma_sum_nonneg(s.len(), f);
    assert forall|i: int| 0 <= i < s.len() implies abs(#[trigger] s[i]) <= abs_sum(s) by {
        lemma_sum_nonneg_term_le(s.len(), f, i);
    }
}

/// If every coefficient is bounded by `b`, the absolute sum is at most
/// `len * b`.
pub proof fn lemma_abs_sum_bound(s: Seq<int>, b: int)
    requires
        b >= 0,
        bounded(s, b),
    ensures
        abs_sum(s) <= s.len() * b,
{
    let f = |i: int| abs(s[i]) as int;
    assert forall|i: int| 0 <= i < s.len() implies -b <= #[trigger] f(i) <= b by {}
    lemma_sum_bound(s.len(), b, f);
}

/// Coefficients in `[0, q)` are bounded in magnitude by `q - 1`.
pub proof fn lemma_in_range_bounded(s: Seq<int>, q: int)
    requires
        q >= 1,
        in_range(s, 0, q),
    ensures
        bounded(s, q - 1),
{
}

/// A magnitude bound weakens.
pub proof fn lemma_bounded_le(s: Seq<int>, b1: int, b2: int)
    requires
        bounded(s, b1),
        b1 <= b2,
    ensures
        bounded(s, b2),
{
}

/// Coefficients bounded by a value the 64-bit range holds all fit.
pub proof fn lemma_bounded_fits(s: Seq<int>, b: int)
    requires
        bounded(s, b),
        0 <= b <= i64::MAX,
    ensures
        forall|i: int| 0 <= i < s.len() ==> #[trigger] fits_i64(s[i]),
{
}

/// Every sequence is bounded by its absolute sum.
pub proof fn lemma_bounded_by_abs_sum(s: Seq<int>)
    ensures
        bounded(s, abs_sum(s)),
{
    lemma_abs_sum_props(s);
}

/// Bounds add elementwise under polynomial addition.
pub proof fn lemma_add_bounded(a: Seq<int>, b: Seq<int>, ba: int, bb: int)
    requires
        ba >= 0,
        bb >= 0,
        bounded(a, ba),
        bounded(b, bb),
    ensures
        bounded(add_spec(a, b), ba + bb),
{
    assert forall|i: int| 0 <= i < add_spec(a, b).len()
        implies -(ba + bb) <= #[trigger] add_spec(a, b)[i] <= ba + bb by {
        assert(-ba <= coeff(a, i) <= ba);
        assert(-bb <= coeff(b, i) <= bb);
    }
}

/// Negation keeps a magnitude bound.
pub proof fn lemma_neg_bounded(a: Seq<int>, b: int)
    requires
        bounded(a, b),
    ensures
        bounded(neg_spec(a), b),
{
}

/// Scalar multiplication scales a magnitude bound by the scalar.
pub proof fn lemma_scalar_mul_bounded(a: Seq<int>, b: int, k: int)
    requires
        b >= 0,
        bounded(a, b),
    ensures
        bounded(scalar_mul_spec(a, k), b * abs(k)),
{
    assert forall|i: int| 0 <= i < a.len()
        implies -(b * abs(k)) <= #[trigger] scalar_mul_spec(a, k)[i] <= b * abs(k) by {
        assert(-(b * abs(k)) <= a[i] * k <= b * abs(k)) by (nonlinear_arith)
            requires -b <= a[i] <= b, 0 <= b, abs(k) == if k >= 0 { k } else { -k };
    }
}

/// Every convolution coefficient of bounded operands is bounded by
/// `|a| * ba * bb`, and so is the whole product polynomial.
pub proof fn lemma_mul_bounded(a: Seq<int>, b: Seq<int>, ba: int, bb: int)
    requires
        ba >= 0,
        bb >= 0,
        bounded(a, ba),
        bounded(b, bb),
        a.len() >= 1,
        b.len() >= 1,
    ensures
        bounded(mul_spec(a, b), a.len() * ba * bb),
        forall|k: int| #[trigger] conv_abs_at(a, b, k) <= a.len() * ba * bb,
{
    assert forall|k: int| #[trigger] conv_abs_at(a, b, k) <= a.len() * ba * bb by {
        lemma_conv_abs_bound(a, b, k, ba, bb);
    }
    assert forall|k: int| 0 <= k < mul_spec(a, b).len()
        implies -(a.len() * ba * bb) <= #[trigger] mul_spec(a, b)[k] <= a.len() * ba * bb by {
        lemma_conv_le_conv_abs(a, b, k);
    }
}

/// The magnitude of a rounded scaled coefficient, from the magnitude of
/// the coefficient.
pub proof fn lemma_scale_coeff_bound(c: int, num: int, den: int, cap: int)
    requires
        num >= 0,
        den >= 1,
        -cap <= c <= cap,
        cap >= 0,
    ensures
        -((cap * num) / den + 1) <= scale_coeff(c, num, den) <= (cap * num) / den + 1,
        (cap * num) / den >= 0,
{
    let p = c * num;
    assert(-(cap * num) <= p <= cap * num) by (nonlinear_arith)
        requires p == c * num, -cap <= c <= cap, num >= 0, cap >= 0;
    assert(cap * num >= 0) by (nonlinear_arith)
        requires cap >= 0, num >= 0;
    lemma_div_pos_is_pos(cap * num, den);
    if p >= 0 {
        lemma_round_div_range(p, den);
        lemma_div_is_ordered(p, cap * num, den);
    } else {
        lemma_round_div_range(-p, den);
        lemma_div_is_ordered(-p, cap * num, den);
    }
}

/// Scaling a bounded polynomial by `num / den` bounds the result by
/// `cap * num / den + 1`.
pub proof fn lemma_scale_bounded(a: Seq<int>, num: int, den: int, cap: int)
    requires
        num >= 0,
        den >= 1,
        cap >= 0,
        bounded(a, cap),
    ensures
        bounded(scale_spec(a, num, den), (cap * num) / den + 1),
{
    assert forall|i: int| 0 <= i < a.len()
        implies -((cap * num) / den + 1) <= #[trigger] scale_spec(a, num, den)[i]
            <= (cap * num) / den + 1 by {
        lemma_scale_coeff_bound(a[i], num, den, cap);
    }
}

/// Scaling coefficients in `[0, q)` by `t / q` keeps them in `[0, t]`.
pub proof fn lemma_scale_unit_range(a: Seq<int>, t: int, q: int)
    requires
        t >= 1,
        q >= 1,
        in_range(a, 0, q),
    ensures
        forall|i: int| 0 <= i < a.len() ==> 0 <= #[trigger] scale_spec(a, t, q)[i] <= t,
        bounded(scale_spec(a, t, q), t),
{
    assert forall|i: int| 0 <= i < a.len()
        implies 0 <= #[trigger] scale_spec(a, t, q)[i] <= t by {
        lemma_scale_unit(a[i], t, q);
    }
}

/// The level count is exactly the floor of the base-`base` logarithm:
/// `base^l <= q < base^(l+1)` for `l = log_floor(q, base)`.
pub proof fn lemma_log_floor_bounds(q: int, base: int)
    requires
        base >= 2,
        q >= 1,
    ensures
        pow(base, log_floor(q, base)) <= q,
        q < pow(base, (log_floor(q, base) + 1) as nat),
    decreases q,
{
    vstd::arithmetic::power::lemma_pow0(base);
    vstd::arithmetic::power::lemma_pow1(base);
    if q < base {
        assert(log_floor(q, base) == 0);
    } else {
        let d = q / base;
        lemma_fundamental_div_mod(q, base);
        lemma_mod_division_less_than_divisor(q, base);
        assert(d >= 1) by {
            if d <= 0 {
                assert(base * d <= 0) by (nonlinear_arith)
                    requires base >= 2, d <= 0;
            }
        }
        assert(d < q) by {
            assert(base * d >= 2 * d) by (nonlinear_arith)
                requires base >= 2, d >= 1;
        }
        lemma_log_floor_bounds(d, base);
        let l1 = log_floor(d, base);
        assert(log_floor(q, base) == 1 + l1);
        vstd::arithmetic::power::lemma_pow_adds(base, 1nat, l1);
        vstd::arithmetic::power::lemma_pow_adds(base, 1nat, (l1 + 1) as nat);
        assert(pow(base, (1 + l1) as nat) == base * pow(base, l1));
        assert(base * pow(base, l1) <= base * d) by (nonlinear_arith)
            requires pow(base, l1) <= d, base >= 2;
        assert(q < base * pow(base, (l1 + 1) as nat)) by (nonlinear_arith)
            requires
                d < pow(base, (l1 + 1) as nat),
                q == base * d + q % base,
                q % base < base,
                base >= 2,
        ;
        assert(pow(base, (1 + l1 + 1) as nat) == base * pow(base, (l1 + 1) as nat));
    }
}

} // verus!
