//! The executable polynomial-ring engine: arithmetic in Z[X] on 64-bit
//! coefficients, with every operation's result pinned to the model in
//! [`crate::ring`].
//!
//! Intermediate values may exceed any modulus; reduction is explicit.
//! Every operation's preconditions say exactly which inputs keep the
//! 64-bit intermediates in range, as the scheme's parameter choices must.

use vstd::prelude::*;
use vstd::math::abs;
use vstd::arithmetic::power::pow;
use vstd::arithmetic::power::lemma_pow_positive;
use vstd::arithmetic::power::lemma_pow_increases;
use vstd::arithmetic::div_mod::lemma_div_nonincreasing;
use vstd::arithmetic::div_mod::lemma_div_pos_is_pos;
use vstd::arithmetic::div_mod::lemma_fundamental_div_mod;
use vstd::arithmetic::div_mod::lemma_fundamental_div_mod_converse_mod;
use vstd::arithmetic::div_mod::lemma_mod_division_less_than_divisor;
use crate::ring::coeff;
use crate::ring::fits_i64;
use crate::ring::add_spec;
use crate::ring::sub_spec;
use crate::ring::neg_spec;
use crate::ring::scalar_mul_spec;
use crate::ring::conv_at;
use crate::ring::conv_abs_at;
use crate::ring::mul_spec;
use crate::ring::round_div;
use crate::ring::scale_coeff;
use crate::ring::scale_spec;
use crate::ring::fold_prefix;
use crate::ring::fold_once;
use crate::ring::fold_spec;
use crate::ring::reduce_spec;
use crate::ring::abs_sum;
use crate::ring::trunc_div;
use crate::ring::dec_rem;
use crate::ring::digit_at;
use crate::sums::sum_terms;
use crate::sums::lemma_sum_zero_tail;
use crate::sums::lemma_sum_nonneg_prefix_le;
use crate::bounds::lemma_conv_term_bound;
use crate::bounds::lemma_conv_partial_bound;
use crate::bounds::lemma_round_div_range;
use crate::bounds::lemma_fold_prefix_bound;
use crate::bounds::lemma_trunc_div_props;
use crate::bounds::lemma_dec_rem_bound;

verus! {

/// An element of Z[X]: a dense sequence of signed integer coefficients,
/// where index `i` holds the coefficient of `X^i`. Leading zeros are
/// permitted, so the stored length is not necessarily the algebraic degree.
#[derive(Debug)]
pub struct Poly {
    coeffs: Vec<i64>,
}

impl View for Poly {
    type V = Seq<int>;

    closed spec fn view(&self) -> Seq<int> {
        self.coeffs@.map_values(|c: i64| c as int)
    }
}

impl PartialEq for Poly {
    /// Two polynomials are equal when their coefficient sequences are:
    /// same length, same value at every degree.
    fn eq(&self, other: &Poly) -> (r: bool) {
        let n = self.coeffs.len();
        if n != other.coeffs.len() {
            proof {
                assert(self@.len() != other@.len());
            }
            return false;
        }
        let mut i: usize = 0;
        while i < n
            invariant
                i <= n,
                n == self.coeffs@.len(),
                n == other.coeffs@.len(),
                forall|j: int| 0 <= j < i ==> self.coeffs@[j] == other.coeffs@[j],
            decreases n - i,
        {
            if self.coeffs[i] != other.coeffs[i] {
                proof {
                    assert(self@[i as int] != other@[i as int]);
                }
                return false;
            }
            i += 1;
        }
        proof {
            assert(self.coeffs@ =~= other.coeffs@);
        }
        true
    }
}

impl Clone for Poly {
    /// An independent polynomial with the same coefficients.
    fn clone(&self) -> (r: Poly)
        ensures
            r@ == self@,
    {
        let n = self.coeffs.len();
        let mut out: Vec<i64> = Vec::new();
        let mut i: usize = 0;
        while i < n
            invariant
                i <= n,
                n == self.coeffs@.len(),
                out@.len() == i,
                forall|j: int| 0 <= j < i ==> out@[j] == self.coeffs@[j],
            decreases n - i,
        {
            out.push(self.coeffs[i]);
            i += 1;
        }
        let r = Poly { coeffs: out };
        proof {
            assert(out@ =~= self.coeffs@);
            assert(r@ =~= self@);
        }
        r
    }
}

impl vstd::std_specs::cmp::PartialEqSpecImpl for Poly {
    open spec fn obeys_eq_spec() -> bool {
        true
    }

    open spec fn eq_spec(&self, other: &Poly) -> bool {
        self@ == other@
    }
}

impl Poly {
    /// Wrap a coefficient vector as a polynomial.
    pub fn new(val: Vec<i64>) -> (r: Poly)
        ensures
            r@.len() == val@.len(),
            forall|i: int| 0 <= i < val@.len() ==> r@[i] == val@[i],
    {
        Poly { coeffs: val }
    }

    /// The stored length of the coefficient sequence (not the algebraic degree).
    pub fn degree(&self) -> (r: usize)
        ensures
            r == self@.len(),
    {
        self.coeffs.len()
    }

    /// The stored coefficients, lowest degree first.
    pub fn coeffs(&self) -> (r: &Vec<i64>)
        ensures
            r@.len() == self@.len(),
            forall|i: int| 0 <= i < self@.len() ==> r@[i] == self@[i],
    {
        &self.coeffs
    }

    /// Elementwise sum. Operands of different lengths are zero-padded;
    /// the result has the longer length.
    pub fn add(&self, other: &Poly) -> (r: Poly)
        requires
            forall|i: int| 0 <= i < add_spec(self@, other@).len()
                ==> #[trigger] fits_i64(add_spec(self@, other@)[i]),
        ensures
            r@ == add_spec(self@, other@),
    {
        let n1 = self.coeffs.len();
        let n2 = other.coeffs.len();
        let max_degree = if n1 >= n2 { n1 } else { n2 };
        let ghost target = add_spec(self@, other@);
        let mut out: Vec<i64> = Vec::new();
        let mut i: usize = 0;
        while i < max_degree
            invariant
                i <= max_degree,
                n1 == self@.len(),
                n2 == other@.len(),
                n1 == self.coeffs@.len(),
                n2 == other.coeffs@.len(),
                max_degree == target.len(),
                target == add_spec(self@, other@),
                out@.len() == i,
                forall|j: int| 0 <= j < i ==> out@[j] as int == target[j],
                forall|j: int| 0 <= j < target.len() ==> #[trigger] fits_i64(target[j]),
            decreases max_degree - i,
        {
            let a_i: i64 = if i < n1 { self.coeffs[i] } else { 0 };
            let b_i: i64 = if i < n2 { other.coeffs[i] } else { 0 };
            proof {
                assert(a_i as int == coeff(self@, i as int));
                assert(b_i as int == coeff(other@, i as int));
                assert(target[i as int] == coeff(self@, i as int) + coeff(other@, i as int));
                assert(fits_i64(target[i as int]));
            }
            out.push(a_i + b_i);
            i += 1;
        }
        let r = Poly { coeffs: out };
        proof {
            assert(r@ =~= target);
        }
        r
    }

    /// Elementwise difference, with the same zero-padding as `add`.
    pub fn sub(&self, other: &Poly) -> (r: Poly)
        requires
            forall|i: int| 0 <= i < sub_spec(self@, other@).len()
                ==> #[trigger] fits_i64(sub_spec(self@, other@)[i]),
        ensures
            r@ == sub_spec(self@, other@),
    {
        let n1 = self.coeffs.len();
        let n2 = other.coeffs.len();
        let max_degree = if n1 >= n2 { n1 } else { n2 };
        let ghost target = sub_spec(self@, other@);
        let mut out: Vec<i64> = Vec::new();
        let mut i: usize = 0;
        while i < max_degree
            invariant
                i <= max_degree,
                n1 == self@.len(),
                n2 == other@.len(),
                n1 == self.coeffs@.len(),
                n2 == other.coeffs@.len(),
                max_degree == target.len(),
                target == sub_spec(self@, other@),
                out@.len() == i,
                forall|j: int| 0 <= j < i ==> out@[j] as int == target[j],
                forall|j: int| 0 <= j < target.len() ==> #[trigger] fits_i64(target[j]),
            decreases max_degree - i,
        {
            let a_i: i64 = if i < n1 { self.coeffs[i] } else { 0 };
            let b_i: i64 = if i < n2 { other.coeffs[i] } else { 0 };
            proof {
                assert(a_i as int == coeff(self@, i as int));
                assert(b_i as int == coeff(other@, i as int));
                assert(target[i as int] == coeff(self@, i as int) - coeff(other@, i as int));
                assert(fits_i64(target[i as int]));
            }
            out.push(a_i - b_i);
            i += 1;
        }
        let r = Poly { coeffs: out };
        proof {
            assert(r@ =~= target);
        }
        r
    }

    /// Elementwise sign flip.
    pub fn neg(&self) -> (r: Poly)
        requires
            forall|i: int| 0 <= i < self@.len() ==> #[trigger] fits_i64(neg_spec(self@)[i]),
        ensures
            r@ == neg_spec(self@),
    {
        let n = self.coeffs.len();
        let ghost target = neg_spec(self@);
        let mut out: Vec<i64> = Vec::new();
        let mut i: usize = 0;
        while i < n
            invariant
                i <= n,
                n == self@.len(),
                n == self.coeffs@.len(),
                target == neg_spec(self@),
                out@.len() == i,
                forall|j: int| 0 <= j < i ==> out@[j] as int == target[j],
                forall|j: int| 0 <= j < self@.len() ==> #[trigger] fits_i64(target[j]),
            decreases n - i,
        {
            proof {
                assert(target[i as int] == -self@[i as int]);
                assert(fits_i64(target[i as int]));
            }
            out.push(-self.coeffs[i]);
            i += 1;
        }
        let r = Poly { coeffs: out };
        proof {
            assert(r@ =~= target);
        }
        r
    }

    /// Elementwise multiplication by the integer `k`; the length is kept.
    pub fn mul_int(&self, k: i64) -> (r: Poly)
        requires
            forall|i: int| 0 <= i < self@.len()
                ==> #[trigger] fits_i64(scalar_mul_spec(self@, k as int)[i]),
        ensures
            r@ == scalar_mul_spec(self@, k as int),
    {
        let n = self.coeffs.len();
        let ghost target = scalar_mul_spec(self@, k as int);
        let mut out: Vec<i64> = Vec::new();
        let mut i: usize = 0;
        while i < n
            invariant
                i <= n,
                n == self@.len(),
                n == self.coeffs@.len(),
                target == scalar_mul_spec(self@, k as int),
                out@.len() == i,
                forall|j: int| 0 <= j < i ==> out@[j] as int == target[j],
                forall|j: int| 0 <= j < self@.len() ==> #[trigger] fits_i64(target[j]),
            decreases n - i,
        {
            proof {
                assert(target[i as int] == self@[i as int] * k);
                assert(fits_i64(target[i as int]));
            }
            out.push(self.coeffs[i] * k);
            i += 1;
        }
        let r = Poly { coeffs: out };
        proof {
            assert(r@ =~= target);
        }
        r
    }

    /// Dense schoolbook convolution in Z[X]; the result's length is
    /// `|a| + |b| - 1`. No modular reduction is applied.
    pub fn mul(&self, other: &Poly) -> (r: Poly)
        requires
            self@.len() >= 1,
            other@.len() >= 1,
            self@.len() + other@.len() <= usize::MAX,
            forall|k: int| 0 <= k < self@.len() + other@.len() - 1
                ==> #[trigger] conv_abs_at(self@, other@, k) <= i64::MAX,
        ensures
            r@ == mul_spec(self@, other@),
    {
        let ghost a = self@;
        let ghost b = other@;
        let n1 = self.coeffs.len();
        let n2 = other.coeffs.len();
        let out_len = n1 + n2 - 1;
        let mut out: Vec<i64> = Vec::new();
        let mut k: usize = 0;
        while k < out_len
            invariant
                k <= out_len,
                a == self@,
                b == other@,
                n1 == self@.len(),
                n2 == other@.len(),
                n1 == self.coeffs@.len(),
                n2 == other.coeffs@.len(),
                n1 >= 1,
                n2 >= 1,
                out_len == n1 + n2 - 1,
                out@.len() == k,
                forall|j: int| 0 <= j < k ==> out@[j] as int == conv_at(a, b, j),
                forall|j: int| 0 <= j < out_len ==> #[trigger] conv_abs_at(a, b, j) <= i64::MAX,
            decreases out_len - k,
        {
            let ghost fk = |i: int| coeff(a, i) * coeff(b, k as int - i);
            let mut acc: i64 = 0;
            let mut i: usize = 0;
            while i < n1
                invariant
                    i <= n1,
                    k < out_len,
                    a == self@,
                    b == other@,
                    n1 == self@.len(),
                    n2 == other@.len(),
                    n1 == self.coeffs@.len(),
                    n2 == other.coeffs@.len(),
                    n1 >= 1,
                    n2 >= 1,
                    out_len == n1 + n2 - 1,
                    fk == (|i: int| coeff(a, i) * coeff(b, k as int - i)),
                    acc as int == sum_terms(i as nat, fk),
                    conv_abs_at(a, b, k as int) <= i64::MAX,
                decreases n1 - i,
            {
                proof {
                    assert(sum_terms((i + 1) as nat, fk)
                        == sum_terms(i as nat, fk) + fk(i as int));
                }
                if i <= k && k - i < n2 {
                    proof {
                        lemma_conv_term_bound(a, b, k as int, i as int);
                        assert(coeff(a, i as int) == self@[i as int]);
                        assert(coeff(b, k - i) == other@[k - i]);
                        lemma_conv_partial_bound(a, b, k as int, (i + 1) as nat);
                    }
                    let p = self.coeffs[i] * other.coeffs[k - i];
                    acc = acc + p;
                } else {
                    proof {
                        assert(coeff(b, k as int - i as int) == 0);
                        assert(coeff(a, i as int) * coeff(b, k as int - i as int) == 0)
                            by (nonlinear_arith)
                            requires coeff(b, k as int - i as int) == 0;
                        assert(fk(i as int) == 0);
                    }
                }
                i += 1;
            }
            proof {
                if n1 <= k {
                    assert forall|j: int| n1 <= j < k + 1 implies #[trigger] fk(j) == 0 by {
                        assert(coeff(a, j) == 0);
                        assert(coeff(a, j) * coeff(b, k as int - j) == 0) by (nonlinear_arith)
                            requires coeff(a, j) == 0;
                    }
                    lemma_sum_zero_tail(n1 as nat, (k + 1) as nat, fk);
                } else {
                    assert forall|j: int| k + 1 <= j < n1 implies #[trigger] fk(j) == 0 by {
                        assert(coeff(b, k as int - j) == 0);
                        assert(coeff(a, j) * coeff(b, k as int - j) == 0) by (nonlinear_arith)
                            requires coeff(b, k as int - j) == 0;
                    }
                    lemma_sum_zero_tail((k + 1) as nat, n1 as nat, fk);
                }
                assert(acc as int == conv_at(a, b, k as int));
            }
            out.push(acc);
            k += 1;
        }
        let r = Poly { coeffs: out };
        proof {
            assert(r@ =~= mul_spec(a, b));
        }
        r
    }

    /// Elementwise scaling by the exact rational `num / den`, rounding
    /// to the nearest integer with ties away from zero; the length is
    /// kept. This is the scaling step `t / q` (or `1 / p`) of the
    /// scheme, done in exact integer arithmetic.
    pub fn mul_rational(&self, num: i64, den: i64) -> (r: Poly)
        requires
            num >= 0,
            den >= 1,
            forall|i: int| 0 <= i < self@.len()
                ==> #[trigger] fits_i64(scale_spec(self@, num as int, den as int)[i]),
        ensures
            r@ == scale_spec(self@, num as int, den as int),
    {
        let n = self.coeffs.len();
        let ghost target = scale_spec(self@, num as int, den as int);
        let mut out: Vec<i64> = Vec::new();
        let mut i: usize = 0;
        while i < n
            invariant
                i <= n,
                num >= 0,
                den >= 1,
                n == self@.len(),
                n == self.coeffs@.len(),
                target == scale_spec(self@, num as int, den as int),
                out@.len() == i,
                forall|j: int| 0 <= j < i ==> out@[j] as int == target[j],
                forall|j: int| 0 <= j < self@.len() ==> #[trigger] fits_i64(target[j]),
            decreases n - i,
        {
            proof {
                assert(target[i as int] == scale_coeff(self@[i as int], num as int, den as int));
                assert(fits_i64(target[i as int]));
            }
            out.push(Poly::scale_round(self.coeffs[i], num, den));
            i += 1;
        }
        let r = Poly { coeffs: out };
        proof {
            assert(r@ =~= target);
        }
        r
    }

    /// One coefficient scaled by `num / den`, rounded to the nearest
    /// integer with ties away from zero, in 128-bit intermediates.
    fn scale_round(c: i64, num: i64, den: i64) -> (r: i64)
        requires
            num >= 0,
            den >= 1,
            fits_i64(scale_coeff(c as int, num as int, den as int)),
        ensures
            r as int == scale_coeff(c as int, num as int, den as int),
    {
        proof {
            let bound: int = 0x4000_0000_0000_0000_0000_0000_0000_0000;
            assert(-bound <= c as int * num as int <= bound) by (nonlinear_arith)
                requires
                    bound == 0x4000_0000_0000_0000_0000_0000_0000_0000,
                    -0x8000_0000_0000_0000 <= c <= 0x7fff_ffff_ffff_ffff,
                    0 <= num <= 0x7fff_ffff_ffff_ffff,
            ;
        }
        let prod: i128 = (c as i128) * (num as i128);
        proof {
            assert(-0x4000_0000_0000_0000_0000_0000_0000_0000
                <= prod as int
                <= 0x4000_0000_0000_0000_0000_0000_0000_0000);
        }
        let d: u128 = den as u128;
        if prod >= 0 {
            let m: u128 = prod as u128;
            proof {
                lemma_round_div_range(m as int, d as int);
                lemma_div_nonincreasing(m as int, d as int);
                lemma_div_pos_is_pos(m as int, d as int);
                assert(round_div(prod as int, den as int)
                    == (2 * (m as int) + d as int) / (2 * (d as int)));
            }
            let val: u128 = (2 * m + d) / (2 * d);
            val as i64
        } else {
            let m: u128 = (-prod) as u128;
            proof {
                lemma_round_div_range(m as int, d as int);
                lemma_div_nonincreasing(m as int, d as int);
                lemma_div_pos_is_pos(m as int, d as int);
                assert(round_div(prod as int, den as int)
                    == -((2 * (m as int) + d as int) / (2 * (d as int))));
            }
            let val: u128 = (2 * m + d) / (2 * d);
            let signed: i128 = -(val as i128);
            signed as i64
        }
    }

    /// The nonnegative representative of `c` modulo `q`: the value in
    /// `[0, q)` congruent to `c`.
    pub fn mod_coeff(c: i64, q: i64) -> (r: i64)
        requires
            q >= 1,
        ensures
            r as int == (c as int) % (q as int),
            0 <= r < q,
    {
        proof {
            lemma_mod_division_less_than_divisor(c as int, q as int);
        }
        if c >= 0 {
            c % q
        } else {
            let d: i64 = -(c + 1);
            let m: i64 = d % q;
            proof {
                lemma_fundamental_div_mod(d as int, q as int);
                lemma_mod_division_less_than_divisor(d as int, q as int);
                let k = d as int / q as int;
                assert((-k - 1) * q == -(k * q) - q) by (nonlinear_arith);
                lemma_fundamental_div_mod_converse_mod(
                    c as int,
                    q as int,
                    -k - 1,
                    q - 1 - m,
                );
            }
            q - 1 - m
        }
    }

    /// Reduction modulo `(X^n + 1, q)`: the anticyclic fold of degrees,
    /// then each coefficient brought into `[0, q)`. The result has
    /// exactly length `n`.
    pub fn modulo(&self, q: i64, n: usize) -> (r: Poly)
        requires
            q >= 1,
            n >= 1,
            2 * n <= usize::MAX,
            abs_sum(self@) <= i64::MAX,
        ensures
            r@ == reduce_spec(self@, q as int, n as nat),
    {
        let ghost a = self@;
        let ghost absf = |i: int| abs(a[i]) as int;
        let len = self.coeffs.len();
        let mut out: Vec<i64> = Vec::new();
        let mut z: usize = 0;
        while z < n
            invariant
                z <= n,
                out@.len() == z,
                forall|j: int| 0 <= j < z ==> out@[j] as int == 0,
            decreases n - z,
        {
            out.push(0);
            z += 1;
        }
        proof {
            assert forall|j: int| 0 <= j < n
                implies out@[j] as int == fold_prefix(a, n as nat, 0nat)[j] by {}
        }
        let mut i: usize = 0;
        while i < len
            invariant
                i <= len,
                a == self@,
                len == self@.len(),
                len == self.coeffs@.len(),
                n >= 1,
                2 * n <= usize::MAX,
                abs_sum(a) <= i64::MAX,
                absf == (|i: int| abs(a[i]) as int),
                out@.len() == n,
                forall|j: int| 0 <= j < n
                    ==> out@[j] as int == fold_prefix(a, n as nat, i as nat)[j],
            decreases len - i,
        {
            proof {
                lemma_fold_prefix_bound(a, n as nat, i as nat);
                lemma_fold_prefix_bound(a, n as nat, (i + 1) as nat);
                assert forall|j: int| 0 <= j < len implies #[trigger] absf(j) >= 0 by {}
                lemma_sum_nonneg_prefix_le(len as nat, (i + 1) as nat, absf);
                lemma_mod_division_less_than_divisor(i as int, 2 * n as int);
            }
            let r = i % (2 * n);
            let c = self.coeffs[i];
            proof {
                assert(c as int == a[i as int]);
                assert(fold_prefix(a, n as nat, (i + 1) as nat)
                    == fold_once(fold_prefix(a, n as nat, i as nat), a[i as int], i as int, n as nat));
            }
            if r < n {
                let cur = out[r];
                out[r] = cur + c;
            } else {
                let idx = r - n;
                let cur = out[idx];
                out[idx] = cur - c;
            }
            i += 1;
        }
        let mut j: usize = 0;
        while j < n
            invariant
                j <= n,
                a == self@,
                q >= 1,
                n >= 1,
                out@.len() == n,
                forall|t: int| 0 <= t < j ==> out@[t] as int == fold_spec(a, n as nat)[t] % (q as int),
                forall|t: int| j <= t < n ==> out@[t] as int == fold_spec(a, n as nat)[t],
            decreases n - j,
        {
            let cur = out[j];
            out[j] = Poly::mod_coeff(cur, q);
            j += 1;
        }
        let r = Poly { coeffs: out };
        proof {
            assert(r@ =~= reduce_spec(a, q as int, n as nat));
        }
        r
    }

    /// Truncating division by a positive divisor: floor for nonnegative
    /// dividends, ceiling for negative ones.
    fn trunc_div_i64(c: i64, b: i64) -> (r: i64)
        requires
            b >= 1,
            c > i64::MIN,
        ensures
            r as int == trunc_div(c as int, b as int),
    {
        if c >= 0 {
            proof {
                lemma_div_nonincreasing(c as int, b as int);
                lemma_div_pos_is_pos(c as int, b as int);
            }
            c / b
        } else {
            proof {
                lemma_div_nonincreasing(-c as int, b as int);
                lemma_div_pos_is_pos(-c as int, b as int);
            }
            -((-c) / b)
        }
    }

    /// `base` raised to `e`, by repeated multiplication.
    pub(crate) fn pow_i64(base: i64, e: usize) -> (r: i64)
        requires
            base >= 1,
            pow(base as int, e as nat) <= i64::MAX,
        ensures
            r as int == pow(base as int, e as nat),
            r >= 1,
    {
        proof {
            vstd::arithmetic::power::lemma_pow0(base as int);
        }
        let mut acc: i64 = 1;
        let mut i: usize = 0;
        while i < e
            invariant
                i <= e,
                base >= 1,
                acc as int == pow(base as int, i as nat),
                pow(base as int, e as nat) <= i64::MAX,
                acc >= 1,
            decreases e - i,
        {
            proof {
                vstd::arithmetic::power::lemma_pow1(base as int);
                vstd::arithmetic::power::lemma_pow_adds(base as int, i as nat, 1nat);
                assert(pow(base as int, (i + 1) as nat) == pow(base as int, i as nat) * (base as int));
                lemma_pow_positive(base as int, (i + 1) as nat);
                lemma_pow_increases(base as nat, (i + 1) as nat, e as nat);
            }
            acc = acc * base;
            i += 1;
        }
        acc
    }

    /// Base-`base` digit decomposition into `l` levels: returns digit
    /// polynomials `(p_0, ..., p_{l-1})`, each of the input's length,
    /// with `self = sum of base^i * p_i` exactly in Z[X]. Digits are
    /// extracted from the most significant level down by truncating
    /// division; level 0 always absorbs the full remainder.
    pub fn decompose(&self, l: usize, base: i64) -> (r: Vec<Poly>)
        requires
            l >= 1,
            base >= 1,
            pow(base as int, (l - 1) as nat) <= i64::MAX,
            forall|j: int| 0 <= j < self@.len() ==> self@[j] > i64::MIN,
        ensures
            r@.len() == l,
            forall|lev: int| 0 <= lev < l ==> (#[trigger] r@[lev])@.len() == self@.len(),
            forall|lev: int, j: int| 0 <= lev < l && 0 <= j < self@.len()
                ==> #[trigger] r@[lev]@[j]
                    == digit_at(self@[j], base as int, l as nat, lev as nat),
    {
        let ghost a = self@;
        let n = self.coeffs.len();
        let mut rem: Vec<i64> = Vec::new();
        let mut z: usize = 0;
        while z < n
            invariant
                z <= n,
                n == self.coeffs@.len(),
                a == self@,
                rem@.len() == z,
                forall|j: int| 0 <= j < z ==> rem@[j] as int == a[j],
            decreases n - z,
        {
            rem.push(self.coeffs[z]);
            z += 1;
        }
        let mut levels_rev: Vec<Poly> = Vec::new();
        let mut m: usize = 0;
        while m < l
            invariant
                m <= l,
                l >= 1,
                base >= 1,
                a == self@,
                n == a.len(),
                n == self.coeffs@.len(),
                pow(base as int, (l - 1) as nat) <= i64::MAX,
                forall|j: int| 0 <= j < n ==> a[j] > i64::MIN,
                rem@.len() == n,
                forall|j: int| 0 <= j < n
                    ==> rem@[j] as int == dec_rem(a[j], base as int, l as nat, m as nat),
                levels_rev@.len() == m,
                forall|mi: int| 0 <= mi < m ==> (#[trigger] levels_rev@[mi])@.len() == n,
                forall|mi: int, j: int| 0 <= mi < m && 0 <= j < n
                    ==> #[trigger] levels_rev@[mi]@[j]
                        == digit_at(a[j], base as int, l as nat, (l - 1 - mi) as nat),
            decreases l - m,
        {
            let lev = l - 1 - m;
            proof {
                lemma_pow_increases(base as nat, lev as nat, (l - 1) as nat);
                lemma_pow_positive(base as int, lev as nat);
            }
            let base_i = Poly::pow_i64(base, lev);
            let mut digits: Vec<i64> = Vec::new();
            let mut j: usize = 0;
            while j < n
                invariant
                    j <= n,
                    m < l,
                    lev == l - 1 - m,
                    base >= 1,
                    a == self@,
                    n == a.len(),
                    base_i as int == pow(base as int, lev as nat),
                    base_i >= 1,
                    forall|t: int| 0 <= t < n ==> a[t] > i64::MIN,
                    rem@.len() == n,
                    forall|t: int| j <= t < n
                        ==> rem@[t] as int == dec_rem(a[t], base as int, l as nat, m as nat),
                    forall|t: int| 0 <= t < j
                        ==> rem@[t] as int == dec_rem(a[t], base as int, l as nat, (m + 1) as nat),
                    digits@.len() == j,
                    forall|t: int| 0 <= t < j
                        ==> digits@[t] as int == digit_at(a[t], base as int, l as nat, lev as nat),
                decreases n - j,
            {
                let c = rem[j];
                proof {
                    lemma_dec_rem_bound(a[j as int], base as int, l as nat, m as nat);
                    lemma_trunc_div_props(c as int, base_i as int);
                    assert(dec_rem(a[j as int], base as int, l as nat, (m + 1) as nat)
                        == c as int - pow(base as int, lev as nat)
                            * trunc_div(c as int, pow(base as int, lev as nat)));
                    assert(digit_at(a[j as int], base as int, l as nat, lev as nat)
                        == trunc_div(c as int, pow(base as int, lev as nat)));
                }
                let d = Poly::trunc_div_i64(c, base_i);
                digits.push(d);
                rem[j] = c - base_i * d;
                j += 1;
            }
            levels_rev.push(Poly { coeffs: digits });
            m += 1;
        }
        let mut out: Vec<Poly> = Vec::new();
        while levels_rev.len() > 0
            invariant
                a == self@,
                n == a.len(),
                out@.len() + levels_rev@.len() == l,
                forall|mi: int| 0 <= mi < levels_rev@.len()
                    ==> (#[trigger] levels_rev@[mi])@.len() == n,
                forall|mi: int, j: int| 0 <= mi < levels_rev@.len() && 0 <= j < n
                    ==> #[trigger] levels_rev@[mi]@[j]
                        == digit_at(a[j], base as int, l as nat, (l - 1 - mi) as nat),
                forall|lev: int| 0 <= lev < out@.len() ==> (#[trigger] out@[lev])@.len() == n,
                forall|lev: int, j: int| 0 <= lev < out@.len() && 0 <= j < n
                    ==> #[trigger] out@[lev]@[j]
                        == digit_at(a[j], base as int, l as nat, lev as nat),
            decreases levels_rev@.len(),
        {
            let ghost before = levels_rev@;
            let p = levels_rev.pop().unwrap();
            proof {
                assert(p == before[before.len() - 1]);
                assert(l - 1 - (before.len() - 1) == out@.len());
            }
            out.push(p);
        }
        out
    }
}

} // verus!
