//! Key material: the secret key, the public key, and the two
//! relinearization key variants.
//!
//! Uniform draws are made here through the verified sampler; Gaussian
//! error polynomials are handed in by the caller as plain values (see
//! [`crate::random_source`]), and each generator's contract states the
//! produced key exactly in terms of the sampled and supplied values.

use vstd::prelude::*;
use vstd::math::abs;
use vstd::arithmetic::power::pow;
use vstd::arithmetic::power::lemma_pow_increases;
use vstd::arithmetic::div_mod::lemma_fundamental_div_mod;
use vstd::arithmetic::div_mod::lemma_mod_division_less_than_divisor;
use crate::poly::Poly;
use crate::random_source::get_uniform;
use crate::ring::add_spec;
use crate::ring::neg_spec;
use crate::ring::mul_spec;
use crate::ring::scalar_mul_spec;
use crate::ring::reduce_spec;
use crate::ring::in_range;
use crate::ring::abs_sum;
use crate::ring::log_floor;
use crate::bounds::lemma_in_range_bounded;
use crate::bounds::lemma_mul_bounded;
use crate::bounds::lemma_add_bounded;
use crate::bounds::lemma_neg_bounded;
use crate::bounds::lemma_scalar_mul_bounded;
use crate::bounds::lemma_bounded_by_abs_sum;
use crate::bounds::lemma_bounded_fits;
use crate::bounds::lemma_abs_sum_props;
use crate::bounds::lemma_abs_sum_bound;
use crate::bounds::lemma_log_floor_bounds;

verus! {

/// The secret key: a ring element with coefficients drawn uniformly
/// from {0, 1}.
pub struct SecretKey {
    pub poly: Poly,
}

/// The public key: `p_0 = [-(a * s + e)]_q`, `p_1 = a`, together with
/// the ciphertext modulus `q`.
pub struct PublicKey {
    pub p_0: Poly,
    pub p_1: Poly,
    pub q: i64,
}

/// Relinearization key, variant 1: for each level `i < l`, the pair
/// `([-(a_i * s + e_i) + base^i * s^2]_q, a_i)`, with the decomposition
/// base and the level count `l = floor(log_base q)`.
pub struct RelinearizationKey1 {
    pub val: Vec<(Poly, Poly)>,
    pub base: i64,
    pub l: usize,
}

/// Relinearization key, variant 2: `rlk_0 = [-(a * s + e) + p * s^2]_{p*q}`,
/// `rlk_1 = a`, with the modulus-switching scale `p`.
pub struct RelinearizationKey2 {
    pub rlk_0: Poly,
    pub rlk_1: Poly,
    pub p: i64,
}

/// The overflow precondition shared by the key generators: one masked
/// ring product with modulus `m`, an error term, and optionally a
/// scaled `s^2` term with weight `w`, folded to length `n`.
pub open spec fn key_gen_fits(n: int, m: int, err: int, w: int) -> bool {
    (2 * n - 1) * (n * (m - 1) + err + n * w) <= i64::MAX
}

impl SecretKey {
    /// Sample a secret key of the given length with coefficients
    /// uniform on {0, 1}.
    pub fn generate(degree: usize, rng: &mut rand::rngs::StdRng) -> (r: SecretKey)
        ensures
            r.poly@.len() == degree,
            in_range(r.poly@, 0, 2),
    {
        SecretKey { poly: get_uniform(2, degree, rng) }
    }

    /// Derive a public key: sample `a` uniform on `[0, q)`, and mask
    /// `a * s` with the supplied Gaussian error `e`. The returned
    /// `p_1` is the sampled `a`; `p_0` is exactly the reduction of
    /// `-(p_1 * s + e)` modulo `(X^n + 1, q)`.
    pub fn public_key_gen(&self, q: i64, e: &Poly, rng: &mut rand::rngs::StdRng) -> (r: PublicKey)
        requires
            q >= 2,
            self.poly@.len() >= 1,
            2 * self.poly@.len() <= usize::MAX,
            in_range(self.poly@, 0, 2),
            e@.len() == self.poly@.len(),
            key_gen_fits(self.poly@.len() as int, q as int, abs_sum(e@), 0),
        ensures
            r.q == q,
            r.p_1@.len() == self.poly@.len(),
            in_range(r.p_1@, 0, q as int),
            r.p_0@ == reduce_spec(
                neg_spec(add_spec(mul_spec(r.p_1@, self.poly@), e@)),
                q as int,
                self.poly@.len(),
            ),
    {
        let s = &self.poly;
        let degree = s.degree();
        let a = get_uniform(q, degree, rng);
        proof {
            lemma_masked_product_fits(a@, s@, e@, q as int, 0);
        }
        let masked = a.mul(s).add(e).neg();
        let p_0 = masked.modulo(q, degree);
        PublicKey { p_0, p_1: a, q }
    }

    /// The level count `floor(log_base q)` used by relinearization
    /// variant 1: the largest `l` with `base^l <= q`.
    pub fn decomposition_levels(q: i64, base: i64) -> (r: usize)
        requires
            base >= 2,
            q >= 1,
        ensures
            r == log_floor(q as int, base as int),
            pow(base as int, r as nat) <= q,
    {
        proof {
            vstd::arithmetic::power::lemma_pow0(base as int);
            vstd::arithmetic::power2::lemma2_to64();
        }
        let mut l: usize = 0;
        let mut p: i64 = 1;
        while p <= q / base
            invariant
                base >= 2,
                q >= 1,
                1 <= p <= q,
                p as int == pow(base as int, l as nat),
                vstd::arithmetic::power2::pow2(l as nat) <= p as int,
            decreases q - p,
        {
            proof {
                lemma_fundamental_div_mod(q as int, base as int);
                lemma_mod_division_less_than_divisor(q as int, base as int);
                assert(p * base <= q) by (nonlinear_arith)
                    requires
                        p <= q / base,
                        q == base * (q / base) + q % base,
                        q % base >= 0,
                        base >= 2,
                ;
                assert(p * base >= 2 * p) by (nonlinear_arith)
                    requires p >= 1, base >= 2;
                vstd::arithmetic::power::lemma_pow1(base as int);
                vstd::arithmetic::power::lemma_pow_adds(base as int, l as nat, 1nat);
                assert(vstd::arithmetic::power2::pow2((l + 1) as nat)
                    == 2 * vstd::arithmetic::power2::pow2(l as nat)) by {
                    vstd::arithmetic::power2::lemma_pow2_adds((l) as nat, 1nat);
                    vstd::arithmetic::power2::lemma2_to64();
                }
                if l >= 63 {
                    if l > 63 {
                        vstd::arithmetic::power2::lemma_pow2_strictly_increases(63nat, l as nat);
                    }
                    vstd::arithmetic::power2::lemma2_to64_rest();
                    assert(vstd::arithmetic::power2::pow2(63) <= p as int);
                    assert(false);
                }
            }
            p = p * base;
            l = l + 1;
        }
        proof {
            lemma_fundamental_div_mod(q as int, base as int);
            lemma_mod_division_less_than_divisor(q as int, base as int);
            assert(q < p * base) by (nonlinear_arith)
                requires
                    p > q / base,
                    q == base * (q / base) + q % base,
                    q % base < base,
                    base >= 2,
            ;
            vstd::arithmetic::power::lemma_pow1(base as int);
            vstd::arithmetic::power::lemma_pow_adds(base as int, l as nat, 1nat);
            lemma_log_floor_bounds(q as int, base as int);
            let lf = log_floor(q as int, base as int);
            if (l as nat) < lf {
                lemma_pow_increases(base as nat, (l + 1) as nat, lf);
            }
            if lf < l as nat {
                lemma_pow_increases(base as nat, (lf + 1) as nat, l as nat);
            }
        }
        l
    }

    /// Derive a relinearization key, variant 1: for each level
    /// `i < l = floor(log_base q)`, sample `a_i` uniform on `[0, q)`
    /// and mask `a_i * s` with the supplied Gaussian error
    /// `errors[i]`, adding the level's share `base^i * s^2`. Entry `i`
    /// of the result holds exactly the reduction of
    /// `-(a_i * s + e_i) + base^i * s^2` modulo `(X^n + 1, q)`,
    /// paired with the sampled `a_i`.
    pub fn relin_key_gen_1(
        &self,
        q: i64,
        rng: &mut rand::rngs::StdRng,
        base: i64,
        errors: &Vec<Poly>,
    ) -> (r: RelinearizationKey1)
        requires
            base >= 2,
            q >= base,
            self.poly@.len() >= 1,
            2 * self.poly@.len() <= usize::MAX,
            in_range(self.poly@, 0, 2),
            errors@.len() >= log_floor(q as int, base as int),
            forall|i: int| 0 <= i < log_floor(q as int, base as int)
                ==> (#[trigger] errors@[i])@.len() == self.poly@.len(),
            forall|i: int| 0 <= i < log_floor(q as int, base as int)
                ==> key_gen_fits(
                    self.poly@.len() as int,
                    q as int,
                    abs_sum((#[trigger] errors@[i])@),
                    q as int,
                ),
        ensures
            r.base == base,
            r.l == log_floor(q as int, base as int),
            r.val@.len() == r.l,
            forall|i: int| 0 <= i < r.l
                ==> (#[trigger] r.val@[i]).1@.len() == self.poly@.len()
                    && in_range(r.val@[i].1@, 0, q as int),
            forall|i: int| 0 <= i < r.l
                ==> (#[trigger] r.val@[i]).0@ == reduce_spec(
                    add_spec(
                        neg_spec(add_spec(mul_spec(r.val@[i].1@, self.poly@), errors@[i]@)),
                        scalar_mul_spec(
                            mul_spec(self.poly@, self.poly@),
                            pow(base as int, i as nat),
                        ),
                    ),
                    q as int,
                    self.poly@.len(),
                ),
    {
        let s = &self.poly;
        let degree = s.degree();
        let l = SecretKey::decomposition_levels(q, base);
        let mut val: Vec<(Poly, Poly)> = Vec::new();
        let mut i: usize = 0;
        while i < l
            invariant
                i <= l,
                base >= 2,
                q >= base,
                s@ == self.poly@,
                l == log_floor(q as int, base as int),
                pow(base as int, l as nat) <= q,
                degree == self.poly@.len(),
                degree >= 1,
                2 * degree <= usize::MAX,
                in_range(self.poly@, 0, 2),
                errors@.len() >= l,
                forall|t: int| 0 <= t < l ==> (#[trigger] errors@[t])@.len() == degree,
                forall|t: int| 0 <= t < l
                    ==> key_gen_fits(degree as int, q as int, abs_sum((#[trigger] errors@[t])@), q as int),
                val@.len() == i,
                forall|t: int| 0 <= t < i
                    ==> (#[trigger] val@[t]).1@.len() == degree
                        && in_range(val@[t].1@, 0, q as int),
                forall|t: int| 0 <= t < i
                    ==> (#[trigger] val@[t]).0@ == reduce_spec(
                        add_spec(
                            neg_spec(add_spec(mul_spec(val@[t].1@, self.poly@), errors@[t]@)),
                            scalar_mul_spec(
                                mul_spec(self.poly@, self.poly@),
                                pow(base as int, t as nat),
                            ),
                        ),
                        q as int,
                        degree as nat,
                    ),
            decreases l - i,
        {
            proof {
                lemma_pow_increases(base as nat, i as nat, l as nat);
                vstd::arithmetic::power::lemma_pow_positive(base as int, i as nat);
            }
            let base_i = Poly::pow_i64(base, i);
            let a_i = get_uniform(q, degree, rng);
            let e_i = &errors[i];
            proof {
                let n = degree as int;
                let err = abs_sum(e_i@);
                lemma_abs_sum_props(e_i@);
                assert((2 * n - 1) * (n * (q - 1) + err + n * base_i)
                    <= (2 * n - 1) * (n * (q - 1) + err + n * q)) by (nonlinear_arith)
                    requires n >= 1, err >= 0, 0 <= base_i <= q, q >= 2;
                lemma_masked_product_fits(a_i@, s@, e_i@, q as int, base_i as int);
            }
            let masked = a_i.mul(s).add(e_i).neg();
            let share = s.mul(s).mul_int(base_i);
            let rlk_i = masked.add(&share).modulo(q, degree);
            val.push((rlk_i, a_i));
            i += 1;
        }
        RelinearizationKey1 { val, base, l }
    }

    /// Derive a relinearization key, variant 2: sample `a` uniform on
    /// `[0, p*q)` and mask `a * s` with the supplied Gaussian error
    /// `e`, adding `p * s^2`, all reduced modulo `(X^n + 1, p*q)`.
    pub fn relin_key_gen_2(
        &self,
        q: i64,
        e: &Poly,
        rng: &mut rand::rngs::StdRng,
        p: i64,
    ) -> (r: RelinearizationKey2)
        requires
            q >= 2,
            p >= 1,
            p * q <= i64::MAX,
            self.poly@.len() >= 1,
            2 * self.poly@.len() <= usize::MAX,
            in_range(self.poly@, 0, 2),
            e@.len() == self.poly@.len(),
            key_gen_fits(self.poly@.len() as int, p as int * q as int, abs_sum(e@), p as int),
        ensures
            r.p == p,
            r.rlk_1@.len() == self.poly@.len(),
            in_range(r.rlk_1@, 0, p as int * q as int),
            r.rlk_0@ == reduce_spec(
                add_spec(
                    neg_spec(add_spec(mul_spec(r.rlk_1@, self.poly@), e@)),
                    scalar_mul_spec(mul_spec(self.poly@, self.poly@), p as int),
                ),
                p as int * q as int,
                self.poly@.len(),
            ),
    {
        let s = &self.poly;
        let degree = s.degree();
        proof {
            assert(p as int * q as int >= 2 * p) by (nonlinear_arith)
                requires p >= 1, q >= 2;
        }
        let pq = p * q;
        let a = get_uniform(pq, degree, rng);
        proof {
            lemma_masked_product_fits(a@, s@, e@, pq as int, p as int);
        }
        let masked = a.mul(s).add(e).neg();
        let share = s.mul(s).mul_int(p);
        let rlk_0 = masked.add(&share).modulo(pq, degree);
        RelinearizationKey2 { rlk_0, rlk_1: a, p }
    }
}

/// Discharges every overflow obligation of the masked-product pipeline
/// `[-(a * s + e) + w * s^2]_m` that the key generators run: the
/// convolutions, the elementwise sums, the negation and the final fold
/// all stay within 64 bits when `key_gen_fits(n, m, abs_sum(e), w)`
/// holds.
proof fn lemma_masked_product_fits(a: Seq<int>, s: Seq<int>, e: Seq<int>, m: int, w: int)
    requires
        m >= 2,
        0 <= w,
        s.len() >= 1,
        a.len() == s.len(),
        e.len() == s.len(),
        in_range(a, 0, m),
        in_range(s, 0, 2),
        key_gen_fits(s.len() as int, m, abs_sum(e), w),
    ensures
        forall|k: int| #[trigger] crate::ring::conv_abs_at(a, s, k) <= i64::MAX,
        forall|k: int| #[trigger] crate::ring::conv_abs_at(s, s, k) <= i64::MAX,
        forall|i: int| 0 <= i < add_spec(mul_spec(a, s), e).len()
            ==> #[trigger] crate::ring::fits_i64(add_spec(mul_spec(a, s), e)[i]),
        forall|i: int| 0 <= i < s.len() * 2 - 1
            ==> #[trigger] crate::ring::fits_i64(neg_spec(add_spec(mul_spec(a, s), e))[i]),
        forall|i: int| 0 <= i < s.len() * 2 - 1
            ==> #[trigger] crate::ring::fits_i64(
                scalar_mul_spec(mul_spec(s, s), w)[i]),
        forall|i: int| 0 <= i
            < add_spec(
                neg_spec(add_spec(mul_spec(a, s), e)),
                scalar_mul_spec(mul_spec(s, s), w),
            ).len()
            ==> #[trigger] crate::ring::fits_i64(
                add_spec(
                    neg_spec(add_spec(mul_spec(a, s), e)),
                    scalar_mul_spec(mul_spec(s, s), w),
                )[i]),
        abs_sum(add_spec(
            neg_spec(add_spec(mul_spec(a, s), e)),
            scalar_mul_spec(mul_spec(s, s), w),
        )) <= i64::MAX,
        abs_sum(neg_spec(add_spec(mul_spec(a, s), e))) <= i64::MAX,
{
    let n = s.len() as int;
    let err = abs_sum(e);
    lemma_abs_sum_props(e);
    lemma_in_range_bounded(a, m);
    lemma_in_range_bounded(s, 2);
    lemma_mul_bounded(a, s, m - 1, 1);
    lemma_mul_bounded(s, s, 1, 1);
    assert(n * (m - 1) * 1 == n * (m - 1)) by (nonlinear_arith);
    assert(n * 1 * 1 == n) by (nonlinear_arith);
    lemma_bounded_by_abs_sum(e);
    lemma_add_bounded(mul_spec(a, s), e, n * (m - 1), err);
    lemma_neg_bounded(add_spec(mul_spec(a, s), e), n * (m - 1) + err);
    lemma_scalar_mul_bounded(mul_spec(s, s), n, w);
    assert(abs(w) == w);
    let bm = n * (m - 1) + err;
    let bw = n * w;
    lemma_add_bounded(
        neg_spec(add_spec(mul_spec(a, s), e)),
        scalar_mul_spec(mul_spec(s, s), w),
        bm,
        bw,
    );
    assert((2 * n - 1) * (bm + bw) >= bm + bw >= bm) by (nonlinear_arith)
        requires n >= 1, bm >= 0, bw >= 0;
    let total = add_spec(
        neg_spec(add_spec(mul_spec(a, s), e)),
        scalar_mul_spec(mul_spec(s, s), w),
    );
    assert(total.len() == 2 * n - 1);
    lemma_abs_sum_bound(total, bm + bw);
    assert((2 * n - 1) * (bm + bw) <= i64::MAX);
    lemma_abs_sum_bound(neg_spec(add_spec(mul_spec(a, s), e)), bm);
    assert((2 * n - 1) * bm <= (2 * n - 1) * (bm + bw)) by (nonlinear_arith)
        requires n >= 1, bm >= 0, bw >= 0;
    lemma_bounded_fits(add_spec(mul_spec(a, s), e), bm);
    lemma_bounded_fits(neg_spec(add_spec(mul_spec(a, s), e)), bm);
    lemma_bounded_fits(scalar_mul_spec(mul_spec(s, s), w), bw);
    lemma_bounded_fits(total, bm + bw);
    assert forall|k: int| #[trigger] crate::ring::conv_abs_at(a, s, k) <= i64::MAX by {
        crate::bounds::lemma_conv_abs_bound(a, s, k, m - 1, 1);
    }
    assert forall|k: int| #[trigger] crate::ring::conv_abs_at(s, s, k) <= i64::MAX by {
        crate::bounds::lemma_conv_abs_bound(s, s, k, 1, 1);
        assert(n <= (2 * n - 1) * (n * (m - 1) + err + n * w)) by (nonlinear_arith)
            requires n >= 1, m >= 2, err >= 0, w >= 0;
        assert(n * 1 * 1 <= i64::MAX);
    }
}

} // verus!
