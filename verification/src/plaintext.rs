//! The plaintext space: a ring element together with the plaintext
//! modulus `t > 1`, and encryption against a public key.

use vstd::prelude::*;
use vstd::arithmetic::div_mod::lemma_div_nonincreasing;
use vstd::arithmetic::div_mod::lemma_div_pos_is_pos;
use crate::poly::Poly;
use crate::random_source::get_uniform;
use crate::ciphertext::Ciphertext;
use crate::keys::PublicKey;
use crate::ring::add_spec;
use crate::ring::mul_spec;
use crate::ring::scalar_mul_spec;
use crate::ring::reduce_spec;
use crate::ring::in_range;
use crate::ring::abs_sum;
use crate::bounds::lemma_in_range_bounded;
use crate::bounds::lemma_mul_bounded;
use crate::bounds::lemma_add_bounded;
use crate::bounds::lemma_scalar_mul_bounded;
use crate::bounds::lemma_bounded_by_abs_sum;
use crate::bounds::lemma_bounded_fits;
use crate::bounds::lemma_abs_sum_props;
use crate::bounds::lemma_abs_sum_bound;

verus! {

/// An encoded message: a ring element with the plaintext modulus `t`.
pub struct Plaintext {
    /// The polynomial holding the plaintext values.
    pub poly: Poly,
    /// The modulus of the plaintext space; always greater than 1.
    pub t: i64,
}

/// The overflow precondition of encryption: one masked ring product
/// with modulus `q`, an error term, and the scaled message, folded to
/// length `n`.
pub open spec fn encrypt_fits(n: int, q: int, err: int, msg: int) -> bool {
    (2 * n - 1) * (n * (q - 1) + err + msg * q) <= i64::MAX
}

impl Plaintext {
    /// Wrap a coefficient vector as a plaintext with modulus `t`.
    /// The plaintext space requires `t > 1`.
    pub fn new(val: Vec<i64>, t: i64) -> (r: Plaintext)
        requires
            t > 1,
        ensures
            r.t == t,
            r.poly@.len() == val@.len(),
            forall|i: int| 0 <= i < val@.len() ==> r.poly@[i] == val@[i],
    {
        Plaintext::new_from_poly(Poly::new(val), t)
    }

    /// Wrap a ring element as a plaintext with modulus `t > 1`.
    pub fn new_from_poly(poly: Poly, t: i64) -> (r: Plaintext)
        requires
            t > 1,
        ensures
            r.t == t,
            r.poly == poly,
    {
        Plaintext { poly, t }
    }

    /// A plaintext of length `degree` drawn uniformly: each
    /// coefficient uniform on `[0, t)`.
    pub fn rand(degree: usize, t: i64, rng: &mut rand::rngs::StdRng) -> (r: Plaintext)
        requires
            t > 1,
        ensures
            r.t == t,
            r.poly@.len() == degree,
            in_range(r.poly@, 0, t as int),
    {
        Plaintext { poly: get_uniform(t, degree, rng), t }
    }

    /// The ring element holding the plaintext values.
    pub fn poly(&self) -> (r: Poly)
        ensures
            r@ == self.poly@,
    {
        self.poly.clone()
    }

    /// Encryption with every random input supplied: `u` is the masking
    /// element (coefficients in {0, 1}), `e_1` and `e_2` the error
    /// terms. Computes `c_0 = [p_0 * u + e_1 + delta * m]_q` and
    /// `c_1 = [p_1 * u + e_2]_q` with `delta = floor(q / t)`, exactly.
    pub fn encrypt_with(&self, pub_key: &PublicKey, u: &Poly, e_1: &Poly, e_2: &Poly) -> (r:
        Ciphertext)
        requires
            self.t > 1,
            pub_key.q >= 2,
            self.poly@.len() >= 1,
            2 * self.poly@.len() <= usize::MAX,
            self.poly@.len() == pub_key.p_0@.len(),
            pub_key.p_1@.len() == pub_key.p_0@.len(),
            in_range(pub_key.p_0@, 0, pub_key.q as int),
            in_range(pub_key.p_1@, 0, pub_key.q as int),
            u@.len() == self.poly@.len(),
            in_range(u@, 0, 2),
            e_1@.len() == self.poly@.len(),
            e_2@.len() == self.poly@.len(),
            encrypt_fits(
                self.poly@.len() as int,
                pub_key.q as int,
                abs_sum(e_1@),
                abs_sum(self.poly@),
            ),
            encrypt_fits(self.poly@.len() as int, pub_key.q as int, abs_sum(e_2@), 0),
        ensures
            r.q == pub_key.q,
            r.t == self.t,
            r.c_0@ == reduce_spec(
                add_spec(
                    add_spec(mul_spec(pub_key.p_0@, u@), e_1@),
                    scalar_mul_spec(self.poly@, pub_key.q as int / self.t as int),
                ),
                pub_key.q as int,
                self.poly@.len(),
            ),
            r.c_1@ == reduce_spec(
                add_spec(mul_spec(pub_key.p_1@, u@), e_2@),
                pub_key.q as int,
                self.poly@.len(),
            ),
    {
        let q = pub_key.q;
        let degree = self.poly.degree();
        let delta = q / self.t;
        proof {
            lemma_div_nonincreasing(q as int, self.t as int);
            lemma_div_pos_is_pos(q as int, self.t as int);
            lemma_encrypt_pipeline_fits(pub_key.p_0@, u@, e_1@, self.poly@, delta as int, q as int);
            lemma_encrypt_pipeline_fits(
                pub_key.p_1@,
                u@,
                e_2@,
                crate::ring::zero_poly(0),
                delta as int,
                q as int,
            );
        }
        let c_0 = pub_key.p_0.mul(u).add(e_1).add(&self.poly.mul_int(delta)).modulo(q, degree);
        let c_1 = pub_key.p_1.mul(u).add(e_2).modulo(q, degree);
        Ciphertext { c_0, c_1, q, t: self.t }
    }

    /// Encrypt against a public key: the masking element `u` is drawn
    /// uniformly on {0, 1} here; the Gaussian error terms `e_1` and
    /// `e_2` are supplied by the caller. Whatever `u` was drawn, the
    /// result is the exact encryption of the message under it.
    pub fn encrypt(
        &self,
        pub_key: &PublicKey,
        e_1: &Poly,
        e_2: &Poly,
        rng: &mut rand::rngs::StdRng,
    ) -> (r: Ciphertext)
        requires
            self.t > 1,
            pub_key.q >= 2,
            self.poly@.len() >= 1,
            2 * self.poly@.len() <= usize::MAX,
            self.poly@.len() == pub_key.p_0@.len(),
            pub_key.p_1@.len() == pub_key.p_0@.len(),
            in_range(pub_key.p_0@, 0, pub_key.q as int),
            in_range(pub_key.p_1@, 0, pub_key.q as int),
            e_1@.len() == self.poly@.len(),
            e_2@.len() == self.poly@.len(),
            encrypt_fits(
                self.poly@.len() as int,
                pub_key.q as int,
                abs_sum(e_1@),
                abs_sum(self.poly@),
            ),
            encrypt_fits(self.poly@.len() as int, pub_key.q as int, abs_sum(e_2@), 0),
        ensures
            r.q == pub_key.q,
            r.t == self.t,
            exists|u: Seq<int>|
                #[trigger] in_range(u, 0, 2) && u.len() == self.poly@.len()
                && r.c_0@ == reduce_spec(
                    add_spec(
                        add_spec(mul_spec(pub_key.p_0@, u), e_1@),
                        scalar_mul_spec(self.poly@, pub_key.q as int / self.t as int),
                    ),
                    pub_key.q as int,
                    self.poly@.len(),
                )
                && r.c_1@ == reduce_spec(
                    add_spec(mul_spec(pub_key.p_1@, u), e_2@),
                    pub_key.q as int,
                    self.poly@.len(),
                ),
    {
        let degree = self.poly.degree();
        let u = get_uniform(2, degree, rng);
        let r = self.encrypt_with(pub_key, &u, e_1, e_2);
        proof {
            assert(in_range(u@, 0, 2) && u@.len() == self.poly@.len());
        }
        r
    }
}

/// Discharges the overflow obligations of one encryption component
/// `[p * u + e + delta * m]_q`: the convolution, both sums, the scaled
/// message and the final fold stay within 64 bits.
proof fn lemma_encrypt_pipeline_fits(p: Seq<int>, u: Seq<int>, e: Seq<int>, m: Seq<int>, delta:
    int, q: int)
    requires
        q >= 2,
        0 <= delta <= q,
        p.len() >= 1,
        u.len() == p.len(),
        e.len() == p.len(),
        m.len() == p.len() || m.len() == 0,
        in_range(p, 0, q),
        in_range(u, 0, 2),
        encrypt_fits(p.len() as int, q, abs_sum(e), abs_sum(m)),
    ensures
        forall|k: int| #[trigger] crate::ring::conv_abs_at(p, u, k) <= i64::MAX,
        forall|i: int| 0 <= i < add_spec(mul_spec(p, u), e).len()
            ==> #[trigger] crate::ring::fits_i64(add_spec(mul_spec(p, u), e)[i]),
        forall|i: int| 0 <= i < m.len()
            ==> #[trigger] crate::ring::fits_i64(scalar_mul_spec(m, delta)[i]),
        forall|i: int| 0 <= i
            < add_spec(add_spec(mul_spec(p, u), e), scalar_mul_spec(m, delta)).len()
            ==> #[trigger] crate::ring::fits_i64(
                add_spec(add_spec(mul_spec(p, u), e), scalar_mul_spec(m, delta))[i]),
        abs_sum(add_spec(add_spec(mul_spec(p, u), e), scalar_mul_spec(m, delta))) <= i64::MAX,
        abs_sum(add_spec(mul_spec(p, u), e)) <= i64::MAX,
{
    let n = p.len() as int;
    let err = abs_sum(e);
    let msg = abs_sum(m);
    lemma_abs_sum_props(e);
    lemma_abs_sum_props(m);
    lemma_in_range_bounded(p, q);
    lemma_in_range_bounded(u, 2);
    lemma_mul_bounded(p, u, q - 1, 1);
    assert(n * (q - 1) * 1 == n * (q - 1)) by (nonlinear_arith);
    lemma_bounded_by_abs_sum(e);
    lemma_bounded_by_abs_sum(m);
    lemma_add_bounded(mul_spec(p, u), e, n * (q - 1), err);
    lemma_scalar_mul_bounded(m, msg, delta);
    assert(vstd::math::abs(delta) == delta);
    assert(msg * delta <= msg * q) by (nonlinear_arith)
        requires msg >= 0, 0 <= delta <= q;
    crate::bounds::lemma_bounded_le(scalar_mul_spec(m, delta), msg * delta, msg * q);
    let bm = n * (q - 1) + err;
    let bw = msg * q;
    lemma_add_bounded(add_spec(mul_spec(p, u), e), scalar_mul_spec(m, delta), bm, bw);
    assert(msg * q >= 0) by (nonlinear_arith)
        requires msg >= 0, q >= 2;
    assert((2 * n - 1) * (bm + bw) >= bm + bw >= bm) by (nonlinear_arith)
        requires n >= 1, bm >= 0, bw >= 0;
    let total = add_spec(add_spec(mul_spec(p, u), e), scalar_mul_spec(m, delta));
    assert(total.len() == 2 * n - 1);
    lemma_abs_sum_bound(total, bm + bw);
    lemma_abs_sum_bound(add_spec(mul_spec(p, u), e), bm);
    assert((2 * n - 1) * bm <= (2 * n - 1) * (bm + bw)) by (nonlinear_arith)
        requires n >= 1, bm >= 0, bw >= 0;
    lemma_bounded_fits(add_spec(mul_spec(p, u), e), bm);
    lemma_bounded_fits(scalar_mul_spec(m, delta), bw);
    lemma_bounded_fits(total, bm + bw);
    assert forall|k: int| #[trigger] crate::ring::conv_abs_at(p, u, k) <= i64::MAX by {
        crate::bounds::lemma_conv_abs_bound(p, u, k, q - 1, 1);
    }
}

} // verus!
