//! Ciphertexts: a pair of ring elements under the moduli `(q, t)`,
//! with decryption and the homomorphic operations.

use vstd::prelude::*;
use crate::poly::Poly;
use crate::plaintext::Plaintext;
use crate::keys::SecretKey;
use crate::keys::RelinearizationKey1;
use crate::keys::RelinearizationKey2;
use crate::ring::add_spec;
use crate::ring::sub_spec;
use crate::ring::neg_spec;
use crate::ring::mul_spec;
use crate::ring::scale_spec;
use crate::ring::reduce_spec;
use crate::ring::zero_poly;
use crate::ring::digit_at;
use crate::ring::conv_abs_at;
use crate::ring::fits_i64;
use crate::ring::in_range;
use crate::ring::bounded;
use crate::ring::abs_sum;
use crate::bounds::lemma_in_range_bounded;
use crate::bounds::lemma_mul_bounded;
use crate::bounds::lemma_add_bounded;
use crate::bounds::lemma_scale_bounded;
use crate::bounds::lemma_scale_unit_range;
use crate::bounds::lemma_bounded_le;
use crate::bounds::lemma_bounded_fits;
use crate::bounds::lemma_abs_sum_bound;
use crate::bounds::lemma_reduce_range;
use crate::bounds::lemma_digit_bound;
use vstd::arithmetic::power::pow;

verus! {

/// A ciphertext: the pair `(c_0, c_1)` with
/// `c_0 = [p_0 * u + e_1 + delta * m]_q` and `c_1 = [p_1 * u + e_2]_q`,
/// carrying the ciphertext modulus `q` and the plaintext modulus `t`.
pub struct Ciphertext {
    pub c_0: Poly,
    pub c_1: Poly,
    pub q: i64,
    pub t: i64,
}

/// What decryption computes: fold `c_0 + c_1 * s` to length `n` modulo
/// `(X^n + 1, q)`, scale by the exact rational `t / q` with rounding,
/// and reduce modulo `(X^n + 1, t)`.
pub open spec fn decrypt_spec(c0: Seq<int>, c1: Seq<int>, s: Seq<int>, q: int, t: int) -> Seq<
    int,
> {
    reduce_spec(
        scale_spec(reduce_spec(add_spec(c0, mul_spec(c1, s)), q, s.len()), t, q),
        t,
        s.len(),
    )
}

/// One component of the tensor product: `[(x * y) * (t/q)]_q`, folded
/// to length `n`.
pub open spec fn scaled_product(x: Seq<int>, y: Seq<int>, t: int, q: int, n: nat) -> Seq<int> {
    reduce_spec(scale_spec(mul_spec(x, y), t, q), q, n)
}

/// The middle component of the tensor product:
/// `[(x0 * y1 + x1 * y0) * (t/q)]_q`, folded to length `n`.
pub open spec fn scaled_cross(
    x0: Seq<int>,
    y1: Seq<int>,
    x1: Seq<int>,
    y0: Seq<int>,
    t: int,
    q: int,
    n: nat,
) -> Seq<int> {
    reduce_spec(scale_spec(add_spec(mul_spec(x0, y1), mul_spec(x1, y0)), t, q), q, n)
}

impl Ciphertext {
    /// Decrypt with the secret key: recover
    /// `[[c_0 + c_1 * s]_q * (t/q)]_t` as a plaintext with modulus `t`.
    pub fn decrypt(&self, secret_key: &SecretKey) -> (r: Plaintext)
        requires
            self.t > 1,
            self.q >= 2,
            secret_key.poly@.len() >= 1,
            2 * secret_key.poly@.len() <= usize::MAX,
            self.c_1@.len() >= 1,
            self.c_1@.len() + secret_key.poly@.len() <= usize::MAX,
            secret_key.poly@.len() * self.t <= i64::MAX,
            forall|k: int| #[trigger] conv_abs_at(self.c_1@, secret_key.poly@, k) <= i64::MAX,
            forall|i: int| 0 <= i < add_spec(self.c_0@, mul_spec(self.c_1@, secret_key.poly@)).len()
                ==> #[trigger] fits_i64(
                    add_spec(self.c_0@, mul_spec(self.c_1@, secret_key.poly@))[i]),
            abs_sum(add_spec(self.c_0@, mul_spec(self.c_1@, secret_key.poly@))) <= i64::MAX,
        ensures
            r.t == self.t,
            r.poly@ == decrypt_spec(
                self.c_0@,
                self.c_1@,
                secret_key.poly@,
                self.q as int,
                self.t as int,
            ),
    {
        let s = &secret_key.poly;
        let degree = s.degree();
        let raw = self.c_0.add(&self.c_1.mul(s)).modulo(self.q, degree);
        proof {
            lemma_reduce_range(
                add_spec(self.c_0@, mul_spec(self.c_1@, secret_key.poly@)),
                self.q as int,
                degree as nat,
            );
            lemma_scale_unit_range(raw@, self.t as int, self.q as int);
            lemma_bounded_fits(scale_spec(raw@, self.t as int, self.q as int), self.t as int);
            lemma_abs_sum_bound(scale_spec(raw@, self.t as int, self.q as int), self.t as int);
        }
        let scaled = raw.mul_rational(self.t, self.q);
        let poly = scaled.modulo(self.t, degree);
        Plaintext::new_from_poly(poly, self.t)
    }

    /// Componentwise sum of two ciphertexts; `(q, t)` carry through.
    pub fn add(&self, other: &Ciphertext) -> (r: Ciphertext)
        requires
            forall|i: int| 0 <= i < add_spec(self.c_0@, other.c_0@).len()
                ==> #[trigger] fits_i64(add_spec(self.c_0@, other.c_0@)[i]),
            forall|i: int| 0 <= i < add_spec(self.c_1@, other.c_1@).len()
                ==> #[trigger] fits_i64(add_spec(self.c_1@, other.c_1@)[i]),
        ensures
            r.c_0@ == add_spec(self.c_0@, other.c_0@),
            r.c_1@ == add_spec(self.c_1@, other.c_1@),
            r.q == self.q,
            r.t == self.t,
    {
        Ciphertext {
            c_0: self.c_0.add(&other.c_0),
            c_1: self.c_1.add(&other.c_1),
            q: self.q,
            t: self.t,
        }
    }

    /// Componentwise difference of two ciphertexts; `(q, t)` carry through.
    pub fn sub(&self, other: &Ciphertext) -> (r: Ciphertext)
        requires
            forall|i: int| 0 <= i < sub_spec(self.c_0@, other.c_0@).len()
                ==> #[trigger] fits_i64(sub_spec(self.c_0@, other.c_0@)[i]),
            forall|i: int| 0 <= i < sub_spec(self.c_1@, other.c_1@).len()
                ==> #[trigger] fits_i64(sub_spec(self.c_1@, other.c_1@)[i]),
        ensures
            r.c_0@ == sub_spec(self.c_0@, other.c_0@),
            r.c_1@ == sub_spec(self.c_1@, other.c_1@),
            r.q == self.q,
            r.t == self.t,
    {
        Ciphertext {
            c_0: self.c_0.sub(&other.c_0),
            c_1: self.c_1.sub(&other.c_1),
            q: self.q,
            t: self.t,
        }
    }

    /// Componentwise negation; `(q, t)` carry through.
    pub fn neg(&self) -> (r: Ciphertext)
        requires
            forall|i: int| 0 <= i < self.c_0@.len()
                ==> #[trigger] fits_i64(neg_spec(self.c_0@)[i]),
            forall|i: int| 0 <= i < self.c_1@.len()
                ==> #[trigger] fits_i64(neg_spec(self.c_1@)[i]),
        ensures
            r.c_0@ == neg_spec(self.c_0@),
            r.c_1@ == neg_spec(self.c_1@),
            r.q == self.q,
            r.t == self.t,
    {
        Ciphertext { c_0: self.c_0.neg(), c_1: self.c_1.neg(), q: self.q, t: self.t }
    }

    /// The tensor-style product of two ciphertexts: the three
    /// components `(d_0, d_1, d_2)` whose decryption polynomial is
    /// `d_0 + d_1 * s + d_2 * s^2`. Each is scaled by `t / q` with
    /// rounding and reduced modulo `(X^n + 1, q)`; relinearization
    /// collapses `d_2` back into a two-component ciphertext.
    pub fn basic_mul(&self, other: &Ciphertext) -> (r: (Poly, Poly, Poly))
        requires
            self.q >= 2,
            self.t > 1,
            other.q == self.q,
            other.t == self.t,
            self.c_0@.len() >= 1,
            self.c_0@.len() == self.c_1@.len(),
            self.c_0@.len() == other.c_0@.len(),
            self.c_0@.len() == other.c_1@.len(),
            2 * self.c_0@.len() <= usize::MAX,
            in_range(self.c_0@, 0, self.q as int),
            in_range(self.c_1@, 0, self.q as int),
            in_range(other.c_0@, 0, self.q as int),
            in_range(other.c_1@, 0, self.q as int),
            2 * (self.c_0@.len() * (self.q - 1) * (self.q - 1)) <= i64::MAX,
            (2 * self.c_0@.len() - 1) * ((2 * self.c_0@.len() * (self.q - 1) * (self.q - 1))
                * self.t as int / self.q as int + 1) <= i64::MAX,
        ensures
            r.0@ == scaled_product(
                self.c_0@,
                other.c_0@,
                self.t as int,
                self.q as int,
                self.c_0@.len(),
            ),
            r.1@ == scaled_cross(
                self.c_0@,
                other.c_1@,
                self.c_1@,
                other.c_0@,
                self.t as int,
                self.q as int,
                self.c_0@.len(),
            ),
            r.2@ == scaled_product(
                self.c_1@,
                other.c_1@,
                self.t as int,
                self.q as int,
                self.c_0@.len(),
            ),
            r.0@.len() == self.c_0@.len(),
            r.1@.len() == self.c_0@.len(),
            r.2@.len() == self.c_0@.len(),
            in_range(r.0@, 0, self.q as int),
            in_range(r.1@, 0, self.q as int),
            in_range(r.2@, 0, self.q as int),
    {
        let degree = self.c_0.degree();
        let q = self.q;
        let t = self.t;
        proof {
            lemma_tensor_fits(self.c_0@, other.c_0@, t as int, q as int);
            lemma_tensor_fits(self.c_1@, other.c_1@, t as int, q as int);
            lemma_tensor_cross_fits(self.c_0@, other.c_1@, self.c_1@, other.c_0@, t as int, q as int);
        }
        let raw_0 = self.c_0.mul(&other.c_0);
        let raw_1 = self.c_0.mul(&other.c_1).add(&self.c_1.mul(&other.c_0));
        let raw_2 = self.c_1.mul(&other.c_1);
        let out_0 = raw_0.mul_rational(t, q).modulo(q, degree);
        let out_1 = raw_1.mul_rational(t, q).modulo(q, degree);
        let out_2 = raw_2.mul_rational(t, q).modulo(q, degree);
        proof {
            lemma_reduce_range(scale_spec(raw_0@, t as int, q as int), q as int, degree as nat);
            lemma_reduce_range(scale_spec(raw_1@, t as int, q as int), q as int, degree as nat);
            lemma_reduce_range(scale_spec(raw_2@, t as int, q as int), q as int, degree as nat);
        }
        (out_0, out_1, out_2)
    }
}

/// The level-`i` digit polynomial of the base-`base` decomposition of
/// `c2` into `l` levels.
pub open spec fn digits_spec(c2: Seq<int>, base: int, l: nat, i: nat) -> Seq<int> {
    Seq::new(c2.len(), |j: int| digit_at(c2[j], base, l, i))
}

/// The running relinearization sum over the first `i` levels: for each
/// level, the chosen half of the key entry (first or second) times the
/// level's digit polynomial, accumulated by ring addition from the
/// zero polynomial of length `n`.
pub open spec fn relin1_acc(
    val: Seq<(Poly, Poly)>,
    c2: Seq<int>,
    base: int,
    l: nat,
    n: nat,
    first: bool,
    i: nat,
) -> Seq<int>
    decreases i,
{
    if i == 0 {
        zero_poly(n)
    } else {
        add_spec(
            relin1_acc(val, c2, base, l, n, first, (i - 1) as nat),
            mul_spec(
                if first {
                    val[i - 1].0@
                } else {
                    val[i - 1].1@
                },
                digits_spec(c2, base, l, (i - 1) as nat),
            ),
        )
    }
}

impl Ciphertext {
    /// Relinearization, variant 1: decompose `c_2` into `l` base-T
    /// digit polynomials and fold them back through the key, adding
    /// `sum of rlk[i].0 * dec[i]` to `c_0` and
    /// `sum of rlk[i].1 * dec[i]` to `c_1`, without intermediate
    /// reduction.
    pub fn relinearization_1(
        &self,
        c_0: Poly,
        c_1: Poly,
        c_2: Poly,
        rlk: &RelinearizationKey1,
    ) -> (r: Ciphertext)
        requires
            self.q >= 2,
            rlk.base >= 2,
            rlk.l >= 1,
            rlk.val@.len() >= rlk.l,
            c_0@.len() >= 1,
            c_1@.len() == c_0@.len(),
            c_2@.len() == c_0@.len(),
            2 * c_0@.len() <= usize::MAX,
            pow(rlk.base as int, (rlk.l - 1) as nat) <= i64::MAX,
            in_range(c_0@, 0, self.q as int),
            in_range(c_1@, 0, self.q as int),
            in_range(c_2@, 0, self.q as int),
            forall|i: int| 0 <= i < rlk.l
                ==> (#[trigger] rlk.val@[i]).0@.len() == c_0@.len()
                    && rlk.val@[i].1@.len() == c_0@.len()
                    && in_range(rlk.val@[i].0@, 0, self.q as int)
                    && in_range(rlk.val@[i].1@, 0, self.q as int),
            rlk.l * (c_0@.len() * (self.q - 1) * (self.q - 1)) + (self.q - 1) <= i64::MAX,
        ensures
            r.q == self.q,
            r.t == self.t,
            r.c_0@ == add_spec(
                c_0@,
                relin1_acc(
                    rlk.val@,
                    c_2@,
                    rlk.base as int,
                    rlk.l as nat,
                    c_0@.len(),
                    true,
                    rlk.l as nat,
                ),
            ),
            r.c_1@ == add_spec(
                c_1@,
                relin1_acc(
                    rlk.val@,
                    c_2@,
                    rlk.base as int,
                    rlk.l as nat,
                    c_0@.len(),
                    false,
                    rlk.l as nat,
                ),
            ),
    {
        let degree = c_0.degree();
        let q = self.q;
        let ghost n = c_0@.len();
        let ghost base_g = rlk.base as int;
        let ghost l_g = rlk.l as nat;
        let ghost cb = n as int * (q as int - 1) * (q as int - 1);
        let c_2_dec = c_2.decompose(rlk.l, rlk.base);
        proof {
            assert forall|lev: int| 0 <= lev < rlk.l
                implies (#[trigger] c_2_dec@[lev])@ == digits_spec(c_2@, base_g, l_g, lev as nat) by {
                assert(c_2_dec@[lev]@ =~= digits_spec(c_2@, base_g, l_g, lev as nat));
            }
            assert(cb >= 0) by (nonlinear_arith)
                requires cb == n as int * (q as int - 1) * (q as int - 1), n >= 1, q >= 2;
        }
        let mut zeros_0: Vec<i64> = Vec::new();
        let mut zeros_1: Vec<i64> = Vec::new();
        let mut z: usize = 0;
        while z < degree
            invariant
                z <= degree,
                zeros_0@.len() == z,
                zeros_1@.len() == z,
                forall|j: int| 0 <= j < z ==> zeros_0@[j] as int == 0,
                forall|j: int| 0 <= j < z ==> zeros_1@[j] as int == 0,
            decreases degree - z,
        {
            zeros_0.push(0);
            zeros_1.push(0);
            z += 1;
        }
        let mut c_2_0 = Poly::new(zeros_0);
        let mut c_2_1 = Poly::new(zeros_1);
        proof {
            assert(c_2_0@ =~= relin1_acc(rlk.val@, c_2@, base_g, l_g, n, true, 0nat));
            assert(c_2_1@ =~= relin1_acc(rlk.val@, c_2@, base_g, l_g, n, false, 0nat));
        }
        let mut i: usize = 0;
        while i < rlk.l
            invariant
                i <= rlk.l,
                q == self.q,
                q >= 2,
                rlk.base >= 2,
                rlk.l >= 1,
                rlk.val@.len() >= rlk.l,
                n == c_0@.len(),
                n >= 1,
                degree == n,
                2 * n <= usize::MAX,
                base_g == rlk.base as int,
                l_g == rlk.l as nat,
                cb == n as int * (q as int - 1) * (q as int - 1),
                cb >= 0,
                in_range(c_2@, 0, q as int),
                c_2@.len() == n,
                c_2_dec@.len() == rlk.l,
                forall|lev: int| 0 <= lev < rlk.l
                    ==> (#[trigger] c_2_dec@[lev])@ == digits_spec(c_2@, base_g, l_g, lev as nat),
                forall|t: int| 0 <= t < rlk.l
                    ==> (#[trigger] rlk.val@[t]).0@.len() == n
                        && rlk.val@[t].1@.len() == n
                        && in_range(rlk.val@[t].0@, 0, q as int)
                        && in_range(rlk.val@[t].1@, 0, q as int),
                rlk.l * cb + (q - 1) <= i64::MAX,
                c_2_0@ == relin1_acc(rlk.val@, c_2@, base_g, l_g, n, true, i as nat),
                c_2_1@ == relin1_acc(rlk.val@, c_2@, base_g, l_g, n, false, i as nat),
                bounded(c_2_0@, i as int * cb),
                bounded(c_2_1@, i as int * cb),
            decreases rlk.l - i,
        {
            let ghost digs = digits_spec(c_2@, base_g, l_g, i as nat);
            proof {
                assert forall|j: int| 0 <= j < n implies -(q as int - 1) <= #[trigger] digs[j]
                    <= q as int - 1 by {
                    lemma_digit_bound(c_2@[j], base_g, l_g, i as nat);
                }
                lemma_in_range_bounded(rlk.val@[i as int].0@, q as int);
                lemma_in_range_bounded(rlk.val@[i as int].1@, q as int);
                lemma_mul_bounded(rlk.val@[i as int].0@, digs, q as int - 1, q as int - 1);
                lemma_mul_bounded(rlk.val@[i as int].1@, digs, q as int - 1, q as int - 1);
                assert(i as int * cb + cb == (i + 1) as int * cb) by (nonlinear_arith);
                assert((i + 1) as int * cb <= rlk.l * cb) by (nonlinear_arith)
                    requires 0 <= i + 1 <= rlk.l, cb >= 0;
                assert(rlk.l * cb <= i64::MAX);
                assert(i as int * cb >= 0) by (nonlinear_arith)
                    requires i >= 0, cb >= 0;
                lemma_add_bounded(c_2_0@, mul_spec(rlk.val@[i as int].0@, digs), i as int * cb, cb);
                lemma_add_bounded(c_2_1@, mul_spec(rlk.val@[i as int].1@, digs), i as int * cb, cb);
                lemma_bounded_fits(
                    add_spec(c_2_0@, mul_spec(rlk.val@[i as int].0@, digs)),
                    i as int * cb + cb,
                );
                lemma_bounded_fits(
                    add_spec(c_2_1@, mul_spec(rlk.val@[i as int].1@, digs)),
                    i as int * cb + cb,
                );
            }
            let pair = &rlk.val[i];
            let prod_0 = pair.0.mul(&c_2_dec[i]);
            let prod_1 = pair.1.mul(&c_2_dec[i]);
            c_2_0 = c_2_0.add(&prod_0);
            c_2_1 = c_2_1.add(&prod_1);
            i += 1;
        }
        proof {
            lemma_in_range_bounded(c_0@, q as int);
            lemma_in_range_bounded(c_2@, q as int);
            assert(rlk.l as int * cb >= 0) by (nonlinear_arith)
                requires rlk.l >= 1, cb >= 0;
            lemma_add_bounded(c_0@, c_2_0@, q as int - 1, rlk.l as int * cb);
            lemma_bounded_fits(add_spec(c_0@, c_2_0@), q as int - 1 + rlk.l as int * cb);
            lemma_in_range_bounded(c_1@, q as int);
            lemma_add_bounded(c_1@, c_2_1@, q as int - 1, rlk.l as int * cb);
            lemma_bounded_fits(add_spec(c_1@, c_2_1@), q as int - 1 + rlk.l as int * cb);
        }
        Ciphertext { c_0: c_0.add(&c_2_0), c_1: c_1.add(&c_2_1), q: self.q, t: self.t }
    }
}

impl Ciphertext {
    /// Relinearization, variant 2: fold `c_2` through the enlarged-
    /// modulus key and switch back by the rounded division by `p`,
    /// adding `[[c_2 * rlk_0] / p]_q` to `c_0` and
    /// `[[c_2 * rlk_1] / p]_q` to `c_1`, each sum reduced modulo
    /// `(X^n + 1, q)`.
    pub fn relinearization_2(
        &self,
        c_0: Poly,
        c_1: Poly,
        c_2: Poly,
        rlk: &RelinearizationKey2,
    ) -> (r: Ciphertext)
        requires
            self.q >= 2,
            rlk.p >= 1,
            rlk.p as int * self.q as int <= i64::MAX,
            c_0@.len() >= 1,
            c_1@.len() == c_0@.len(),
            c_2@.len() == c_0@.len(),
            rlk.rlk_0@.len() == c_0@.len(),
            rlk.rlk_1@.len() == c_0@.len(),
            2 * c_0@.len() <= usize::MAX,
            in_range(c_0@, 0, self.q as int),
            in_range(c_1@, 0, self.q as int),
            in_range(c_2@, 0, self.q as int),
            in_range(rlk.rlk_0@, 0, rlk.p as int * self.q as int),
            in_range(rlk.rlk_1@, 0, rlk.p as int * self.q as int),
            c_0@.len() * (self.q - 1) * (rlk.p as int * self.q as int - 1) <= i64::MAX,
            (2 * c_0@.len() - 1) * ((c_0@.len() * (self.q - 1) * (rlk.p as int * self.q as int
                - 1)) / rlk.p as int + 1) <= i64::MAX,
            2 * c_0@.len() * self.q <= i64::MAX,
        ensures
            r.q == self.q,
            r.t == self.t,
            r.c_0@ == reduce_spec(
                add_spec(
                    c_0@,
                    reduce_spec(
                        scale_spec(mul_spec(c_2@, rlk.rlk_0@), 1, rlk.p as int),
                        self.q as int,
                        c_0@.len(),
                    ),
                ),
                self.q as int,
                c_0@.len(),
            ),
            r.c_1@ == reduce_spec(
                add_spec(
                    c_1@,
                    reduce_spec(
                        scale_spec(mul_spec(c_2@, rlk.rlk_1@), 1, rlk.p as int),
                        self.q as int,
                        c_0@.len(),
                    ),
                ),
                self.q as int,
                c_0@.len(),
            ),
    {
        let degree = c_0.degree();
        let q = self.q;
        let p = rlk.p;
        proof {
            lemma_switch_fits(c_2@, rlk.rlk_0@, p as int, q as int);
            lemma_switch_fits(c_2@, rlk.rlk_1@, p as int, q as int);
        }
        let c_2_0 = c_2.mul(&rlk.rlk_0).mul_rational(1, p).modulo(q, degree);
        let c_2_1 = c_2.mul(&rlk.rlk_1).mul_rational(1, p).modulo(q, degree);
        proof {
            lemma_reduce_range(
                scale_spec(mul_spec(c_2@, rlk.rlk_0@), 1, p as int),
                q as int,
                degree as nat,
            );
            lemma_reduce_range(
                scale_spec(mul_spec(c_2@, rlk.rlk_1@), 1, p as int),
                q as int,
                degree as nat,
            );
            lemma_in_range_bounded(c_0@, q as int);
            lemma_in_range_bounded(c_1@, q as int);
            lemma_in_range_bounded(c_2_0@, q as int);
            lemma_in_range_bounded(c_2_1@, q as int);
            lemma_add_bounded(c_0@, c_2_0@, q as int - 1, q as int - 1);
            lemma_add_bounded(c_1@, c_2_1@, q as int - 1, q as int - 1);
            assert(0 <= 2 * (q as int - 1) <= 2 * degree * q) by (nonlinear_arith)
                requires degree >= 1, q >= 2;
            lemma_bounded_fits(add_spec(c_0@, c_2_0@), 2 * (q as int - 1));
            lemma_bounded_fits(add_spec(c_1@, c_2_1@), 2 * (q as int - 1));
            lemma_abs_sum_bound(add_spec(c_0@, c_2_0@), 2 * (q as int - 1));
            lemma_abs_sum_bound(add_spec(c_1@, c_2_1@), 2 * (q as int - 1));
            assert(add_spec(c_0@, c_2_0@).len() * (2 * (q as int - 1)) <= 2 * degree * q)
                by (nonlinear_arith)
                requires add_spec(c_0@, c_2_0@).len() == degree, degree >= 1, q >= 2;
            assert(add_spec(c_1@, c_2_1@).len() * (2 * (q as int - 1)) <= 2 * degree * q)
                by (nonlinear_arith)
                requires add_spec(c_1@, c_2_1@).len() == degree, degree >= 1, q >= 2;
        }
        Ciphertext {
            c_0: c_0.add(&c_2_0).modulo(q, degree),
            c_1: c_1.add(&c_2_1).modulo(q, degree),
            q: self.q,
            t: self.t,
        }
    }

    /// Homomorphic multiplication using relinearization variant 1:
    /// the tensor product followed by the base-T digit fold through
    /// the key.
    pub fn mul_1(&self, other: &Ciphertext, rlk: &RelinearizationKey1) -> (r: Ciphertext)
        requires
            self.q >= 2,
            self.t > 1,
            other.q == self.q,
            other.t == self.t,
            self.c_0@.len() >= 1,
            self.c_0@.len() == self.c_1@.len(),
            self.c_0@.len() == other.c_0@.len(),
            self.c_0@.len() == other.c_1@.len(),
            2 * self.c_0@.len() <= usize::MAX,
            in_range(self.c_0@, 0, self.q as int),
            in_range(self.c_1@, 0, self.q as int),
            in_range(other.c_0@, 0, self.q as int),
            in_range(other.c_1@, 0, self.q as int),
            2 * (self.c_0@.len() * (self.q - 1) * (self.q - 1)) <= i64::MAX,
            (2 * self.c_0@.len() - 1) * ((2 * self.c_0@.len() * (self.q - 1) * (self.q - 1))
                * self.t as int / self.q as int + 1) <= i64::MAX,
            rlk.base >= 2,
            rlk.l >= 1,
            rlk.val@.len() >= rlk.l,
            pow(rlk.base as int, (rlk.l - 1) as nat) <= i64::MAX,
            forall|i: int| 0 <= i < rlk.l
                ==> (#[trigger] rlk.val@[i]).0@.len() == self.c_0@.len()
                    && rlk.val@[i].1@.len() == self.c_0@.len()
                    && in_range(rlk.val@[i].0@, 0, self.q as int)
                    && in_range(rlk.val@[i].1@, 0, self.q as int),
            rlk.l * (self.c_0@.len() * (self.q - 1) * (self.q - 1)) + (self.q - 1) <= i64::MAX,
        ensures
            r.q == self.q,
            r.t == self.t,
            r.c_0@ == add_spec(
                scaled_product(self.c_0@, other.c_0@, self.t as int, self.q as int, self.c_0@.len()),
                relin1_acc(
                    rlk.val@,
                    scaled_product(
                        self.c_1@,
                        other.c_1@,
                        self.t as int,
                        self.q as int,
                        self.c_0@.len(),
                    ),
                    rlk.base as int,
                    rlk.l as nat,
                    self.c_0@.len(),
                    true,
                    rlk.l as nat,
                ),
            ),
            r.c_1@ == add_spec(
                scaled_cross(
                    self.c_0@,
                    other.c_1@,
                    self.c_1@,
                    other.c_0@,
                    self.t as int,
                    self.q as int,
                    self.c_0@.len(),
                ),
                relin1_acc(
                    rlk.val@,
                    scaled_product(
                        self.c_1@,
                        other.c_1@,
                        self.t as int,
                        self.q as int,
                        self.c_0@.len(),
                    ),
                    rlk.base as int,
                    rlk.l as nat,
                    self.c_0@.len(),
                    false,
                    rlk.l as nat,
                ),
            ),
    {
        let (c_0, c_1, c_2) = self.basic_mul(other);
        self.relinearization_1(c_0, c_1, c_2, rlk)
    }

    /// Homomorphic multiplication using relinearization variant 2:
    /// the tensor product followed by the rounded modulus switch
    /// through the enlarged-modulus key.
    pub fn mul_2(&self, other: &Ciphertext, rlk: &RelinearizationKey2) -> (r: Ciphertext)
        requires
            self.q >= 2,
            self.t > 1,
            other.q == self.q,
            other.t == self.t,
            self.c_0@.len() >= 1,
            self.c_0@.len() == self.c_1@.len(),
            self.c_0@.len() == other.c_0@.len(),
            self.c_0@.len() == other.c_1@.len(),
            2 * self.c_0@.len() <= usize::MAX,
            in_range(self.c_0@, 0, self.q as int),
            in_range(self.c_1@, 0, self.q as int),
            in_range(other.c_0@, 0, self.q as int),
            in_range(other.c_1@, 0, self.q as int),
            2 * (self.c_0@.len() * (self.q - 1) * (self.q - 1)) <= i64::MAX,
            (2 * self.c_0@.len() - 1) * ((2 * self.c_0@.len() * (self.q - 1) * (self.q - 1))
                * self.t as int / self.q as int + 1) <= i64::MAX,
            rlk.p >= 1,
            rlk.p as int * self.q as int <= i64::MAX,
            rlk.rlk_0@.len() == self.c_0@.len(),
            rlk.rlk_1@.len() == self.c_0@.len(),
            in_range(rlk.rlk_0@, 0, rlk.p as int * self.q as int),
            in_range(rlk.rlk_1@, 0, rlk.p as int * self.q as int),
            self.c_0@.len() * (self.q - 1) * (rlk.p as int * self.q as int - 1) <= i64::MAX,
            (2 * self.c_0@.len() - 1) * ((self.c_0@.len() * (self.q - 1) * (rlk.p as int
                * self.q as int - 1)) / rlk.p as int + 1) <= i64::MAX,
            2 * self.c_0@.len() * self.q <= i64::MAX,
        ensures
            r.q == self.q,
            r.t == self.t,
            r.c_0@ == reduce_spec(
                add_spec(
                    scaled_product(
                        self.c_0@,
                        other.c_0@,
                        self.t as int,
                        self.q as int,
                        self.c_0@.len(),
                    ),
                    reduce_spec(
                        scale_spec(
                            mul_spec(
                                scaled_product(
                                    self.c_1@,
                                    other.c_1@,
                                    self.t as int,
                                    self.q as int,
                                    self.c_0@.len(),
                                ),
                                rlk.rlk_0@,
                            ),
                            1,
                            rlk.p as int,
                        ),
                        self.q as int,
                        self.c_0@.len(),
                    ),
                ),
                self.q as int,
                self.c_0@.len(),
            ),
            r.c_1@ == reduce_spec(
                add_spec(
                    scaled_cross(
                        self.c_0@,
                        other.c_1@,
                        self.c_1@,
                        other.c_0@,
                        self.t as int,
                        self.q as int,
                        self.c_0@.len(),
                    ),
                    reduce_spec(
                        scale_spec(
                            mul_spec(
                                scaled_product(
                                    self.c_1@,
                                    other.c_1@,
                                    self.t as int,
                                    self.q as int,
                                    self.c_0@.len(),
                                ),
                                rlk.rlk_1@,
                            ),
                            1,
                            rlk.p as int,
                        ),
                        self.q as int,
                        self.c_0@.len(),
                    ),
                ),
                self.q as int,
                self.c_0@.len(),
            ),
    {
        let (c_0, c_1, c_2) = self.basic_mul(other);
        self.relinearization_2(c_0, c_1, c_2, rlk)
    }
}

/// Discharges the overflow obligations of the modulus switch
/// `[[x * y] / p]_q` for `x` reduced into `[0, q)` and `y` into
/// `[0, p*q)`.
proof fn lemma_switch_fits(x: Seq<int>, y: Seq<int>, p: int, q: int)
    requires
        q >= 2,
        p >= 1,
        p * q <= i64::MAX,
        x.len() >= 1,
        y.len() == x.len(),
        in_range(x, 0, q),
        in_range(y, 0, p * q),
        x.len() * (q - 1) * (p * q - 1) <= i64::MAX,
        (2 * x.len() - 1) * ((x.len() * (q - 1) * (p * q - 1)) / p + 1) <= i64::MAX,
    ensures
        forall|k: int| #[trigger] conv_abs_at(x, y, k) <= i64::MAX,
        forall|i: int| 0 <= i < mul_spec(x, y).len()
            ==> #[trigger] fits_i64(scale_spec(mul_spec(x, y), 1, p)[i]),
        abs_sum(scale_spec(mul_spec(x, y), 1, p)) <= i64::MAX,
{
    let n = x.len() as int;
    let cb = n * (q - 1) * (p * q - 1);
    assert(p * q >= 2) by (nonlinear_arith)
        requires p >= 1, q >= 2;
    lemma_in_range_bounded(x, q);
    lemma_in_range_bounded(y, p * q);
    lemma_mul_bounded(x, y, q - 1, p * q - 1);
    assert(cb >= 0) by (nonlinear_arith)
        requires cb == n * (q - 1) * (p * q - 1), n >= 1, q >= 2, p >= 1;
    lemma_scale_bounded(mul_spec(x, y), 1, p, cb);
    assert(cb * 1 == cb) by (nonlinear_arith);
    let sb = cb / p + 1;
    assert(sb >= 1) by {
        vstd::arithmetic::div_mod::lemma_div_pos_is_pos(cb, p);
    }
    assert((2 * n - 1) * sb >= sb) by (nonlinear_arith)
        requires n >= 1, sb >= 1;
    lemma_bounded_fits(scale_spec(mul_spec(x, y), 1, p), sb);
    lemma_abs_sum_bound(scale_spec(mul_spec(x, y), 1, p), sb);
    assert(mul_spec(x, y).len() * sb <= (2 * n - 1) * sb) by (nonlinear_arith)
        requires mul_spec(x, y).len() == 2 * n - 1, sb >= 1;
}

/// Discharges the overflow obligations of one tensor component
/// `[(x * y) * (t/q)]_q` for operands reduced into `[0, q)`.
proof fn lemma_tensor_fits(x: Seq<int>, y: Seq<int>, t: int, q: int)
    requires
        q >= 2,
        t >= 2,
        x.len() >= 1,
        y.len() == x.len(),
        in_range(x, 0, q),
        in_range(y, 0, q),
        2 * (x.len() * (q - 1) * (q - 1)) <= i64::MAX,
        (2 * x.len() - 1) * ((2 * x.len() * (q - 1) * (q - 1)) * t / q + 1) <= i64::MAX,
    ensures
        forall|k: int| #[trigger] conv_abs_at(x, y, k) <= i64::MAX,
        forall|i: int| 0 <= i < mul_spec(x, y).len()
            ==> #[trigger] fits_i64(scale_spec(mul_spec(x, y), t, q)[i]),
        abs_sum(scale_spec(mul_spec(x, y), t, q)) <= i64::MAX,
{
    let n = x.len() as int;
    let cb = n * (q - 1) * (q - 1);
    lemma_in_range_bounded(x, q);
    lemma_in_range_bounded(y, q);
    lemma_mul_bounded(x, y, q - 1, q - 1);
    assert(cb >= 0) by (nonlinear_arith)
        requires cb == n * (q - 1) * (q - 1), n >= 1, q >= 2;
    assert(2 * cb == 2 * n * (q - 1) * (q - 1)) by (nonlinear_arith)
        requires cb == n * (q - 1) * (q - 1);
    assert(cb <= 2 * cb) by (nonlinear_arith)
        requires cb >= 0;
    lemma_bounded_le(mul_spec(x, y), cb, 2 * cb);
    lemma_scale_bounded(mul_spec(x, y), t, q, 2 * cb);
    let sb = (2 * cb) * t / q + 1;
    assert(sb >= 1) by {
        vstd::arithmetic::div_mod::lemma_div_pos_is_pos((2 * cb) * t, q);
        assert((2 * cb) * t >= 0) by (nonlinear_arith)
            requires cb >= 0, t >= 2;
    }
    assert((2 * n - 1) * sb >= sb) by (nonlinear_arith)
        requires n >= 1, sb >= 1;
    lemma_bounded_fits(scale_spec(mul_spec(x, y), t, q), sb);
    lemma_abs_sum_bound(scale_spec(mul_spec(x, y), t, q), sb);
    assert(mul_spec(x, y).len() * sb <= (2 * n - 1) * sb) by (nonlinear_arith)
        requires mul_spec(x, y).len() == 2 * n - 1, sb >= 1;
}

/// Discharges the overflow obligations of the middle tensor component
/// `[(x0 * y1 + x1 * y0) * (t/q)]_q` for operands reduced into `[0, q)`.
proof fn lemma_tensor_cross_fits(x0: Seq<int>, y1: Seq<int>, x1: Seq<int>, y0: Seq<int>, t: int, q:
    int)
    requires
        q >= 2,
        t >= 2,
        x0.len() >= 1,
        y1.len() == x0.len(),
        x1.len() == x0.len(),
        y0.len() == x0.len(),
        in_range(x0, 0, q),
        in_range(y1, 0, q),
        in_range(x1, 0, q),
        in_range(y0, 0, q),
        2 * (x0.len() * (q - 1) * (q - 1)) <= i64::MAX,
        (2 * x0.len() - 1) * ((2 * x0.len() * (q - 1) * (q - 1)) * t / q + 1) <= i64::MAX,
    ensures
        forall|k: int| #[trigger] conv_abs_at(x0, y1, k) <= i64::MAX,
        forall|k: int| #[trigger] conv_abs_at(x1, y0, k) <= i64::MAX,
        forall|i: int| 0 <= i < add_spec(mul_spec(x0, y1), mul_spec(x1, y0)).len()
            ==> #[trigger] fits_i64(add_spec(mul_spec(x0, y1), mul_spec(x1, y0))[i]),
        forall|i: int| 0 <= i < add_spec(mul_spec(x0, y1), mul_spec(x1, y0)).len()
            ==> #[trigger] fits_i64(
                scale_spec(add_spec(mul_spec(x0, y1), mul_spec(x1, y0)), t, q)[i]),
        abs_sum(scale_spec(add_spec(mul_spec(x0, y1), mul_spec(x1, y0)), t, q)) <= i64::MAX,
    {
    let n = x0.len() as int;
    let cb = n * (q - 1) * (q - 1);
    lemma_in_range_bounded(x0, q);
    lemma_in_range_bounded(y1, q);
    lemma_in_range_bounded(x1, q);
    lemma_in_range_bounded(y0, q);
    lemma_mul_bounded(x0, y1, q - 1, q - 1);
    lemma_mul_bounded(x1, y0, q - 1, q - 1);
    assert(cb >= 0) by (nonlinear_arith)
        requires cb == n * (q - 1) * (q - 1), n >= 1, q >= 2;
    assert(2 * cb == 2 * n * (q - 1) * (q - 1)) by (nonlinear_arith)
        requires cb == n * (q - 1) * (q - 1);
    lemma_add_bounded(mul_spec(x0, y1), mul_spec(x1, y0), cb, cb);
    let two_cb = cb + cb;
    assert(two_cb == 2 * cb);
    lemma_bounded_fits(add_spec(mul_spec(x0, y1), mul_spec(x1, y0)), two_cb);
    lemma_scale_bounded(add_spec(mul_spec(x0, y1), mul_spec(x1, y0)), t, q, two_cb);
    let sb = (2 * cb) * t / q + 1;
    assert(sb >= 1) by {
        vstd::arithmetic::div_mod::lemma_div_pos_is_pos((2 * cb) * t, q);
        assert((2 * cb) * t >= 0) by (nonlinear_arith)
            requires cb >= 0, t >= 2;
    }
    assert((2 * n - 1) * sb >= sb) by (nonlinear_arith)
        requires n >= 1, sb >= 1;
    lemma_bounded_fits(scale_spec(add_spec(mul_spec(x0, y1), mul_spec(x1, y0)), t, q), sb);
    lemma_abs_sum_bound(scale_spec(add_spec(mul_spec(x0, y1), mul_spec(x1, y0)), t, q), sb);
    assert(add_spec(mul_spec(x0, y1), mul_spec(x1, y0)).len() * sb <= (2 * n - 1) * sb)
        by (nonlinear_arith)
        requires add_spec(mul_spec(x0, y1), mul_spec(x1, y0)).len() == 2 * n - 1, sb >= 1;
}

} // verus!
