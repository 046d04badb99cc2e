//! The algebraic laws of the ring engine, proved once and for all over
//! the model in [`crate::ring`]: commutativity and associativity of
//! addition and convolution, identities, distributivity, idempotence of
//! reduction, and the exactness of the base-T digit decomposition.

use vstd::prelude::*;
use vstd::arithmetic::power::pow;
use vstd::arithmetic::power::lemma_pow0;
use vstd::arithmetic::div_mod::lemma_small_mod;
use vstd::arithmetic::div_mod::lemma_div_basics;
use vstd::arithmetic::div_mod::lemma_fundamental_div_mod_converse_div;
use vstd::arithmetic::div_mod::lemma_fundamental_div_mod;
use crate::sums::sum_terms;
use crate::sums::lemma_sum_congruence;
use crate::sums::lemma_sum_zero;
use crate::sums::lemma_sum_zero_tail;
use crate::sums::lemma_sum_reverse;
use crate::sums::lemma_sum_scale;
use crate::sums::lemma_sum_shift_drop;
use crate::sums::lemma_sum_exchange;
use crate::ring::coeff;
use crate::ring::zero_poly;
use crate::ring::add_spec;
use crate::ring::sub_spec;
use crate::ring::neg_spec;
use crate::ring::scalar_mul_spec;
use crate::ring::conv_at;
use crate::ring::mul_spec;
use crate::ring::scale_coeff;
use crate::ring::scale_spec;
use crate::ring::round_div;
use crate::ring::fold_prefix;
use crate::ring::fold_spec;
use crate::ring::reduce_spec;
use crate::ring::trunc_div;
use crate::ring::dec_rem;
use crate::ring::digit_at;
use crate::ring::in_range;
use crate::ciphertext::decrypt_spec;
use crate::ciphertext::scaled_product;
use crate::ciphertext::scaled_cross;

verus! {

/// The coefficient of a sum is the sum of the coefficients, at every
/// position, in or out of range.
pub proof fn lemma_coeff_add(a: Seq<int>, b: Seq<int>, i: int)
    ensures
        coeff(add_spec(a, b), i) == coeff(a, i) + coeff(b, i),
{
}

/// Addition is commutative.
pub proof fn lemma_add_comm(a: Seq<int>, b: Seq<int>)
    ensures
        add_spec(a, b) == add_spec(b, a),
{
    assert(add_spec(a, b) =~= add_spec(b, a));
}

/// Addition is associative.
pub proof fn lemma_add_assoc(a: Seq<int>, b: Seq<int>, c: Seq<int>)
    ensures
        add_spec(add_spec(a, b), c) == add_spec(a, add_spec(b, c)),
{
    assert forall|i: int| 0 <= i < add_spec(add_spec(a, b), c).len()
        implies #[trigger] add_spec(add_spec(a, b), c)[i] == add_spec(a, add_spec(b, c))[i] by {
        lemma_coeff_add(a, b, i);
        lemma_coeff_add(b, c, i);
    }
    assert(add_spec(add_spec(a, b), c) =~= add_spec(a, add_spec(b, c)));
}

/// The zero polynomial is an identity for addition: adding a zero
/// polynomial no longer than `a` returns `a` itself, and a longer one
/// only pads `a` with zero coefficients.
pub proof fn lemma_add_zero(a: Seq<int>, n: nat)
    ensures
        forall|i: int| coeff(#[trigger] add_spec(a, zero_poly(n)), i) == coeff(a, i),
        n <= a.len() ==> add_spec(a, zero_poly(n)) == a,
{
    if n <= a.len() {
        assert(add_spec(a, zero_poly(n)) =~= a);
    }
}

/// Subtracting a polynomial from itself yields the zero polynomial of
/// the same length.
pub proof fn lemma_sub_self(a: Seq<int>)
    ensures
        sub_spec(a, a) == zero_poly(a.len()),
{
    assert(sub_spec(a, a) =~= zero_poly(a.len()));
}

/// Negation is an involution.
pub proof fn lemma_neg_involution(a: Seq<int>)
    ensures
        neg_spec(neg_spec(a)) == a,
{
    assert(neg_spec(neg_spec(a)) =~= a);
}

/// Multiplication by an integer distributes over addition.
pub proof fn lemma_scalar_mul_distributes(a: Seq<int>, b: Seq<int>, k: int)
    ensures
        scalar_mul_spec(add_spec(a, b), k)
            == add_spec(scalar_mul_spec(a, k), scalar_mul_spec(b, k)),
{
    assert forall|i: int| 0 <= i < add_spec(a, b).len()
        implies #[trigger] scalar_mul_spec(add_spec(a, b), k)[i]
            == add_spec(scalar_mul_spec(a, k), scalar_mul_spec(b, k))[i] by {
        let x = coeff(a, i);
        let y = coeff(b, i);
        assert((x + y) * k == x * k + y * k) by (nonlinear_arith);
        if i >= a.len() {
            assert(coeff(scalar_mul_spec(a, k), i) == 0);
        } else {
            assert(coeff(scalar_mul_spec(a, k), i) == x * k);
        }
        if i >= b.len() {
            assert(coeff(scalar_mul_spec(b, k), i) == 0);
        } else {
            assert(coeff(scalar_mul_spec(b, k), i) == y * k);
        }
        assert(0 * k == 0) by (nonlinear_arith);
    }
    assert(scalar_mul_spec(add_spec(a, b), k)
        =~= add_spec(scalar_mul_spec(a, k), scalar_mul_spec(b, k)));
}

/// Multiplication by the integer zero yields the zero polynomial of the
/// same length.
pub proof fn lemma_scalar_mul_zero(a: Seq<int>)
    ensures
        scalar_mul_spec(a, 0) == zero_poly(a.len()),
{
    assert forall|i: int| 0 <= i < a.len()
        implies #[trigger] scalar_mul_spec(a, 0)[i] == 0 by {
        assert(a[i] * 0 == 0) by (nonlinear_arith);
    }
    assert(scalar_mul_spec(a, 0) =~= zero_poly(a.len()));
}

/// Scaling by the rational `r / r` is the identity: integer inputs are
/// preserved exactly by the rounding.
pub proof fn lemma_scale_identity(a: Seq<int>, r: int)
    requires
        r >= 1,
    ensures
        scale_spec(a, r, r) == a,
{
    assert forall|i: int| 0 <= i < a.len() implies #[trigger] scale_spec(a, r, r)[i] == a[i] by {
        lemma_scale_coeff_identity(a[i], r);
    }
    assert(scale_spec(a, r, r) =~= a);
}

/// One coefficient scaled by `r / r` with rounding is unchanged.
pub proof fn lemma_scale_coeff_identity(c: int, r: int)
    requires
        r >= 1,
    ensures
        scale_coeff(c, r, r) == c,
{
    if c >= 0 {
        assert(c * r >= 0) by (nonlinear_arith)
            requires c >= 0, r >= 1;
        assert(2 * (c * r) + r == (2 * r) * c + r) by (nonlinear_arith);
        lemma_fundamental_div_mod_converse_div(2 * (c * r) + r, 2 * r, c, r);
    } else {
        assert(c * r < 0 && -(c * r) == (-c) * r) by (nonlinear_arith)
            requires c < 0, r >= 1;
        assert(2 * ((-c) * r) + r == (2 * r) * (-c) + r) by (nonlinear_arith);
        lemma_fundamental_div_mod_converse_div(2 * ((-c) * r) + r, 2 * r, -c, r);
    }
}

/// The anticyclic fold leaves a polynomial of length at most `n` as it
/// is, up to padding with zeros to length `n`.
pub proof fn lemma_fold_short(a: Seq<int>, n: nat, k: nat)
    requires
        a.len() <= n,
        k <= a.len(),
        n >= 1,
    ensures
        fold_prefix(a, n, k).len() == n,
        forall|i: int| 0 <= i < n
            ==> #[trigger] fold_prefix(a, n, k)[i] == if i < k { a[i] } else { 0 },
    decreases k,
{
    if k > 0 {
        lemma_fold_short(a, n, (k - 1) as nat);
        lemma_small_mod((k - 1) as nat, 2 * n);
    }
}

/// Reduction modulo `(X^n + 1, q)` is idempotent once the length is `n`.
pub proof fn lemma_reduce_idempotent(a: Seq<int>, q: int, n: nat)
    requires
        q >= 1,
        n >= 1,
    ensures
        reduce_spec(reduce_spec(a, q, n), q, n) == reduce_spec(a, q, n),
{
    let b = reduce_spec(a, q, n);
    crate::bounds::lemma_reduce_range(a, q, n);
    lemma_fold_short(b, n, n);
    assert forall|i: int| 0 <= i < n
        implies #[trigger] reduce_spec(b, q, n)[i] == b[i] by {
        assert(fold_spec(b, n)[i] == b[i]);
        lemma_small_mod(b[i] as nat, q as nat);
    }
    assert(reduce_spec(b, q, n) =~= b);
}

/// A position of a product polynomial reads as the convolution sum at
/// that position, inside the stored range and out of it.
pub proof fn lemma_coeff_mul(a: Seq<int>, b: Seq<int>, i: int)
    requires
        a.len() >= 1,
        b.len() >= 1,
    ensures
        coeff(mul_spec(a, b), i) == conv_at(a, b, i),
{
    let na = a.len() as int;
    let nb = b.len() as int;
    if i >= na + nb - 1 {
        let f = |j: int| coeff(a, j) * coeff(b, i - j);
        assert forall|j: int| 0 <= j < i + 1 implies #[trigger] f(j) == 0 by {
            if j < na {
                assert(coeff(b, i - j) == 0);
                assert(coeff(a, j) * coeff(b, i - j) == 0) by (nonlinear_arith)
                    requires coeff(b, i - j) == 0;
            } else {
                assert(coeff(a, j) == 0);
                assert(coeff(a, j) * coeff(b, i - j) == 0) by (nonlinear_arith)
                    requires coeff(a, j) == 0;
            }
        }
        lemma_sum_zero((i + 1) as nat, f);
    }
}

/// Convolution is commutative at every position.
pub proof fn lemma_conv_comm(a: Seq<int>, b: Seq<int>, k: int)
    ensures
        conv_at(a, b, k) == conv_at(b, a, k),
{
    if k >= 0 {
        let f = |i: int| coeff(a, i) * coeff(b, k - i);
        let g = |i: int| coeff(b, i) * coeff(a, k - i);
        assert forall|i: int| 0 <= i < k + 1 implies #[trigger] g(i) == f(k - i) by {
            assert(coeff(b, i) * coeff(a, k - i) == coeff(a, k - i) * coeff(b, i))
                by (nonlinear_arith);
        }
        lemma_sum_reverse((k + 1) as nat, f, g);
    }
}

/// Polynomial multiplication is commutative.
pub proof fn lemma_mul_comm(a: Seq<int>, b: Seq<int>)
    requires
        a.len() >= 1,
        b.len() >= 1,
    ensures
        mul_spec(a, b) == mul_spec(b, a),
{
    assert forall|k: int| 0 <= k < a.len() + b.len() - 1
        implies #[trigger] mul_spec(a, b)[k] == mul_spec(b, a)[k] by {
        lemma_conv_comm(a, b, k);
    }
    assert(mul_spec(a, b) =~= mul_spec(b, a));
}

/// The product's length is one less than the sum of the operands'.
pub proof fn lemma_mul_len(a: Seq<int>, b: Seq<int>)
    requires
        a.len() >= 1,
        b.len() >= 1,
    ensures
        mul_spec(a, b).len() == a.len() + b.len() - 1,
{
}

/// Associativity of convolution at one position: grouping the triple
/// product either way gives the same coefficient.
pub proof fn lemma_conv_assoc(a: Seq<int>, b: Seq<int>, c: Seq<int>, k: int)
    requires
        a.len() >= 1,
        b.len() >= 1,
        c.len() >= 1,
    ensures
        conv_at(mul_spec(a, b), c, k) == conv_at(a, mul_spec(b, c), k),
{
    if k < 0 {
        return;
    }
    let n = (k + 1) as nat;
    let ab = mul_spec(a, b);
    let bc = mul_spec(b, c);
    let t = |i: int, j: int| coeff(a, j) * coeff(b, i - j) * coeff(c, k - i);
    let rows = |i: int| sum_terms(n, (|j: int| t(i, j)));
    let cols = |j: int| sum_terms(n, (|i: int| t(i, j)));

    // The left-hand side is the sum of the rows.
    let f1 = |i: int| coeff(ab, i) * coeff(c, k - i);
    assert forall|i: int| 0 <= i < n implies #[trigger] f1(i) == rows(i) by {
        lemma_coeff_mul(a, b, i);
        let u = |j: int| coeff(a, j) * coeff(b, i - j);
        assert forall|j: int| i + 1 <= j < n implies #[trigger] u(j) == 0 by {
            assert(coeff(b, i - j) == 0);
            assert(coeff(a, j) * coeff(b, i - j) == 0) by (nonlinear_arith)
                requires coeff(b, i - j) == 0;
        }
        lemma_sum_zero_tail((i + 1) as nat, n, u);
        let cc = coeff(c, k - i);
        assert forall|j: int| 0 <= j < n implies #[trigger] t(i, j) == cc * u(j) by {
            assert(coeff(a, j) * coeff(b, i - j) * cc == cc * (coeff(a, j) * coeff(b, i - j)))
                by (nonlinear_arith);
        }
        lemma_sum_scale(n, cc, u, (|j: int| t(i, j)));
        assert(cc * conv_at(a, b, i) == coeff(ab, i) * cc) by (nonlinear_arith)
            requires cc * conv_at(a, b, i) == conv_at(a, b, i) * cc, coeff(ab, i) == conv_at(a, b, i);
    }
    lemma_sum_congruence(n, f1, rows);

    // The right-hand side is the sum of the columns.
    let f2 = |j: int| coeff(a, j) * coeff(bc, k - j);
    assert forall|j: int| 0 <= j < n implies #[trigger] f2(j) == cols(j) by {
        lemma_coeff_mul(b, c, k - j);
        let h = |m: int| coeff(b, m) * coeff(c, (k - j) - m);
        let v = |i: int| coeff(b, i - j) * coeff(c, k - i);
        assert forall|i: int| 0 <= i < n implies #[trigger] v(i) == h(i - j) by {}
        assert forall|m: int| m < 0 implies #[trigger] h(m) == 0 by {
            assert(coeff(b, m) == 0);
            assert(coeff(b, m) * coeff(c, (k - j) - m) == 0) by (nonlinear_arith)
                requires coeff(b, m) == 0;
        }
        lemma_sum_shift_drop(n, j as nat, v, h);
        assert(sum_terms((n - j) as nat, h) == conv_at(b, c, k - j));
        let ca = coeff(a, j);
        assert forall|i: int| 0 <= i < n implies #[trigger] t(i, j) == ca * v(i) by {
            assert(ca * coeff(b, i - j) * coeff(c, k - i) == ca * (coeff(b, i - j) * coeff(c, k - i)))
                by (nonlinear_arith);
        }
        lemma_sum_scale(n, ca, v, (|i: int| t(i, j)));
        assert(ca * conv_at(b, c, k - j) == ca * coeff(bc, k - j));
    }
    lemma_sum_congruence(n, f2, cols);

    // Exchange the double sum.
    lemma_sum_exchange(n, n, t, rows, cols);
}

/// Polynomial multiplication is associative.
pub proof fn lemma_mul_assoc(a: Seq<int>, b: Seq<int>, c: Seq<int>)
    requires
        a.len() >= 1,
        b.len() >= 1,
        c.len() >= 1,
    ensures
        mul_spec(mul_spec(a, b), c) == mul_spec(a, mul_spec(b, c)),
{
    assert forall|k: int| 0 <= k < a.len() + b.len() + c.len() - 2
        implies #[trigger] mul_spec(mul_spec(a, b), c)[k] == mul_spec(a, mul_spec(b, c))[k] by {
        lemma_conv_assoc(a, b, c, k);
    }
    assert(mul_spec(mul_spec(a, b), c) =~= mul_spec(a, mul_spec(b, c)));
}

/// Multiplying by a zero polynomial yields the zero polynomial.
pub proof fn lemma_mul_zero(a: Seq<int>, n: nat)
    requires
        a.len() >= 1,
        n >= 1,
    ensures
        mul_spec(a, zero_poly(n)) == zero_poly((a.len() + n - 1) as nat),
{
    assert forall|k: int| 0 <= k < a.len() + n - 1
        implies #[trigger] mul_spec(a, zero_poly(n))[k] == 0 by {
        let f = |i: int| coeff(a, i) * coeff(zero_poly(n), k - i);
        assert forall|i: int| 0 <= i < k + 1 implies #[trigger] f(i) == 0 by {
            assert(coeff(zero_poly(n), k - i) == 0);
            assert(coeff(a, i) * coeff(zero_poly(n), k - i) == 0) by (nonlinear_arith)
                requires coeff(zero_poly(n), k - i) == 0;
        }
        lemma_sum_zero((k + 1) as nat, f);
    }
    assert(mul_spec(a, zero_poly(n)) =~= zero_poly((a.len() + n - 1) as nat));
}

/// The anticyclic fold of a polynomial whose coefficients above `n`
/// are all zero keeps the first `n` coefficients as they are.
pub proof fn lemma_fold_zero_beyond(b: Seq<int>, n: nat, k: nat)
    requires
        n >= 1,
        k <= b.len(),
        forall|i: int| n <= i < b.len() ==> b[i] == 0,
    ensures
        fold_prefix(b, n, k).len() == n,
        forall|j: int| 0 <= j < n
            ==> #[trigger] fold_prefix(b, n, k)[j] == if j < k { b[j] } else { 0 },
    decreases k,
{
    if k > 0 {
        lemma_fold_zero_beyond(b, n, (k - 1) as nat);
        let prev = fold_prefix(b, n, (k - 1) as nat);
        vstd::arithmetic::div_mod::lemma_mod_division_less_than_divisor(k - 1, 2 * n as int);
        if k - 1 < n {
            lemma_small_mod((k - 1) as nat, 2 * n);
        } else {
            assert(b[k - 1] == 0);
            assert forall|j: int| 0 <= j < n
                implies #[trigger] fold_prefix(b, n, k)[j] == prev[j] by {}
        }
    }
}

/// Peeling every level off leaves remainder zero: the bottom level
/// divides by `base^0 = 1` and so absorbs whatever is left.
pub proof fn lemma_dec_rem_complete(c: int, base: int, l: nat)
    requires
        base >= 1,
        l >= 1,
    ensures
        dec_rem(c, base, l, l) == 0,
{
    let r = dec_rem(c, base, l, (l - 1) as nat);
    lemma_pow0(base);
    if r >= 0 {
        lemma_div_basics(r);
        assert(trunc_div(r, 1) == r);
    } else {
        lemma_div_basics(-r);
        assert(trunc_div(r, 1) == r);
    }
    assert(dec_rem(c, base, l, l) == r - 1 * trunc_div(r, 1));
}

/// Telescoping of the digit extraction: the top `m` levels' weighted
/// digits sum to what has been removed from the remainder so far.
pub proof fn lemma_dec_partial(c: int, base: int, l: nat, m: nat)
    requires
        base >= 1,
        m <= l,
    ensures
        sum_terms(m, (|t: int| pow(base, (l - 1 - t) as nat)
            * digit_at(c, base, l, (l - 1 - t) as nat)))
            == c - dec_rem(c, base, l, m),
    decreases m,
{
    let f = |t: int| pow(base, (l - 1 - t) as nat) * digit_at(c, base, l, (l - 1 - t) as nat);
    if m == 0 {
    } else {
        lemma_dec_partial(c, base, l, (m - 1) as nat);
        let i = (l - m) as nat;
        let r = dec_rem(c, base, l, (m - 1) as nat);
        assert(l - 1 - (m - 1) == l - m);
        assert(f(m - 1) == pow(base, i) * digit_at(c, base, l, i));
        assert(digit_at(c, base, l, i) == trunc_div(dec_rem(c, base, l, (l - i - 1) as nat), pow(base, i)));
        assert((l - i - 1) as nat == (m - 1) as nat);
        assert(dec_rem(c, base, l, m) == r - pow(base, i) * trunc_div(r, pow(base, i)));
    }
}

/// The decomposition round-trip, coefficient by coefficient: for any
/// integer `c`, any base and any level count, the base-weighted sum of
/// the extracted digits recovers `c` exactly, with no reduction.
pub proof fn lemma_decompose_roundtrip(c: int, base: int, l: nat)
    requires
        base >= 1,
        l >= 1,
    ensures
        sum_terms(l, (|i: int| pow(base, i as nat) * digit_at(c, base, l, i as nat))) == c,
{
    let f = |t: int| pow(base, (l - 1 - t) as nat) * digit_at(c, base, l, (l - 1 - t) as nat);
    let g = |i: int| pow(base, i as nat) * digit_at(c, base, l, i as nat);
    lemma_dec_partial(c, base, l, l);
    lemma_dec_rem_complete(c, base, l);
    assert forall|i: int| 0 <= i < l implies #[trigger] g(i) == f(l - 1 - i) by {
        assert((l - 1 - (l - 1 - i)) as nat == i as nat);
    }
    lemma_sum_reverse(l, f, g);
}

/// The decomposition round-trip for a whole polynomial: every
/// coefficient is recovered exactly by the base-weighted digit sum,
/// so the digit polynomials recompose to the input in Z[X].
pub proof fn lemma_decompose_roundtrip_poly(a: Seq<int>, base: int, l: nat)
    requires
        base >= 1,
        l >= 1,
    ensures
        forall|j: int| 0 <= j < a.len()
            ==> sum_terms(l, (|i: int| pow(base, i as nat)
                * digit_at(#[trigger] a[j], base, l, i as nat))) == a[j],
{
    assert forall|j: int| 0 <= j < a.len()
        implies sum_terms(l, (|i: int| pow(base, i as nat)
            * digit_at(#[trigger] a[j], base, l, i as nat))) == a[j] by {
        lemma_decompose_roundtrip(a[j], base, l);
    }
}

/// Convolution is bilinear in scalar factors: scaling either operand
/// scales every coefficient of the product.
pub proof fn lemma_conv_scalar(a: Seq<int>, b: Seq<int>, c: int, d: int, k: int)
    ensures
        conv_at(scalar_mul_spec(a, c), scalar_mul_spec(b, d), k) == (c * d) * conv_at(a, b, k),
{
    if k >= 0 {
        let f = |i: int| coeff(a, i) * coeff(b, k - i);
        let g = |i: int| coeff(scalar_mul_spec(a, c), i) * coeff(scalar_mul_spec(b, d), k - i);
        assert forall|i: int| 0 <= i < k + 1 implies #[trigger] g(i) == (c * d) * f(i) by {
            let x = coeff(a, i);
            let y = coeff(b, k - i);
            if 0 <= i < a.len() {
                assert(coeff(scalar_mul_spec(a, c), i) == x * c);
            } else {
                assert(coeff(scalar_mul_spec(a, c), i) == 0 && x == 0);
            }
            if 0 <= k - i < b.len() {
                assert(coeff(scalar_mul_spec(b, d), k - i) == y * d);
            } else {
                assert(coeff(scalar_mul_spec(b, d), k - i) == 0 && y == 0);
            }
            assert((x * c) * (y * d) == (c * d) * (x * y)) by (nonlinear_arith);
            assert(0 * (y * d) == (c * d) * (0 * y)) by (nonlinear_arith);
            assert((x * c) * 0 == (c * d) * (x * 0)) by (nonlinear_arith);
            assert(0 * 0 == (c * d) * (0 * 0)) by (nonlinear_arith);
        }
        lemma_sum_scale((k + 1) as nat, c * d, f, g);
    } else {
        assert((c * d) * 0 == 0) by (nonlinear_arith);
    }
}

/// The anticyclic fold commutes with scalar multiplication.
pub proof fn lemma_fold_scalar(y: Seq<int>, n: nat, k: nat, c: int)
    requires
        n >= 1,
        k <= y.len(),
    ensures
        fold_prefix(scalar_mul_spec(y, c), n, k) == scalar_mul_spec(fold_prefix(y, n, k), c),
    decreases k,
{
    crate::bounds::lemma_fold_prefix_bound(y, n, k);
    crate::bounds::lemma_fold_prefix_bound(scalar_mul_spec(y, c), n, k);
    if k == 0 {
        assert forall|j: int| 0 <= j < n
            implies #[trigger] zero_poly(n)[j] == scalar_mul_spec(zero_poly(n), c)[j] by {
            assert(0 * c == 0) by (nonlinear_arith);
        }
        assert(fold_prefix(scalar_mul_spec(y, c), n, 0)
            =~= scalar_mul_spec(fold_prefix(y, n, 0), c));
    } else {
        lemma_fold_scalar(y, n, (k - 1) as nat, c);
        crate::bounds::lemma_fold_prefix_bound(y, n, (k - 1) as nat);
        crate::bounds::lemma_fold_prefix_bound(scalar_mul_spec(y, c), n, (k - 1) as nat);
        let prev = fold_prefix(y, n, (k - 1) as nat);
        let prev_c = fold_prefix(scalar_mul_spec(y, c), n, (k - 1) as nat);
        vstd::arithmetic::div_mod::lemma_mod_division_less_than_divisor(k - 1, 2 * n as int);
        assert forall|j: int| 0 <= j < n
            implies #[trigger] fold_prefix(scalar_mul_spec(y, c), n, k)[j]
                == scalar_mul_spec(fold_prefix(y, n, k), c)[j] by {
            assert(prev_c[j] == prev[j] * c);
            let x = y[k - 1];
            assert((prev[j] + x) * c == prev[j] * c + x * c) by (nonlinear_arith);
            assert((prev[j] - x) * c == prev[j] * c - x * c) by (nonlinear_arith);
        }
        assert(fold_prefix(scalar_mul_spec(y, c), n, k)
            =~= scalar_mul_spec(fold_prefix(y, n, k), c));
    }
}

/// With `t` dividing `q` and `delta = q / t`: reducing `delta * x`
/// modulo `q` is scaling the reduction of `x` modulo `t`.
pub proof fn lemma_scaled_mod(x: int, q: int, t: int)
    requires
        t >= 2,
        q >= 2,
        q == (q / t) * t,
    ensures
        ((q / t) * x) % q == (q / t) * (x % t),
{
    let delta = q / t;
    assert(delta >= 1) by (nonlinear_arith)
        requires q == delta * t, q >= 2, t >= 2;
    let k = x / t;
    let r = x % t;
    lemma_fundamental_div_mod(x, t);
    vstd::arithmetic::div_mod::lemma_mod_division_less_than_divisor(x, t);
    assert(delta * x == k * q + delta * r) by (nonlinear_arith)
        requires x == t * k + r, q == delta * t;
    assert(0 <= delta * r && delta * r < q) by (nonlinear_arith)
        requires q == delta * t, delta >= 1, 0 <= r < t;
    vstd::arithmetic::div_mod::lemma_fundamental_div_mod_converse_mod(
        delta * x, q, k, delta * r,
    );
}

/// The shape of a noiseless encryption: with the masking element and
/// the error term zero, the first component reduces to exactly
/// `delta * m` and the second to the zero polynomial.
proof fn lemma_noiseless_ciphertext_shape(m: Seq<int>, p0: Seq<int>, p1: Seq<int>, q: int, t: int)
    requires
        m.len() >= 1,
        p0.len() == m.len(),
        p1.len() == m.len(),
        t >= 2,
        q >= 2,
        q == (q / t) * t,
        in_range(m, 0, t),
    ensures
        ({
            let n = m.len();
            let u = zero_poly(n);
            let e = zero_poly(n);
            let c0 = reduce_spec(
                add_spec(add_spec(mul_spec(p0, u), e), scalar_mul_spec(m, q / t)),
                q,
                n,
            );
            let c1 = reduce_spec(add_spec(mul_spec(p1, u), e), q, n);
            c0.len() == n
            && (forall|j: int| 0 <= j < n ==> #[trigger] c0[j] == m[j] * (q / t))
            && c1 == zero_poly(n)
        }),
{
    let n = m.len();
    let delta = q / t;
    let u = zero_poly(n);
    let e = zero_poly(n);
    assert(delta >= 1) by (nonlinear_arith)
        requires q == delta * t, q >= 2, t >= 2;
    assert forall|j: int| 0 <= j < n implies 0 <= #[trigger] scalar_mul_spec(m, delta)[j] < q by {
        assert(0 <= m[j] * delta && m[j] * delta <= (t - 1) * delta) by (nonlinear_arith)
            requires 0 <= m[j] <= t - 1, delta >= 1;
        assert((t - 1) * delta < q) by (nonlinear_arith)
            requires q == delta * t, delta >= 1, t >= 2;
    }

    // The first component folds to exactly `delta * m`.
    lemma_mul_zero(p0, n);
    let inner0 = add_spec(add_spec(mul_spec(p0, u), e), scalar_mul_spec(m, delta));
    assert forall|i: int| 0 <= i < inner0.len()
        implies #[trigger] inner0[i] == coeff(scalar_mul_spec(m, delta), i) by {
        assert(coeff(mul_spec(p0, u), i) == 0);
        assert(coeff(e, i) == 0);
    }
    assert(inner0.len() == 2 * n - 1);
    lemma_fold_zero_beyond(inner0, n, inner0.len());
    let c0 = reduce_spec(inner0, q, n);
    assert forall|j: int| 0 <= j < n implies #[trigger] c0[j] == m[j] * delta by {
        assert(fold_spec(inner0, n)[j] == inner0[j]);
        assert(inner0[j] == m[j] * delta);
        lemma_small_mod((m[j] * delta) as nat, q as nat);
    }

    // The second component folds to the zero polynomial.
    lemma_mul_zero(p1, n);
    let inner1 = add_spec(mul_spec(p1, u), e);
    assert forall|i: int| 0 <= i < inner1.len() implies #[trigger] inner1[i] == 0 by {
        assert(coeff(mul_spec(p1, u), i) == 0);
        assert(coeff(e, i) == 0);
    }
    lemma_fold_zero_beyond(inner1, n, inner1.len());
    let c1 = reduce_spec(inner1, q, n);
    assert forall|j: int| 0 <= j < n implies #[trigger] c1[j] == 0 by {
        assert(fold_spec(inner1, n)[j] == inner1[j]);
        lemma_small_mod(0nat, q as nat);
    }
    assert(c1 =~= zero_poly(n));
}

/// Decryption of a pair `(v, 0)` with `v = delta * w` and every `w`
/// coefficient in `[0, cap)`, `cap * delta <= 2 * q`: the result is
/// `w` reduced coefficientwise modulo `t`.
proof fn lemma_decrypt_scaled_message(w: Seq<int>, s: Seq<int>, q: int, t: int, cap: int)
    requires
        w.len() >= 1,
        s.len() == w.len(),
        t >= 2,
        q >= 2,
        q == (q / t) * t,
        2 <= cap <= 2 * t,
        in_range(w, 0, cap),
    ensures
        ({
            let n = w.len();
            let v = scalar_mul_spec(w, q / t);
            decrypt_spec(v, zero_poly(n), s, q, t)
                == Seq::new(n, |j: int| w[j] % t)
        }),
{
    let n = w.len();
    let delta = q / t;
    let v = scalar_mul_spec(w, delta);
    assert(delta >= 1) by (nonlinear_arith)
        requires q == delta * t, q >= 2, t >= 2;

    // `c_1 * s` vanishes, so the fold sees `v` padded with zeros.
    lemma_mul_comm(zero_poly(n), s);
    lemma_mul_zero(s, n);
    let raw = add_spec(v, mul_spec(zero_poly(n), s));
    assert forall|i: int| 0 <= i < raw.len() implies #[trigger] raw[i] == coeff(v, i) by {
        assert(coeff(mul_spec(zero_poly(n), s), i) == 0);
    }
    assert(raw.len() == 2 * n - 1);
    assert forall|i: int| n <= i < raw.len() implies #[trigger] raw[i] == 0 by {}
    lemma_fold_zero_beyond(raw, n, raw.len());

    // Coefficient `delta * w[j]` reduces modulo `q` to `delta * (w[j] % t)`,
    // since `delta * t == q`.
    let folded = reduce_spec(raw, q, n);
    assert forall|j: int| 0 <= j < n implies #[trigger] folded[j] == (w[j] % t) * delta by {
        assert(fold_spec(raw, n)[j] == raw[j]);
        assert(raw[j] == w[j] * delta);
        if w[j] < t {
            assert(0 <= w[j] * delta && w[j] * delta < q) by (nonlinear_arith)
                requires q == delta * t, delta >= 1, 0 <= w[j] < t;
            lemma_small_mod((w[j] * delta) as nat, q as nat);
            lemma_small_mod(w[j] as nat, t as nat);
        } else {
            assert(0 <= (w[j] - t) * delta < q) by (nonlinear_arith)
                requires q == delta * t, delta >= 1, t <= w[j] < 2 * t;
            assert(w[j] * delta == 1 * q + (w[j] - t) * delta) by (nonlinear_arith)
                requires q == delta * t;
            vstd::arithmetic::div_mod::lemma_fundamental_div_mod_converse_mod(
                w[j] * delta, q, 1, (w[j] - t) * delta,
            );
            assert(w[j] == 1 * t + (w[j] - t)) by (nonlinear_arith);
            vstd::arithmetic::div_mod::lemma_fundamental_div_mod_converse_mod(
                w[j], t, 1, w[j] - t,
            );
        }
    }

    // The scaling by `t / q` cancels `delta` exactly.
    let scaled = scale_spec(folded, t, q);
    assert forall|j: int| 0 <= j < n implies #[trigger] scaled[j] == w[j] % t by {
        vstd::arithmetic::div_mod::lemma_mod_division_less_than_divisor(w[j], t);
        assert(((w[j] % t) * delta) * t == (w[j] % t) * q) by (nonlinear_arith)
            requires q == delta * t;
        lemma_scale_coeff_identity(w[j] % t, q);
        assert(scale_coeff(folded[j], t, q) == round_div((w[j] % t) * q, q));
    }

    // The final reduction modulo `t` leaves the values as they are.
    lemma_fold_short(scaled, n, n);
    assert forall|j: int| 0 <= j < n
        implies #[trigger] reduce_spec(scaled, t, n)[j] == w[j] % t by {
        assert(fold_spec(scaled, n)[j] == scaled[j]);
        vstd::arithmetic::div_mod::lemma_mod_division_less_than_divisor(w[j], t);
        lemma_small_mod((w[j] % t) as nat, t as nat);
    }
    assert(decrypt_spec(v, zero_poly(n), s, q, t) =~= Seq::new(n, |j: int| w[j] % t));
}

/// The exact core of the encryption round trip: when the masking
/// element and both error terms are zero, decryption inverts
/// encryption outright. For a message with coefficients in `[0, t)`,
/// a plaintext modulus dividing `q`, and any secret key and public key
/// material of matching length, the decrypted plaintext is the message
/// itself, with no probabilistic caveat. (With nonzero sampled noise
/// the round trip holds only with overwhelming probability, governed
/// by the parameter choice.)
pub proof fn lemma_noiseless_encrypt_decrypt(
    m: Seq<int>,
    s: Seq<int>,
    p0: Seq<int>,
    p1: Seq<int>,
    q: int,
    t: int,
)
    requires
        m.len() >= 1,
        s.len() == m.len(),
        p0.len() == m.len(),
        p1.len() == m.len(),
        t >= 2,
        q >= 2,
        q == (q / t) * t,
        in_range(m, 0, t),
    ensures
        ({
            let n = m.len();
            let u = zero_poly(n);
            let e = zero_poly(n);
            let c0 = reduce_spec(
                add_spec(add_spec(mul_spec(p0, u), e), scalar_mul_spec(m, q / t)),
                q,
                n,
            );
            let c1 = reduce_spec(add_spec(mul_spec(p1, u), e), q, n);
            decrypt_spec(c0, c1, s, q, t) == m
        }),
{
    let n = m.len();
    let delta = q / t;
    lemma_noiseless_ciphertext_shape(m, p0, p1, q, t);
    let u = zero_poly(n);
    let e = zero_poly(n);
    let c0 = reduce_spec(
        add_spec(add_spec(mul_spec(p0, u), e), scalar_mul_spec(m, delta)),
        q,
        n,
    );
    let c1 = reduce_spec(add_spec(mul_spec(p1, u), e), q, n);
    assert(c0 =~= scalar_mul_spec(m, delta));
    lemma_decrypt_scaled_message(m, s, q, t, t);
    assert forall|j: int| 0 <= j < n implies #[trigger] m[j] % t == m[j] by {
        lemma_small_mod(m[j] as nat, t as nat);
    }
    assert(decrypt_spec(c0, c1, s, q, t) =~= m);
}

/// The additive homomorphism, in its exact noiseless instance: the
/// componentwise sum of the noiseless encryptions of `m1` and `m2`
/// decrypts to `m1 + m2` reduced coefficientwise modulo `t`. (With
/// nonzero sampled noise this holds only with overwhelming
/// probability.)
pub proof fn lemma_noiseless_add_homomorphism(
    m1: Seq<int>,
    m2: Seq<int>,
    s: Seq<int>,
    p0: Seq<int>,
    p1: Seq<int>,
    q: int,
    t: int,
)
    requires
        m1.len() >= 1,
        m2.len() == m1.len(),
        s.len() == m1.len(),
        p0.len() == m1.len(),
        p1.len() == m1.len(),
        t >= 2,
        q >= 2,
        q == (q / t) * t,
        in_range(m1, 0, t),
        in_range(m2, 0, t),
    ensures
        ({
            let n = m1.len();
            let u = zero_poly(n);
            let e = zero_poly(n);
            let enc0 = |m: Seq<int>| reduce_spec(
                add_spec(add_spec(mul_spec(p0, u), e), scalar_mul_spec(m, q / t)),
                q,
                n,
            );
            let c1 = reduce_spec(add_spec(mul_spec(p1, u), e), q, n);
            decrypt_spec(add_spec(enc0(m1), enc0(m2)), add_spec(c1, c1), s, q, t)
                == reduce_spec(add_spec(m1, m2), t, n)
        }),
{
    let n = m1.len();
    let delta = q / t;
    let u = zero_poly(n);
    let e = zero_poly(n);
    lemma_noiseless_ciphertext_shape(m1, p0, p1, q, t);
    lemma_noiseless_ciphertext_shape(m2, p0, p1, q, t);
    let enc0 = |m: Seq<int>| reduce_spec(
        add_spec(add_spec(mul_spec(p0, u), e), scalar_mul_spec(m, q / t)),
        q,
        n,
    );
    let c1 = reduce_spec(add_spec(mul_spec(p1, u), e), q, n);
    let w = add_spec(m1, m2);
    assert forall|j: int| 0 <= j < n
        implies #[trigger] add_spec(enc0(m1), enc0(m2))[j] == scalar_mul_spec(w, delta)[j] by {
        assert(enc0(m1)[j] == m1[j] * delta);
        assert(enc0(m2)[j] == m2[j] * delta);
        assert(m1[j] * delta + m2[j] * delta == (m1[j] + m2[j]) * delta) by (nonlinear_arith);
    }
    assert(add_spec(enc0(m1), enc0(m2)) =~= scalar_mul_spec(w, delta));
    assert(add_spec(c1, c1) =~= zero_poly(n));
    assert forall|j: int| 0 <= j < n implies 0 <= #[trigger] w[j] < 2 * t by {}
    lemma_decrypt_scaled_message(w, s, q, t, 2 * t);

    // The right-hand side reduces each coefficient of `m1 + m2` into
    // `[0, t)`, which is exactly what decryption produced.
    lemma_fold_short(w, n, n);
    assert forall|j: int| 0 <= j < n
        implies #[trigger] reduce_spec(w, t, n)[j] == w[j] % t by {
        assert(fold_spec(w, n)[j] == w[j]);
    }
    assert(reduce_spec(w, t, n) =~= Seq::new(n, |j: int| w[j] % t));
}

/// Rounded scaling of zero is zero.
proof fn lemma_scale_coeff_zero(t: int, q: int)
    requires
        t >= 1,
        q >= 1,
    ensures
        scale_coeff(0, t, q) == 0,
{
    assert(0 * t == 0) by (nonlinear_arith);
    assert(q == 0 * (2 * q) + q) by (nonlinear_arith);
    lemma_fundamental_div_mod_converse_div(q, 2 * q, 0, q);
}

/// A tensor component of two zero-second-component ciphertexts whose
/// product polynomial is zero is the zero polynomial.
proof fn lemma_scaled_zeros(z: Seq<int>, t: int, q: int, n: nat)
    requires
        t >= 2,
        q >= 2,
        n >= 1,
        z.len() >= n,
        forall|i: int| 0 <= i < z.len() ==> z[i] == 0,
    ensures
        reduce_spec(scale_spec(z, t, q), q, n) == zero_poly(n),
{
    lemma_scale_coeff_zero(t, q);
    let sc = scale_spec(z, t, q);
    assert forall|i: int| 0 <= i < sc.len() implies #[trigger] sc[i] == 0 by {}
    lemma_fold_zero_beyond(sc, n, sc.len());
    assert forall|j: int| 0 <= j < n
        implies #[trigger] reduce_spec(sc, q, n)[j] == 0 by {
        assert(fold_spec(sc, n)[j] == sc[j]);
        lemma_small_mod(0nat, q as nat);
    }
    assert(reduce_spec(sc, q, n) =~= zero_poly(n));
}

/// The multiplicative homomorphism through the tensor product, in its
/// exact noiseless instance: for the noiseless encryptions
/// `(delta * m1, 0)` and `(delta * m2, 0)` with `t` dividing `q`, the
/// manual decryption of the three tensor components — the polynomial
/// `d_0 + d_1 * s + d_2 * s^2` scaled by `t / q` and reduced modulo
/// `(X^n + 1, t)` — recovers `m1 * m2` reduced the same way, for any
/// messages and any secret key. (With sampled noise this holds only
/// with overwhelming probability.)
pub proof fn lemma_noiseless_basic_mul(m1: Seq<int>, m2: Seq<int>, s: Seq<int>, q: int, t: int)
    requires
        m1.len() >= 1,
        m2.len() == m1.len(),
        s.len() == m1.len(),
        t >= 2,
        q >= 2,
        q == (q / t) * t,
    ensures
        ({
            let n = m1.len();
            let v1 = scalar_mul_spec(m1, q / t);
            let v2 = scalar_mul_spec(m2, q / t);
            let d0 = scaled_product(v1, v2, t, q, n);
            let d1 = scaled_cross(v1, zero_poly(n), zero_poly(n), v2, t, q, n);
            let d2 = scaled_product(zero_poly(n), zero_poly(n), t, q, n);
            let raw = add_spec(add_spec(d0, mul_spec(d1, s)), mul_spec(mul_spec(d2, s), s));
            reduce_spec(scale_spec(raw, t, q), t, n) == reduce_spec(mul_spec(m1, m2), t, n)
        }),
{
    let n = m1.len();
    let delta = q / t;
    assert(delta >= 1) by (nonlinear_arith)
        requires q == delta * t, q >= 2, t >= 2;
    let v1 = scalar_mul_spec(m1, delta);
    let v2 = scalar_mul_spec(m2, delta);
    let p = mul_spec(m1, m2);

    // The cross and quadratic components are zero.
    lemma_mul_zero(v1, n);
    lemma_mul_comm(zero_poly(n), v2);
    lemma_mul_zero(v2, n);
    let cross = add_spec(mul_spec(v1, zero_poly(n)), mul_spec(zero_poly(n), v2));
    assert forall|i: int| 0 <= i < cross.len() implies #[trigger] cross[i] == 0 by {
        assert(coeff(mul_spec(v1, zero_poly(n)), i) == 0);
        assert(coeff(mul_spec(zero_poly(n), v2), i) == 0);
    }
    lemma_scaled_zeros(cross, t, q, n);
    let d1 = scaled_cross(v1, zero_poly(n), zero_poly(n), v2, t, q, n);
    assert(d1 == zero_poly(n));
    lemma_mul_zero(zero_poly(n), n);
    lemma_scaled_zeros(mul_spec(zero_poly(n), zero_poly(n)), t, q, n);
    let d2 = scaled_product(zero_poly(n), zero_poly(n), t, q, n);
    assert(d2 == zero_poly(n));

    // The first component: the double scaling by `delta` collapses to a
    // single one under the `t / q` rounding, and the fold commutes with
    // it; each coefficient of `d_0` is `delta * ([fold of m1 * m2]_t)`.
    assert forall|k: int| 0 <= k < mul_spec(v1, v2).len()
        implies #[trigger] scale_spec(mul_spec(v1, v2), t, q)[k]
            == scalar_mul_spec(p, delta)[k] by {
        lemma_conv_scalar(m1, m2, delta, delta, k);
        let x = conv_at(m1, m2, k);
        assert(mul_spec(v1, v2)[k] == conv_at(v1, v2, k));
        assert(conv_at(v1, v2, k) == (delta * delta) * x);
        assert(scale_spec(mul_spec(v1, v2), t, q)[k]
            == scale_coeff((delta * delta) * x, t, q));
        assert(((delta * delta) * x) * t == (delta * x) * q) by (nonlinear_arith)
            requires q == delta * t;
        lemma_scale_coeff_identity(delta * x, q);
        assert(scale_coeff((delta * delta) * x, t, q) == round_div((delta * x) * q, q));
        assert(k < p.len() && scalar_mul_spec(p, delta)[k] == p[k] * delta);
        assert(p[k] == x);
        assert(delta * x == x * delta) by (nonlinear_arith);
    }
    assert(scale_spec(mul_spec(v1, v2), t, q) =~= scalar_mul_spec(p, delta));
    lemma_fold_scalar(p, n, p.len(), delta);
    let d0 = scaled_product(v1, v2, t, q, n);
    assert forall|j: int| 0 <= j < n
        implies #[trigger] d0[j] == delta * (fold_spec(p, n)[j] % t) by {
        assert(fold_spec(scalar_mul_spec(p, delta), n)[j]
            == scalar_mul_spec(fold_spec(p, n), delta)[j]);
        crate::bounds::lemma_fold_prefix_bound(p, n, p.len());
        assert(scalar_mul_spec(fold_spec(p, n), delta)[j] == fold_spec(p, n)[j] * delta);
        lemma_scaled_mod(fold_spec(p, n)[j], q, t);
    }

    // The decryption polynomial is `d_0` padded with zeros.
    lemma_mul_comm(zero_poly(n), s);
    lemma_mul_zero(s, n);
    assert(mul_spec(d1, s) == mul_spec(zero_poly(n), s));
    lemma_mul_zero(mul_spec(zero_poly(n), s), 1nat);
    let z2 = mul_spec(mul_spec(d2, s), s);
    assert(mul_spec(d2, s) == mul_spec(zero_poly(n), s));
    lemma_mul_comm(mul_spec(zero_poly(n), s), s);
    lemma_mul_zero(s, (2 * n - 1) as nat);
    assert forall|i: int| 0 <= i < z2.len() implies #[trigger] z2[i] == 0 by {
        assert(z2 == mul_spec(mul_spec(zero_poly(n), s), s));
        assert(mul_spec(mul_spec(zero_poly(n), s), s)
            == mul_spec(s, mul_spec(zero_poly(n), s)));
        assert(mul_spec(zero_poly(n), s) == zero_poly((2 * n - 1) as nat));
        assert(mul_spec(s, zero_poly((2 * n - 1) as nat))
            == zero_poly((s.len() + 2 * n - 1 - 1) as nat));
    }
    let raw = add_spec(add_spec(d0, mul_spec(d1, s)), z2);
    crate::bounds::lemma_reduce_range(scale_spec(mul_spec(v1, v2), t, q), q, n);
    assert forall|i: int| 0 <= i < raw.len() implies #[trigger] raw[i] == coeff(d0, i) by {
        assert(coeff(mul_spec(d1, s), i) == 0);
        assert(coeff(z2, i) == 0);
    }

    // Scaling by `t / q` cancels the remaining `delta` exactly.
    let scaled = scale_spec(raw, t, q);
    assert forall|j: int| 0 <= j < raw.len()
        implies #[trigger] scaled[j] == if j < n { fold_spec(p, n)[j] % t } else { 0 } by {
        if j < n {
            let y = fold_spec(p, n)[j] % t;
            assert(raw[j] == delta * y);
            assert((delta * y) * t == y * q) by (nonlinear_arith)
                requires q == delta * t;
            lemma_scale_coeff_identity(y, q);
            assert(scale_coeff(raw[j], t, q) == round_div(y * q, q));
        } else {
            lemma_scale_coeff_zero(t, q);
        }
    }
    lemma_fold_zero_beyond(scaled, n, scaled.len());
    assert forall|j: int| 0 <= j < n
        implies #[trigger] reduce_spec(scaled, t, n)[j]
            == reduce_spec(mul_spec(m1, m2), t, n)[j] by {
        let y = fold_spec(p, n)[j] % t;
        assert(fold_spec(scaled, n)[j] == scaled[j]);
        vstd::arithmetic::div_mod::lemma_mod_division_less_than_divisor(fold_spec(p, n)[j], t);
        lemma_small_mod(y as nat, t as nat);
    }
    assert(reduce_spec(scaled, t, n) =~= reduce_spec(mul_spec(m1, m2), t, n));
}

} // verus!
