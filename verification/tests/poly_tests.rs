//! Ring-engine behavior on concrete polynomials: addition,
//! subtraction, negation, the scalar and rational scalings, the
//! convolution product, reduction modulo `(X^N + 1, q)`, and the
//! base-T digit decomposition.

use bfv12::Poly;

fn a_poly() -> Poly {
    Poly::new(vec![-7, 0, 0, 3, -1, 6, -3, 5, 9, -5])
}

fn b_poly() -> Poly {
    Poly::new(vec![-1, -1, 0, 1, 0, -1, 1, 1, -1, -1])
}

#[test]
fn add_test() {
    let a = a_poly();
    let b = b_poly();
    let sum = a.add(&b);
    assert_eq!(*sum.coeffs(), vec![-8, -1, 0, 4, -1, 5, -2, 6, 8, -6]);

    // Vector addition still works with uneven vector lengths.
    let c = Poly::new(vec![3, -1, 6, -3]);
    let sum_uneven = c.add(&sum);
    assert_eq!(*sum_uneven.coeffs(), vec![-5, -2, 6, 1, -1, 5, -2, 6, 8, -6]);
}

#[test]
fn sub_test() {
    let a = a_poly();
    let b = b_poly();
    let sub = a.sub(&b);
    assert_eq!(*sub.coeffs(), vec![-6, 1, 0, 2, -1, 7, -4, 4, 10, -4]);

    // Vector subtraction still works with uneven vector lengths.
    let c = Poly::new(vec![3, -1, 6, -3]);
    let sub_uneven = c.sub(&sub);
    assert_eq!(*sub_uneven.coeffs(), vec![9, -2, 6, -5, 1, -7, 4, -4, -10, 4]);
}

#[test]
fn neg_test() {
    let a = a_poly();
    let neg = a.neg();
    assert_eq!(*neg.coeffs(), vec![7, 0, 0, -3, 1, -6, 3, -5, -9, 5]);
}

#[test]
fn mul_const_i64_test() {
    let a = a_poly();
    let mul = a.mul_int(17);
    assert_eq!(*mul.coeffs(), vec![-119, 0, 0, 51, -17, 102, -51, 85, 153, -85]);
}

#[test]
fn mul_const_f64_test() {
    // Scaling by 3.7, as the exact rational 37 / 10.
    let a = a_poly();
    let mul = a.mul_rational(37, 10);
    assert_eq!(*mul.coeffs(), vec![-26, 0, 0, 11, -4, 22, -11, 19, 33, -19]);
}

#[test]
fn mul_poly_test() {
    let a = Poly::new(vec![4, 5, 2]);
    let b = Poly::new(vec![7, 9, 1]);
    let mul = a.mul(&b);
    assert_eq!(*mul.coeffs(), vec![28, 71, 63, 23, 2]);
}

#[test]
fn poly_modulo_test() {
    let a = a_poly();
    let b = b_poly();
    let mul = a.mul(&b);
    assert_eq!(
        *mul.coeffs(),
        vec![7, 7, 0, -10, -2, 2, -7, -10, -4, 4, 6, 14, -9, -12, 16, 2, -19, -4, 5]
    );
    let mod_degree_2 = mul.modulo(16, 2);
    assert_eq!(*mod_degree_2.coeffs(), vec![1, 1]);
    let mod_degree_4 = mul.modulo(16, 4);
    assert_eq!(*mod_degree_4.coeffs(), vec![11, 1, 2, 12]);
    let mod_degree_8 = mul.modulo(16, 8);
    assert_eq!(*mod_degree_8.coeffs(), vec![8, 15, 15, 8, 7, 14, 9, 4]);
    let mod_degree_16 = mul.modulo(16, 16);
    assert_eq!(
        *mod_degree_16.coeffs(),
        vec![10, 11, 11, 6, 14, 2, 9, 6, 12, 4, 6, 14, 7, 4, 0, 2]
    );
}

#[test]
fn coeff_modulo_test() {
    let a = a_poly();
    let modulo = a.modulo(4, 10);
    assert_eq!(*modulo.coeffs(), vec![1, 0, 0, 3, 3, 2, 1, 1, 1, 3]);
}

#[test]
fn decomposition_test() {
    let a = a_poly();
    let dec = a.decompose(4, 2);

    assert_eq!(*dec[0].coeffs(), vec![-1, 0, 0, 1, -1, 0, -1, 1, 1, -1]);
    assert_eq!(*dec[1].coeffs(), vec![-1, 0, 0, 1, 0, 1, -1, 0, 0, 0]);
    assert_eq!(*dec[2].coeffs(), vec![-1, 0, 0, 0, 0, 1, 0, 1, 0, -1]);
    assert_eq!(*dec[3].coeffs(), vec![0, 0, 0, 0, 0, 0, 0, 0, 1, 0]);

    let recomposed = dec[0]
        .add(&dec[1].mul_int(2))
        .add(&dec[2].mul_int(4))
        .add(&dec[3].mul_int(8));
    assert_eq!(recomposed, a);
}
