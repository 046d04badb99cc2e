//! Concrete instances of the ring laws, the edge cases of the engine,
//! and checks that the sampled values respect their stated ranges.

use bfv12::Plaintext;
use bfv12::Poly;
use bfv12::SecretKey;
use rand::distributions::Distribution;
use rand::distributions::Normal;
use rand::rngs::StdRng;
use rand::SeedableRng;

fn gaussian_poly(std_dev: f64, degree: usize, rng: &mut StdRng) -> Poly {
    let gaussian = Normal::new(0.0, std_dev);
    let val: Vec<i64> = (0..degree).map(|_| gaussian.sample(rng).abs() as i64).collect();
    Poly::new(val)
}

#[test]
fn add_commutative_associative() {
    let a = Poly::new(vec![1, -2, 3]);
    let b = Poly::new(vec![4, 5]);
    let c = Poly::new(vec![-7, 0, 2, 9]);
    assert_eq!(a.add(&b), b.add(&a));
    assert_eq!(a.add(&b).add(&c), a.add(&b.add(&c)));
}

#[test]
fn add_zero_identity() {
    let a = Poly::new(vec![1, -2, 3]);
    let zero_short = Poly::new(vec![0, 0]);
    let zero_same = Poly::new(vec![0, 0, 0]);
    assert_eq!(a.add(&zero_short), a);
    assert_eq!(a.add(&zero_same), a);
}

#[test]
fn sub_self_is_zero() {
    let a = Poly::new(vec![9, -4, 0, 7]);
    assert_eq!(a.sub(&a), Poly::new(vec![0, 0, 0, 0]));
}

#[test]
fn neg_involution() {
    let a = Poly::new(vec![5, 0, -11, 2]);
    assert_eq!(a.neg().neg(), a);
}

#[test]
fn mul_int_distributes_over_add() {
    let a = Poly::new(vec![1, -2, 3]);
    let b = Poly::new(vec![4, 5, -6]);
    assert_eq!(a.add(&b).mul_int(7), a.mul_int(7).add(&b.mul_int(7)));
}

#[test]
fn mul_int_zero_gives_zero_poly() {
    let a = Poly::new(vec![1, -2, 3, 4]);
    assert_eq!(a.mul_int(0), Poly::new(vec![0, 0, 0, 0]));
}

#[test]
fn mul_rational_one_is_identity() {
    // Scaling by r / r leaves integer inputs exactly as they are.
    let a = Poly::new(vec![-7, 0, 3, 12, -1]);
    assert_eq!(a.mul_rational(1, 1), a);
    assert_eq!(a.mul_rational(9, 9), a);
}

#[test]
fn mul_rational_rounds_half_away_from_zero() {
    // 1/2 and -1/2 round away from zero.
    let a = Poly::new(vec![1, -1, 3, -3]);
    assert_eq!(*a.mul_rational(1, 2).coeffs(), vec![1, -1, 2, -2]);
}

#[test]
fn mul_commutative_associative_and_length() {
    let a = Poly::new(vec![1, 2]);
    let b = Poly::new(vec![3, -1, 4]);
    let c = Poly::new(vec![0, 5]);
    assert_eq!(a.mul(&b), b.mul(&a));
    assert_eq!(a.mul(&b).mul(&c), a.mul(&b.mul(&c)));
    assert_eq!(a.mul(&b).degree(), a.degree() + b.degree() - 1);
}

#[test]
fn modulo_idempotent() {
    let a = Poly::new(vec![-7, 0, 0, 3, -1, 6, -3, 5, 9, -5]);
    let once = a.modulo(7, 4);
    let twice = once.modulo(7, 4);
    assert_eq!(once, twice);
}

#[test]
fn modulo_output_range_and_length() {
    let a = Poly::new(vec![-100, 250, -3, 17, 9999, -12345]);
    let reduced = a.modulo(13, 4);
    assert_eq!(reduced.degree(), 4);
    for c in reduced.coeffs().iter() {
        assert!(0 <= *c && *c < 13);
    }
}

#[test]
fn decompose_roundtrip_any_levels() {
    // The weighted digit sum recovers the input exactly, in Z[X].
    let a = Poly::new(vec![123, -456, 7, 0, -1]);
    let l: usize = 3;
    let base: i64 = 7;
    let dec = a.decompose(l, base);
    let mut recomposed = Poly::new(vec![0, 0, 0, 0, 0]);
    let mut weight: i64 = 1;
    for lev in 0..l {
        recomposed = recomposed.add(&dec[lev].mul_int(weight));
        weight *= base;
    }
    assert_eq!(recomposed, a);
}

#[test]
fn decompose_single_level_absorbs_everything() {
    let a = Poly::new(vec![42, -17]);
    let dec = a.decompose(1, 2);
    assert_eq!(dec.len(), 1);
    assert_eq!(dec[0], a);
}

#[test]
fn uniform_sampling_respects_bounds() {
    // A bound of 1 allows only zero; {0, 1} for the secret key; [0, t)
    // for a random plaintext.
    let mut rng = StdRng::seed_from_u64(7);
    let sk = SecretKey::generate(64, &mut rng);
    for c in sk.poly.coeffs().iter() {
        assert!(*c == 0 || *c == 1);
    }
    let pt = Plaintext::rand(64, 5, &mut rng);
    for c in pt.poly().coeffs().iter() {
        assert!(0 <= *c && *c < 5);
    }
    let one = bfv12::random_source::get_uniform(1, 32, &mut rng);
    for c in one.coeffs().iter() {
        assert_eq!(*c, 0);
    }
}

#[test]
fn decomposition_levels_examples() {
    assert_eq!(SecretKey::decomposition_levels(65536, 2), 16);
    assert_eq!(SecretKey::decomposition_levels(65536, 16), 4);
    assert_eq!(SecretKey::decomposition_levels(65536, 256), 2);
    assert_eq!(SecretKey::decomposition_levels(100, 3), 4);
}

#[test]
fn mod_coeff_examples() {
    assert_eq!(Poly::mod_coeff(7, 4), 3);
    assert_eq!(Poly::mod_coeff(-7, 4), 1);
    assert_eq!(Poly::mod_coeff(-1, 4), 3);
    assert_eq!(Poly::mod_coeff(0, 4), 0);
}

#[test]
fn encrypt_decrypt_identity_n4() {
    // N = 4, q = 65536, t = 4: the message [0, 1, 2, 3] comes back
    // exactly.
    let q: i64 = 65536;
    let t: i64 = 4;
    let std_dev = 3.2;
    let degree: usize = 4;
    let mut rng = StdRng::seed_from_u64(18);

    let secret_key = SecretKey::generate(degree, &mut rng);
    let e_pk = gaussian_poly(std_dev, degree, &mut rng);
    let public_key = secret_key.public_key_gen(q, &e_pk, &mut rng);

    let pt = Plaintext::new(vec![0, 1, 2, 3], t);
    let e_1 = gaussian_poly(std_dev, degree, &mut rng);
    let e_2 = gaussian_poly(std_dev, degree, &mut rng);
    let ct = pt.encrypt(&public_key, &e_1, &e_2, &mut rng);
    let decrypted = ct.decrypt(&secret_key);
    assert_eq!(*decrypted.poly().coeffs(), vec![0, 1, 2, 3]);
}

#[test]
fn encrypt_with_is_deterministic() {
    // With the masking element and both errors supplied, encryption is
    // a pure function of its inputs.
    let q: i64 = 65536;
    let t: i64 = 8;
    let std_dev = 3.2;
    let degree: usize = 4;
    let mut rng = StdRng::seed_from_u64(31);

    let secret_key = SecretKey::generate(degree, &mut rng);
    let e_pk = gaussian_poly(std_dev, degree, &mut rng);
    let public_key = secret_key.public_key_gen(q, &e_pk, &mut rng);

    let pt = Plaintext::new(vec![7, 0, 5, 1], t);
    let u = Poly::new(vec![1, 0, 1, 1]);
    let e_1 = gaussian_poly(std_dev, degree, &mut rng);
    let e_2 = gaussian_poly(std_dev, degree, &mut rng);
    let ct_a = pt.encrypt_with(&public_key, &u, &e_1, &e_2);
    let ct_b = pt.encrypt_with(&public_key, &u, &e_1, &e_2);
    assert_eq!(ct_a.c_0, ct_b.c_0);
    assert_eq!(ct_a.c_1, ct_b.c_1);
    assert_eq!(ct_a.decrypt(&secret_key).poly(), pt.poly().modulo(t, degree));
}

#[test]
fn noiseless_encrypt_decrypt_is_exact() {
    // With the masking element and both error terms zero, the round
    // trip is exact for every message in [0, t), with no luck involved.
    let q: i64 = 65536;
    let t: i64 = 16;
    let degree: usize = 4;
    let mut rng = StdRng::seed_from_u64(40);

    let secret_key = SecretKey::generate(degree, &mut rng);
    let zero = Poly::new(vec![0; 4]);
    let public_key = secret_key.public_key_gen(q, &zero, &mut rng);

    let pt = Plaintext::new(vec![15, 0, 7, 3], t);
    let ct = pt.encrypt_with(&public_key, &zero, &zero, &zero);
    assert_eq!(ct.decrypt(&secret_key).poly(), pt.poly());

    let pt2 = Plaintext::new(vec![9, 14, 0, 1], t);
    let ct2 = pt2.encrypt_with(&public_key, &zero, &zero, &zero);
    let sum = ct.add(&ct2).decrypt(&secret_key);
    assert_eq!(sum.poly(), pt.poly().add(&pt2.poly()).modulo(t, degree));
}

#[test]
fn relin_2_mul_test() {
    // Multiplication through relinearization variant 2: the modulus is
    // enlarged to p * q for the key and switched back by the rounded
    // division by p.
    let q: i64 = 65536;
    let t: i64 = 4;
    let std_dev = 3.2;
    let degree: usize = 4;
    let p = 2_i64.pow(13) * q;
    let mut rng = StdRng::seed_from_u64(18);

    let secret_key = SecretKey::generate(degree, &mut rng);
    let e_pk = gaussian_poly(std_dev, degree, &mut rng);
    let public_key = secret_key.public_key_gen(q, &e_pk, &mut rng);
    let e_rlk = gaussian_poly(std_dev, degree, &mut rng);
    let rlk_2 = secret_key.relin_key_gen_2(q, &e_rlk, &mut rng, p);

    let pt_1 = Plaintext::new(vec![0, 1, 1, 0], t);
    let pt_2 = Plaintext::new(vec![1, 0, 1, 1], t);
    let e_1 = gaussian_poly(std_dev, degree, &mut rng);
    let e_2 = gaussian_poly(std_dev, degree, &mut rng);
    let ct_1 = pt_1.encrypt(&public_key, &e_1, &e_2, &mut rng);
    let e_1 = gaussian_poly(std_dev, degree, &mut rng);
    let e_2 = gaussian_poly(std_dev, degree, &mut rng);
    let ct_2 = pt_2.encrypt(&public_key, &e_1, &e_2, &mut rng);

    let mul_ct = ct_1.mul_2(&ct_2, &rlk_2);
    let mul_pt = mul_ct.decrypt(&secret_key);
    assert_eq!(
        mul_pt.poly(),
        pt_1.poly().mul(&pt_2.poly()).modulo(t, degree)
    );
}

#[test]
fn ciphertext_sub_neg_decrypt() {
    // Decrypting a difference and a negation recovers the matching
    // ring operations on the messages.
    let q: i64 = 65536;
    let t: i64 = 32;
    let std_dev = 3.2;
    let degree: usize = 4;
    let mut rng = StdRng::seed_from_u64(23);

    let secret_key = SecretKey::generate(degree, &mut rng);
    let e_pk = gaussian_poly(std_dev, degree, &mut rng);
    let public_key = secret_key.public_key_gen(q, &e_pk, &mut rng);

    let pt_1 = Plaintext::new(vec![5, 1, 7, 2], t);
    let pt_2 = Plaintext::new(vec![3, 3, 0, 9], t);
    let e_1 = gaussian_poly(std_dev, degree, &mut rng);
    let e_2 = gaussian_poly(std_dev, degree, &mut rng);
    let ct_1 = pt_1.encrypt(&public_key, &e_1, &e_2, &mut rng);
    let e_1 = gaussian_poly(std_dev, degree, &mut rng);
    let e_2 = gaussian_poly(std_dev, degree, &mut rng);
    let ct_2 = pt_2.encrypt(&public_key, &e_1, &e_2, &mut rng);

    let sub_pt = ct_1.sub(&ct_2).decrypt(&secret_key);
    let expected_sub = pt_1.poly().sub(&pt_2.poly()).modulo(t, degree);
    assert_eq!(sub_pt.poly(), expected_sub);

    let neg_pt = ct_1.neg().decrypt(&secret_key);
    let expected_neg = pt_1.poly().neg().modulo(t, degree);
    assert_eq!(neg_pt.poly(), expected_neg);
}
