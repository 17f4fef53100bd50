use ark_ff::PrimeField;
use ark_std::rand::rngs::StdRng;
use ark_std::rand::{Rng, SeedableRng};
use vctrees::field::Scalar;
use vctrees::kzg::KZG;
use vctrees::poly::poly_eval;
use vctrees::Error;

fn random_scalar(rng: &mut StdRng) -> Scalar {
    let bytes: Vec<u8> = (0..32).map(|_| rng.gen()).collect();
    Scalar::from_be_bytes_mod_order(&bytes)
}

fn random_poly(degree: usize, rng: &mut StdRng) -> Vec<Scalar> {
    (0..=degree).map(|_| random_scalar(rng)).collect()
}

#[test]
fn test_setup_param() {
    let degree = 4;
    let pp = KZG::setup(degree, false, 31).unwrap();
    let (_, vk) = KZG::trim(pp, degree).unwrap();

    println!("vk.h: {:?}", vk.h);
    println!("vk.g: {:?}", vk.g);
}

#[test]
fn first_power_is_the_generator() {
    // The batch multiplication starts at the scalar one, so the first
    // power must be the curve's generator (1, 2).
    let pp = KZG::setup(4, false, 32).unwrap();
    let g = &pp.powers_of_g[0];
    let mut one = [0u8; 32];
    one[31] = 1;
    let mut two = [0u8; 32];
    two[31] = 2;
    assert_eq!(g.x, one);
    assert_eq!(g.y, two);
    assert!(!g.inf);
}

#[test]
fn opening_a_random_polynomial_checks() {
    let mut rng = StdRng::seed_from_u64(33);
    let degree = 10;
    let pp = KZG::setup(degree, false, 34).unwrap();
    let (ck, vk) = KZG::trim(pp, degree).unwrap();

    let poly = random_poly(degree, &mut rng);
    let comm = KZG::commit(&ck, &poly);
    let point = random_scalar(&mut rng);
    let value = poly_eval(&poly, &point);
    let proof = KZG::open(&ck, &poly, &point).unwrap();
    let result = KZG::check(&vk, &comm, &point, &value, &proof).unwrap();
    assert!(result);
}

#[test]
fn a_wrong_value_fails_the_check() {
    let mut rng = StdRng::seed_from_u64(35);
    let degree = 10;
    let pp = KZG::setup(degree, false, 36).unwrap();
    let (ck, vk) = KZG::trim(pp, degree).unwrap();

    let poly = random_poly(degree, &mut rng);
    let comm = KZG::commit(&ck, &poly);
    let point = random_scalar(&mut rng);
    let value = poly_eval(&poly, &point);
    let proof = KZG::open(&ck, &poly, &point).unwrap();
    let wrong = vctrees::poly::poly_add(&vec![value], &vec![Scalar::from_u64(1)]);
    let result = KZG::check(&vk, &comm, &point, &wrong[0], &proof).unwrap();
    assert!(!result);
}

#[test]
fn setup_rejects_degree_zero() {
    assert_eq!(KZG::setup(0, false, 37).unwrap_err(), Error::DegreeIsZero);
}

#[test]
fn trim_rejects_excess_degree() {
    let pp = KZG::setup(4, false, 38).unwrap();
    assert_eq!(KZG::trim(pp, 9).unwrap_err(), Error::TrimExceedsSetup);
}

#[test]
fn setup_with_g2_powers_produces_them() {
    let pp = KZG::setup(3, true, 39).unwrap();
    assert_eq!(pp.neg_powers_of_h.len(), 4);
    assert_eq!(pp.powers_of_g.len(), 4);
    assert_eq!(pp.powers_of_gamma_g.len(), 5);
}

#[test]
fn polynomial_arithmetic_matches_reference_values() {
    // (3 + 2X) evaluated at 5 is 13; adding (1 + X + X^2) gives
    // (4 + 3X + X^2), which at 5 is 44.
    let a = vec![Scalar::from_u64(3), Scalar::from_u64(2)];
    let b = vec![
        Scalar::from_u64(1),
        Scalar::from_u64(1),
        Scalar::from_u64(1),
    ];
    let five = Scalar::from_u64(5);
    assert_eq!(poly_eval(&a, &five), Scalar::from_u64(13));
    let sum = vctrees::poly::poly_add(&a, &b);
    assert_eq!(poly_eval(&sum, &five), Scalar::from_u64(44));
    let diff = vctrees::poly::poly_sub(&sum, &b);
    assert_eq!(poly_eval(&diff, &five), Scalar::from_u64(13));
}

#[test]
fn linear_division_recovers_the_quotient() {
    // (X^2 - 1) / (X - 1) = X + 1 exactly.
    let p_of_x = vctrees::poly::poly_sub(
        &vec![
            Scalar::from_u64(0),
            Scalar::from_u64(0),
            Scalar::from_u64(1),
        ],
        &vec![Scalar::from_u64(1)],
    );
    let one = Scalar::from_u64(1);
    let (q, rem) = vctrees::poly::poly_div_linear(&p_of_x, &one);
    assert!(rem.is_zero());
    assert_eq!(q.len(), 2);
    assert_eq!(q[0], Scalar::from_u64(1));
    assert_eq!(q[1], Scalar::from_u64(1));
}

#[test]
fn scalar_encoding_round_trips() {
    let s = Scalar::from_u64(0x0102030405060708);
    let mut expect = [0u8; 32];
    expect[24..32].copy_from_slice(&0x0102030405060708u64.to_be_bytes());
    assert_eq!(s.bytes, expect);
    let f = ark_bn254::Fr::from_be_bytes_mod_order(&s.bytes);
    let mut back = [0u8; 32];
    back.copy_from_slice(&ark_ff::BigInteger::to_bytes_be(&f.into_bigint()));
    assert_eq!(back, s.bytes);
}
