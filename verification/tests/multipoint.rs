use ark_std::rand::rngs::StdRng;
use ark_std::rand::{Rng, SeedableRng};
use vctrees::curve::G1Pt;
use vctrees::field::Scalar;
use vctrees::kzg::KZG;
use vctrees::multipoint::KZGMultipoint;
use vctrees::poly::poly_eval;

fn random_scalar(rng: &mut StdRng) -> Scalar {
    let bytes: Vec<u8> = (0..32).map(|_| rng.gen()).collect();
    Scalar::from_be_bytes_mod_order(&bytes)
}

fn random_poly(degree: usize, rng: &mut StdRng) -> Vec<Scalar> {
    (0..=degree).map(|_| random_scalar(rng)).collect()
}

#[test]
fn it_tests_multiple_points() {
    let mut rng = StdRng::seed_from_u64(61);
    let degree: usize = 100;
    let num_poly: usize = 10;
    let max_points: usize = 10;

    let pp = KZG::setup(degree, false, 62).unwrap();
    let (ck, vk) = KZG::trim(pp, degree).unwrap();

    let polys: Vec<Vec<Scalar>> = (0..num_poly)
        .map(|_| random_poly(degree, &mut rng))
        .collect();
    let coms: Vec<G1Pt> = polys.iter().map(|poly| KZG::commit(&ck, poly)).collect();

    let mut points_vec: Vec<Vec<Scalar>> = Vec::new();
    let mut values_vec: Vec<Vec<Scalar>> = Vec::new();
    for poly in polys.iter() {
        let num_points = rng.gen_range(1..=max_points);
        let points: Vec<Scalar> = (0..num_points).map(|_| random_scalar(&mut rng)).collect();
        let values: Vec<Scalar> = points.iter().map(|point| poly_eval(poly, point)).collect();
        points_vec.push(points);
        values_vec.push(values);
    }

    let proof = KZGMultipoint::prove(&ck, &polys, &coms, &points_vec, &values_vec).unwrap();

    let result = KZGMultipoint::verify(&vk, &coms, &points_vec, &values_vec, &proof).unwrap();

    assert!(result);
}

#[test]
fn two_polys_two_points_each_and_corruption_fails() {
    let mut rng = StdRng::seed_from_u64(63);
    let degree: usize = 10;

    let pp = KZG::setup(degree, false, 64).unwrap();
    let (ck, vk) = KZG::trim(pp, degree).unwrap();

    let polys: Vec<Vec<Scalar>> = (0..2).map(|_| random_poly(degree, &mut rng)).collect();
    let coms: Vec<G1Pt> = polys.iter().map(|poly| KZG::commit(&ck, poly)).collect();

    let mut points_vec: Vec<Vec<Scalar>> = Vec::new();
    let mut values_vec: Vec<Vec<Scalar>> = Vec::new();
    for poly in polys.iter() {
        let points: Vec<Scalar> = (0..2).map(|_| random_scalar(&mut rng)).collect();
        let values: Vec<Scalar> = points.iter().map(|point| poly_eval(poly, point)).collect();
        points_vec.push(points);
        values_vec.push(values);
    }

    let mut proof = KZGMultipoint::prove(&ck, &polys, &coms, &points_vec, &values_vec).unwrap();
    assert!(KZGMultipoint::verify(&vk, &coms, &points_vec, &values_vec, &proof).unwrap());

    proof.pi.y[31] ^= 1;
    assert!(!KZGMultipoint::verify(&vk, &coms, &points_vec, &values_vec, &proof).unwrap());
}

#[test]
fn interpolation_division_is_exact_on_consistent_claims() {
    // A wrong claimed value leaves a nonzero remainder behind the
    // vanishing-polynomial division.
    let mut rng = StdRng::seed_from_u64(65);
    let degree: usize = 8;
    let pp = KZG::setup(degree, false, 66).unwrap();
    let (ck, _) = KZG::trim(pp, degree).unwrap();

    let poly = random_poly(degree, &mut rng);
    let com = KZG::commit(&ck, &poly);
    let points: Vec<Scalar> = (0..3).map(|_| random_scalar(&mut rng)).collect();
    let mut values: Vec<Scalar> = points.iter().map(|p| poly_eval(&poly, p)).collect();
    values[1] = vctrees::poly::poly_add(&vec![values[1]], &vec![Scalar::from_u64(1)])[0];

    let err = KZGMultipoint::prove(
        &ck,
        &vec![poly],
        &vec![com],
        &vec![points],
        &vec![values],
    )
    .unwrap_err();
    assert_eq!(err, vctrees::Error::DivisionRemainder);
}
