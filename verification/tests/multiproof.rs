use ark_ff::{BigInteger, PrimeField};
use ark_std::rand::rngs::StdRng;
use ark_std::rand::{Rng, SeedableRng};
use keccak_asm::{Digest, Keccak256};
use vctrees::curve::G1Pt;
use vctrees::field::Scalar;
use vctrees::kzg::KZG;
use vctrees::multiproof::KZGMultiproof;
use vctrees::poly::poly_eval;
use vctrees::Error;

fn random_scalar(rng: &mut StdRng) -> Scalar {
    let bytes: Vec<u8> = (0..32).map(|_| rng.gen()).collect();
    Scalar::from_be_bytes_mod_order(&bytes)
}

fn random_poly(degree: usize, rng: &mut StdRng) -> Vec<Scalar> {
    (0..=degree).map(|_| random_scalar(rng)).collect()
}

#[test]
fn it_tests_hasher() {
    let a = ark_bn254::Fr::from(1u64);
    let b = ark_bn254::Fr::from(2u64);

    let mut hasher = Keccak256::new();
    let bytes = a.into_bigint().to_bytes_be();
    hasher.update(&bytes.as_slice());
    let bytes = b.into_bigint().to_bytes_be();
    hasher.update(&bytes.as_slice());

    let result = hasher.finalize();
    let output = ark_bn254::Fr::from_be_bytes_mod_order(&result);
    println!("Output: {:?}", output);
}

#[test]
fn it_hashes_bytes() {
    let mut hasher = Keccak256::new();

    let hex_str = "0x0bda44190efee105577ec4a7e5e8e94c875e4a97ce41e820d82e3424382824f625b89cab6578c387dc140660106c9b44af234b055e21164c854d157753cc187b000000000000000000000000000000000000000000000000000000000000000124a4d6b8fed93c9c959df98a34e30aeac6e2933609b0c555d97bb7367577696e104be95f3efe84619f2dff041454f9829d7fa4003493e4509376824730b65204029bb394cee62bb6484697199a6ca59dca331734436252891203ad02bc4c24e700000000000000000000000000000000000000000000000000000000000000012450f6b7c10686ddeaf46ad3463313973d6d969633692eec67d9b10ac34f682600ea524c58f85af52e63dcaf38890aeff2e01f59d28392cf2c9db9ba56515cfe143d526f841d7b4eb22692b400f14d07d3c2269684d4284f74fb2ed42d151af230644e72e131a029b85045b68181585d2833e84879b9709143e1f593f000000000c620431992bb5a1818e1ef290d79b3c8f39838541f408b4e9d3ff4af71f857";
    let hex_str = &hex_str[2..];
    let bytes: Vec<u8> = (0..hex_str.len())
        .step_by(2)
        .map(|i| u8::from_str_radix(&hex_str[i..i + 2], 16).unwrap())
        .collect();

    println!("Bytes: {:?}", bytes);

    hasher.update(&bytes.as_slice());
    let result = hasher.finalize();
    let output = ark_bn254::Fr::from_be_bytes_mod_order(&result);
    println!("Output: {:?}", output);
}

#[test]
fn it_tests_two_polys() {
    let mut rng = StdRng::seed_from_u64(41);
    let degree = 10;

    let pp = KZG::setup(degree, false, 42).unwrap();
    let (ck, vk) = KZG::trim(pp, degree).unwrap();

    let poly1 = random_poly(degree, &mut rng);
    let poly2 = random_poly(degree, &mut rng);
    let com1 = KZG::commit(&ck, &poly1);
    let com2 = KZG::commit(&ck, &poly2);

    let point1 = random_scalar(&mut rng);
    let value1 = poly_eval(&poly1, &point1);
    let point2 = random_scalar(&mut rng);
    let value2 = poly_eval(&poly2, &point2);

    let proof = KZGMultiproof::prove(
        &ck,
        &vec![poly1, poly2],
        &vec![com1, com2],
        &vec![point1, point2],
        &vec![value1, value2],
    )
    .unwrap();

    let result = KZGMultiproof::verify(
        &vk,
        &vec![com1, com2],
        &vec![point1, point2],
        &vec![value1, value2],
        &proof,
    )
    .unwrap();

    assert!(result);
}

#[test]
fn it_tests_multiple_polys() {
    let mut rng = StdRng::seed_from_u64(43);
    let degree = 10;
    let num = 10;

    let pp = KZG::setup(degree, false, 44).unwrap();
    let (ck, vk) = KZG::trim(pp, degree).unwrap();

    let polys: Vec<Vec<Scalar>> = (0..num).map(|_| random_poly(degree, &mut rng)).collect();
    let coms: Vec<G1Pt> = polys.iter().map(|poly| KZG::commit(&ck, poly)).collect();

    let points: Vec<Scalar> = (0..num).map(|_| random_scalar(&mut rng)).collect();
    let values: Vec<Scalar> = polys
        .iter()
        .zip(points.iter())
        .map(|(poly, point)| poly_eval(poly, point))
        .collect();

    let proof = KZGMultiproof::prove(&ck, &polys, &coms, &points, &values).unwrap();
    let result = KZGMultiproof::verify(&vk, &coms, &points, &values, &proof).unwrap();
    assert!(result);
}

#[test]
fn it_tests_high_degree_polys() {
    let mut rng = StdRng::seed_from_u64(45);
    let degree = 256;
    let num = 100;

    let pp = KZG::setup(degree, false, 46).unwrap();
    let (ck, vk) = KZG::trim(pp, degree).unwrap();

    let polys: Vec<Vec<Scalar>> = (0..num).map(|_| random_poly(degree, &mut rng)).collect();
    let coms: Vec<G1Pt> = polys.iter().map(|poly| KZG::commit(&ck, poly)).collect();

    let points: Vec<Scalar> = (0..num).map(|_| random_scalar(&mut rng)).collect();
    let values: Vec<Scalar> = polys
        .iter()
        .zip(points.iter())
        .map(|(poly, point)| poly_eval(poly, point))
        .collect();

    let proof = KZGMultiproof::prove(&ck, &polys, &coms, &points, &values).unwrap();
    let result = KZGMultiproof::verify(&vk, &coms, &points, &values, &proof).unwrap();
    assert!(result);
}

#[test]
fn an_inconsistent_value_stops_the_prover() {
    let mut rng = StdRng::seed_from_u64(47);
    let degree = 6;
    let pp = KZG::setup(degree, false, 48).unwrap();
    let (ck, _) = KZG::trim(pp, degree).unwrap();

    let poly = random_poly(degree, &mut rng);
    let com = KZG::commit(&ck, &poly);
    let point = random_scalar(&mut rng);
    let value = poly_eval(&poly, &point);
    let wrong = vctrees::poly::poly_add(&vec![value], &vec![Scalar::from_u64(1)]);

    let err = KZGMultiproof::prove(
        &ck,
        &vec![poly],
        &vec![com],
        &vec![point],
        &vec![wrong[0]],
    )
    .unwrap_err();
    assert_eq!(err, Error::DivisionRemainder);
}

#[test]
fn an_empty_batch_is_rejected() {
    let pp = KZG::setup(2, false, 49).unwrap();
    let (ck, vk) = KZG::trim(pp, 2).unwrap();
    let err = KZGMultiproof::prove(
        &ck,
        &Vec::new(),
        &Vec::new(),
        &Vec::new(),
        &Vec::new(),
    )
    .unwrap_err();
    assert_eq!(err, Error::DegreeIsZero);
    let dummy = vctrees::multiproof::Proof {
        d: G1Pt { x: [0u8; 32], y: [0u8; 32], inf: true },
        pi: G1Pt { x: [0u8; 32], y: [0u8; 32], inf: true },
    };
    let err = KZGMultiproof::verify(&vk, &Vec::new(), &Vec::new(), &Vec::new(), &dummy)
        .unwrap_err();
    assert_eq!(err, Error::DegreeIsZero);
}

#[test]
fn corrupting_the_proof_rejects() {
    let mut rng = StdRng::seed_from_u64(50);
    let degree = 10;
    let pp = KZG::setup(degree, false, 51).unwrap();
    let (ck, vk) = KZG::trim(pp, degree).unwrap();

    let poly = random_poly(degree, &mut rng);
    let com = KZG::commit(&ck, &poly);
    let point = random_scalar(&mut rng);
    let value = poly_eval(&poly, &point);

    let polys = vec![poly];
    let coms = vec![com];
    let points = vec![point];
    let values = vec![value];
    let mut proof = KZGMultiproof::prove(&ck, &polys, &coms, &points, &values).unwrap();
    assert!(KZGMultiproof::verify(&vk, &coms, &points, &values, &proof).unwrap());
    proof.pi.y[31] ^= 1;
    assert!(!KZGMultiproof::verify(&vk, &coms, &points, &values, &proof).unwrap());
}

#[test]
fn prover_runs_agree_on_identical_inputs() {
    let mut rng = StdRng::seed_from_u64(52);
    let degree = 8;
    let pp = KZG::setup(degree, false, 53).unwrap();
    let (ck, _) = KZG::trim(pp, degree).unwrap();

    let polys: Vec<Vec<Scalar>> = (0..3).map(|_| random_poly(degree, &mut rng)).collect();
    let coms: Vec<G1Pt> = polys.iter().map(|p| KZG::commit(&ck, p)).collect();
    let points: Vec<Scalar> = (0..3).map(|_| random_scalar(&mut rng)).collect();
    let values: Vec<Scalar> = polys
        .iter()
        .zip(points.iter())
        .map(|(p, z)| poly_eval(p, z))
        .collect();

    let pf1 = KZGMultiproof::prove(&ck, &polys, &coms, &points, &values).unwrap();
    let pf2 = KZGMultiproof::prove(&ck, &polys, &coms, &points, &values).unwrap();
    assert_eq!(pf1, pf2);
}
