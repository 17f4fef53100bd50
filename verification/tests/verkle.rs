use ark_ff::PrimeField;
use keccak_asm::{Digest, Keccak256};
use ark_poly::{EvaluationDomain, GeneralEvaluationDomain};
use vctrees::field::Scalar;
use vctrees::merkle::compute_path;
use vctrees::verkle::VerkleTree;
use vctrees::Error;

type Domain = GeneralEvaluationDomain<ark_bn254::Fr>;

fn scalar_of(f: ark_bn254::Fr) -> Scalar {
    let mut bytes = [0u8; 32];
    bytes.copy_from_slice(&ark_ff::BigInteger::to_bytes_be(&f.into_bigint()));
    Scalar { bytes }
}

#[test]
fn roots_of_unity() {
    let domain = Domain::new(3).unwrap();
    let element = domain.element(1);
    println!("Element: {:?}", element);

    let two = ark_ff::Field::pow(&element, &[4u64]);
    println!("Two: {:?}", two);

    let element = domain.element(4);
    println!("Element: {:?}", element);

    let domain = Domain::new(10).unwrap();
    let element = domain.element(1);
    println!("Element: {:?}", element);
}

#[test]
fn verkle_tree_it_instantiates_tree() {
    let width = 8;
    let tree = VerkleTree::setup(width, 11);
    assert!(tree.height.is_none());
    assert!(tree.root.is_none());
}

#[test]
fn verkle_tree_it_commits() {
    let width = 8;
    let mut tree = VerkleTree::setup(width, 12);

    let vec = vec![
        Scalar::from_u64(0),
        Scalar::from_u64(1),
        Scalar::from_u64(2),
    ];
    tree.commit(&vec);
}

#[test]
fn it_commits_bigger_vector() {
    let n = 17;
    let width = 4;
    let mut tree = VerkleTree::setup(width, 13);

    let vec: Vec<Scalar> = (0..n).map(Scalar::from_u64).collect();
    tree.commit(&vec);
}

#[test]
fn verkle_tree_it_tests_compute_path() {
    let width = 4;
    let height = 3;
    let index = 2;
    let tree_path = compute_path(index, height, width);
    println!("Tree path: {:?}", tree_path);
}

#[test]
fn it_computes_path_index() {
    let width = 4;
    let height = 3;
    let index = 2;
    let tree_path = compute_path(index, height, width);

    let domain = Domain::new(width).unwrap();
    let roots_of_unity = domain.element(1);
    let path_index: Vec<ark_bn254::Fr> = tree_path.iter().map(|p| domain.element(*p)).collect();
    println!("Tree path: {:?}", path_index);
    println!("Roots of unity: {:?}", roots_of_unity);
}

#[test]
fn verkle_tree_it_opens() {
    let n = 17;
    let width = 4;
    let mut tree = VerkleTree::setup(width, 14);

    let vec: Vec<Scalar> = (1..=n).map(Scalar::from_u64).collect();
    tree.commit(&vec);

    let index = 2;
    let (value, _) = tree.open(index).unwrap();
    assert_eq!(value, vec[index]);
}

#[test]
fn verkle_tree_it_verifies() {
    let n = 17;
    let width = 4;
    let mut tree = VerkleTree::setup(width, 15);

    let vec: Vec<Scalar> = (1..=n).map(Scalar::from_u64).collect();
    tree.commit(&vec);

    let index = 2;
    let (value, multi_proof) = tree.open(index).unwrap();
    let result = tree.verify(index, &value, &multi_proof);
    assert_eq!(result.unwrap(), true);
}

#[test]
fn verkle_tree_it_rejects_false_statement() {
    let n = 17;
    let width = 4;
    let mut tree = VerkleTree::setup(width, 16);

    let vec: Vec<Scalar> = (1..=n).map(Scalar::from_u64).collect();
    tree.commit(&vec);

    let index = 2;
    let (_value, multi_proof) = tree.open(index).unwrap();
    let wrong = Scalar::from_u64(4);
    let result = tree.verify(index, &wrong, &multi_proof);
    assert_eq!(result.unwrap(), false);
}

#[test]
fn sixteen_values_width_four_opens_and_verifies() {
    // Sixteen scalars under width 4 give height 2; index 2 opens to
    // the third value and the proof carries two commitments.
    let width = 4;
    let mut tree = VerkleTree::setup(width, 17);
    let vec: Vec<Scalar> = (1..=16).map(Scalar::from_u64).collect();
    tree.commit(&vec);
    assert_eq!(tree.height.unwrap(), 2);

    let (value, proof) = tree.open(2).unwrap();
    assert_eq!(value, Scalar::from_u64(3));
    assert_eq!(proof.coms.len(), 2);
    assert_eq!(tree.verify(2, &value, &proof).unwrap(), true);

    let bumped = Scalar::from_u64(4);
    assert_eq!(tree.verify(2, &bumped, &proof).unwrap(), false);
}

#[test]
fn verkle_corrupting_the_proof_rejects() {
    let width = 4;
    let mut tree = VerkleTree::setup(width, 18);
    let vec: Vec<Scalar> = (1..=16).map(Scalar::from_u64).collect();
    tree.commit(&vec);
    let (value, mut proof) = tree.open(5).unwrap();
    assert_eq!(tree.verify(5, &value, &proof).unwrap(), true);
    proof.multi_proof.pi.x[31] ^= 1;
    assert_eq!(tree.verify(5, &value, &proof).unwrap(), false);
}

#[test]
fn verifying_under_a_wrong_index_rejects() {
    let width = 4;
    let mut tree = VerkleTree::setup(width, 19);
    let vec: Vec<Scalar> = (1..=16).map(Scalar::from_u64).collect();
    tree.commit(&vec);
    let (value, proof) = tree.open(5).unwrap();
    assert_eq!(tree.verify(6, &value, &proof).unwrap(), false);
}

#[test]
fn root_hash_agrees_across_instances_with_same_seed() {
    let vec: Vec<Scalar> = (1..=10).map(Scalar::from_u64).collect();
    let mut t1 = VerkleTree::setup(4, 77);
    let mut t2 = VerkleTree::setup(4, 77);
    t1.commit(&vec);
    t2.commit(&vec);
    assert_eq!(t1.root_hash(), t2.root_hash());
}

#[test]
fn open_before_commit_is_an_error() {
    let tree = VerkleTree::setup(4, 20);
    assert_eq!(tree.open(0).unwrap_err(), Error::UncommittedTree);
    let value = Scalar::from_u64(1);
    let proof_err = tree
        .verify(0, &value, &vctrees::verkle::Proof {
            coms: Vec::new(),
            multi_proof: vctrees::multiproof::Proof {
                d: dummy_point(),
                pi: dummy_point(),
            },
        })
        .unwrap_err();
    assert_eq!(proof_err, Error::UncommittedTree);
}

fn dummy_point() -> vctrees::curve::G1Pt {
    vctrees::curve::G1Pt {
        x: [0u8; 32],
        y: [0u8; 32],
        inf: true,
    }
}

#[test]
fn out_of_range_index_is_an_error() {
    let mut tree = VerkleTree::setup(4, 21);
    let vec: Vec<Scalar> = (1..=5).map(Scalar::from_u64).collect();
    tree.commit(&vec);
    assert_eq!(tree.open(7).unwrap_err(), Error::InvalidIndex);
}

#[test]
fn index_beyond_the_digit_span_is_an_error() {
    // 17 aliases to digit string 0,1 under width 4 and height 2; it
    // must be rejected, not opened as index 1, and the verifier must
    // reject it the same way.
    let mut tree = VerkleTree::setup(4, 22);
    let vec: Vec<Scalar> = (1..=5).map(Scalar::from_u64).collect();
    tree.commit(&vec);
    assert_eq!(tree.open(17).unwrap_err(), Error::InvalidIndex);
    let (value, proof) = tree.open(1).unwrap();
    assert_eq!(tree.verify(17, &value, &proof).unwrap_err(), Error::InvalidIndex);
    assert_eq!(tree.verify(1, &value, &proof).unwrap(), true);
}

#[test]
fn node_hash_skips_zero_elements() {
    // A point with a zero coordinate contributes only its nonzero
    // elements to the transcript: hashing such a point must agree
    // with an independently built Keccak stream.
    let y = [5u8; 32];
    let p = vctrees::curve::G1Pt {
        x: [0u8; 32],
        y,
        inf: false,
    };
    let got = VerkleTree::hash_g1(&p);
    let digest = Keccak256::digest(&y);
    let expect = scalar_of(ark_bn254::Fr::from_be_bytes_mod_order(&digest));
    assert_eq!(got, expect);
}

#[test]
fn leaf_hash_matches_reference_stream() {
    let s = Scalar::from_u64(42);
    let got = VerkleTree::hash_fr(&s);
    let digest = Keccak256::digest(&s.bytes);
    let expect = scalar_of(ark_bn254::Fr::from_be_bytes_mod_order(&digest));
    assert_eq!(got, expect);
}
