use ark_std::rand::rngs::StdRng;
use ark_std::rand::{Rng, SeedableRng};
use keccak_asm::{Digest, Keccak256};
use vctrees::merkle::{compute_path, MerkleTree};

fn random_bytes(rng: &mut StdRng) -> Vec<u8> {
    (0..32).map(|_| rng.gen()).collect()
}

#[test]
fn tree_it_instantiates_tree() {
    let width = 8;
    let tree = MerkleTree::setup(width);
    assert!(tree.height.is_none());
    assert!(tree.root.is_none());
}

#[test]
fn tree_it_commits() {
    let mut rng = StdRng::seed_from_u64(1);
    let width = 2;
    let mut tree = MerkleTree::setup(width);
    let vec = vec![
        random_bytes(&mut rng),
        random_bytes(&mut rng),
        random_bytes(&mut rng),
    ];
    tree.commit(&vec);
    assert_eq!(tree.height.unwrap(), 2);
}

#[test]
fn tree_it_tests_compute_path() {
    let width = 2;
    let height = 2;
    let index = 1;
    let tree_path = compute_path(index, height, width);
    println!("Tree path: {:?}", tree_path);
}

#[test]
fn tree_it_opens() {
    let mut rng = StdRng::seed_from_u64(2);
    let width = 2;
    let mut tree = MerkleTree::setup(width);
    let vec = vec![
        random_bytes(&mut rng),
        random_bytes(&mut rng),
        random_bytes(&mut rng),
    ];
    tree.commit(&vec);

    let (value, _) = tree.open(1);
    assert_eq!(value, vec[1].clone());
}

#[test]
fn tree_it_verifies() {
    let mut rng = StdRng::seed_from_u64(3);
    let width = 2;
    let mut tree = MerkleTree::setup(width);
    let vec = vec![
        random_bytes(&mut rng),
        random_bytes(&mut rng),
        random_bytes(&mut rng),
    ];
    tree.commit(&vec);

    let (value, proof) = tree.open(1);
    assert!(tree.verify(1, &value, &proof));
}

#[test]
fn tree_it_rejects_false_statement() {
    let mut rng = StdRng::seed_from_u64(4);
    let width = 2;
    let mut tree = MerkleTree::setup(width);
    let vec = vec![
        random_bytes(&mut rng),
        random_bytes(&mut rng),
        random_bytes(&mut rng),
    ];
    tree.commit(&vec);

    let (value, proof) = tree.open(1);
    assert_eq!(tree.verify(0, &value, &proof), false);
}

#[test]
fn it_verifies_bigger_vector() {
    let mut rng = StdRng::seed_from_u64(5);
    let width = 4;
    let vec_length = 100;
    let mut tree = MerkleTree::setup(width);
    let vec = (0..vec_length)
        .map(|_| random_bytes(&mut rng))
        .collect::<Vec<_>>();
    tree.commit(&vec);

    let random_index = rng.gen_range(0..vec_length);
    let (value, proof) = tree.open(random_index);
    assert!(tree.verify(random_index, &value, &proof));
}

#[test]
fn three_leaves_arity_three_exact_proof() {
    // Three 32-byte constants under arity 3: one level, the proof
    // holds the two siblings in ascending slot order (the order the
    // verifier consumes), and the root hashes the three leaf hashes.
    let v1 = vec![0x01u8; 32];
    let v2 = vec![0x02u8; 32];
    let v3 = vec![0x03u8; 32];
    let mut tree = MerkleTree::setup(3);
    tree.commit(&vec![v1.clone(), v2.clone(), v3.clone()]);
    assert_eq!(tree.height.unwrap(), 1);

    let h1: [u8; 32] = Keccak256::digest(&v1).into();
    let h2: [u8; 32] = Keccak256::digest(&v2).into();
    let h3: [u8; 32] = Keccak256::digest(&v3).into();

    let (value, proof) = tree.open(1);
    assert_eq!(value, v2);
    assert_eq!(proof.hashes.len(), 2);
    assert_eq!(proof.hashes[0], h1);
    assert_eq!(proof.hashes[1], h3);

    let mut hasher = Keccak256::new();
    hasher.update(&h1);
    hasher.update(&h2);
    hasher.update(&h3);
    let root: [u8; 32] = hasher.finalize().into();
    assert_eq!(tree.root_hash().unwrap(), root);
    assert!(tree.verify(1, &value, &proof));
}

#[test]
fn padded_chunk_repeats_last_hash() {
    // Binary tree over three leaves: the second chunk pads with the
    // third leaf's own hash, and the proof for index 2 is that hash
    // followed by the first pair's parent.
    let v1 = vec![0x0au8; 32];
    let v2 = vec![0x0bu8; 32];
    let v3 = vec![0x0cu8; 32];
    let mut tree = MerkleTree::setup(2);
    tree.commit(&vec![v1.clone(), v2.clone(), v3.clone()]);

    let h1: [u8; 32] = Keccak256::digest(&v1).into();
    let h2: [u8; 32] = Keccak256::digest(&v2).into();
    let h3: [u8; 32] = Keccak256::digest(&v3).into();
    let mut hasher = Keccak256::new();
    hasher.update(&h1);
    hasher.update(&h2);
    let p12: [u8; 32] = hasher.finalize().into();
    let mut hasher = Keccak256::new();
    hasher.update(&h3);
    hasher.update(&h3);
    let p33: [u8; 32] = hasher.finalize().into();
    let mut hasher = Keccak256::new();
    hasher.update(&p12);
    hasher.update(&p33);
    let root: [u8; 32] = hasher.finalize().into();

    assert_eq!(tree.root_hash().unwrap(), root);
    let (value, proof) = tree.open(2);
    assert_eq!(value, v3);
    assert_eq!(proof.hashes, vec![h3, p12]);
    assert!(tree.verify(2, &value, &proof));
}

#[test]
fn random_indices_open_and_flipping_a_byte_fails() {
    let mut rng = StdRng::seed_from_u64(7);
    let n = 100;
    let mut tree = MerkleTree::setup(4);
    let vec = (0..n).map(|_| random_bytes(&mut rng)).collect::<Vec<_>>();
    tree.commit(&vec);
    for _ in 0..10 {
        let index = rng.gen_range(0..n);
        let (value, proof) = tree.open(index);
        assert!(tree.verify(index, &value, &proof));
        let mut corrupted = proof.clone();
        corrupted.hashes[0][0] ^= 1;
        assert!(!tree.verify(index, &value, &corrupted));
    }
}

#[test]
fn roots_agree_across_instances() {
    let mut rng = StdRng::seed_from_u64(8);
    let vec = (0..13).map(|_| random_bytes(&mut rng)).collect::<Vec<_>>();
    let mut t1 = MerkleTree::setup(3);
    let mut t2 = MerkleTree::setup(3);
    t1.commit(&vec);
    t2.commit(&vec);
    assert_eq!(t1.root_hash().unwrap(), t2.root_hash().unwrap());
}

#[test]
fn proof_size_matches_arity_and_height() {
    let mut rng = StdRng::seed_from_u64(9);
    for &(k, n) in &[(2usize, 5usize), (3, 10), (4, 64), (8, 100)] {
        let mut tree = MerkleTree::setup(k);
        let vec = (0..n).map(|_| random_bytes(&mut rng)).collect::<Vec<_>>();
        tree.commit(&vec);
        let h = tree.height.unwrap();
        let (_, proof) = tree.open(n - 1);
        assert_eq!(proof.hashes.len(), (k - 1) * h);
    }
}

#[test]
fn compute_path_digits_recompose() {
    for &(i, h, w) in &[(11usize, 4usize, 2usize), (25, 3, 3), (7, 2, 8), (0, 3, 4)] {
        let path = compute_path(i, h, w);
        assert_eq!(path.len(), h);
        let mut acc = 0usize;
        for d in &path {
            assert!(*d < w);
            acc = acc * w + d;
        }
        assert_eq!(acc, i);
    }
}
