use poseidon_merkle::MerkleTree;
use poseidon_merkle::TreeError;
use poseidon_merkle::{gen_poseidon_hash, gen_poseidon_hash_by_fr};

#[test]
fn lib_it_works() {
    let a = gen_poseidon_hash(b"hello").unwrap();
    let b = gen_poseidon_hash(b"world").unwrap();
    let c = gen_poseidon_hash(b"hello world").unwrap();
    println!("a: {:?}, b: {:?}, c: {:?}", a, b, c);
    let ab = gen_poseidon_hash_by_fr(vec![a, b]).unwrap();
    let bc = gen_poseidon_hash_by_fr(vec![b, c]).unwrap();
    println!("ab: {:?}, bc: {:?}", ab, bc);
    let abc = gen_poseidon_hash_by_fr(vec![ab, c]).unwrap();
    let abc_ = gen_poseidon_hash_by_fr(vec![a, bc]).unwrap();
    println!("abc: {:?}, abc_: {:?}", abc, abc_);
}

#[test]
fn merkle_it_works() {
    let mut tree = MerkleTree::new();
    tree.insert_leaf(0, b"hello".to_vec()).unwrap();
    tree.insert_leaf(1, b"world".to_vec()).unwrap();
    tree.insert_leaf(2, b"hello world".to_vec()).unwrap();
    let proof = tree.get_proof(0).unwrap();
    println!("proof: {:?}", proof);
    assert!(tree.verify(&proof));
}

#[test]
fn absorb_is_deterministic_and_separates_inputs() {
    let a1 = poseidon_merkle::hash::absorb(b"hello");
    let a2 = poseidon_merkle::hash::absorb(b"hello");
    let b = poseidon_merkle::hash::absorb(b"world");
    assert!(a1.equals(&a2));
    assert_eq!(a1.to_bytes(), a2.to_bytes());
    assert!(!a1.equals(&b));
    assert_ne!(a1.to_bytes(), b.to_bytes());
}

#[test]
fn compress_is_order_sensitive() {
    let a = poseidon_merkle::hash::absorb(b"hello");
    let b = poseidon_merkle::hash::absorb(b"world");
    let ab = poseidon_merkle::hash::compress(&a, &b);
    let ba = poseidon_merkle::hash::compress(&b, &a);
    assert!(!ab.equals(&ba));
}

#[test]
fn poseidon_arity_bounds() {
    let a = poseidon_merkle::hash::absorb(b"x");
    assert!(matches!(gen_poseidon_hash_by_fr(vec![]), Err(TreeError::InvalidArity)));
    assert!(gen_poseidon_hash_by_fr(vec![a]).is_ok());
    assert!(gen_poseidon_hash_by_fr(vec![a; 6]).is_ok());
    assert!(matches!(gen_poseidon_hash_by_fr(vec![a; 7]), Err(TreeError::InvalidArity)));
}

#[test]
fn scenario_three_leaves_proof_has_two_siblings() {
    let mut tree = MerkleTree::new();
    tree.insert_leaf(0, b"hello".to_vec()).unwrap();
    tree.insert_leaf(1, b"world".to_vec()).unwrap();
    tree.insert_leaf(2, b"hello world".to_vec()).unwrap();
    let proof = tree.get_proof(0).unwrap();
    assert_eq!(proof.siblings.len(), 2);
    assert_eq!(proof.index, 0);
    assert_eq!(proof.value, b"hello".to_vec());
    assert!(!proof.empty);
    assert!(tree.verify(&proof));
}

#[test]
fn scenario_gap_insert_is_rejected() {
    let mut tree = MerkleTree::new();
    let r = tree.insert_leaf(5, b"x".to_vec());
    assert_eq!(r, Err(TreeError::IndexOutOfRange));
    assert!(tree.get_proof(0).is_none());
}

#[test]
fn scenario_out_of_range_proof_is_absent() {
    let mut tree = MerkleTree::new();
    tree.insert_leaf(0, b"hello".to_vec()).unwrap();
    tree.insert_leaf(1, b"world".to_vec()).unwrap();
    tree.insert_leaf(2, b"hello world".to_vec()).unwrap();
    assert!(tree.get_proof(10).is_none());
    assert!(tree.get_proof(3).is_none());
}

#[test]
fn scenario_update_changes_root_elsewhere() {
    let mut tree = MerkleTree::new();
    tree.insert_leaf(0, b"hello".to_vec()).unwrap();
    tree.insert_leaf(1, b"world".to_vec()).unwrap();
    tree.insert_leaf(2, b"hello world".to_vec()).unwrap();
    let p0_before = tree.get_proof(0).unwrap();
    let p2_before = tree.get_proof(2).unwrap();

    tree.insert_leaf(1, b"mars".to_vec()).unwrap();

    let p0_after = tree.get_proof(0).unwrap();
    let p2_after = tree.get_proof(2).unwrap();
    assert_ne!(p0_before.root, p0_after.root);
    assert_ne!(p2_before.root, p2_after.root);
    assert_eq!(p2_before.value, p2_after.value);
    assert_eq!(p2_before.siblings[0], p2_after.siblings[0]);
    assert!(tree.verify(&p0_after));
    assert!(tree.verify(&p2_after));
}

#[test]
fn update_with_same_value_keeps_root() {
    let mut tree = MerkleTree::new();
    tree.insert_leaf(0, b"hello".to_vec()).unwrap();
    tree.insert_leaf(1, b"world".to_vec()).unwrap();
    let before = tree.get_proof(0).unwrap();
    tree.insert_leaf(1, b"world".to_vec()).unwrap();
    let after = tree.get_proof(0).unwrap();
    assert_eq!(before, after);
    assert!(tree.verify(&after));
}

#[test]
fn proofs_stay_fresh_after_growth() {
    let mut tree = MerkleTree::new();
    let words: [&[u8]; 5] = [b"a", b"b", b"c", b"d", b"e"];
    let heights: [usize; 5] = [0, 1, 2, 2, 3];
    for (i, w) in words.iter().enumerate() {
        tree.insert_leaf(i, w.to_vec()).unwrap();
        let p = tree.get_proof(i).unwrap();
        assert_eq!(p.siblings.len(), heights[i]);
        assert!(tree.verify(&p));
    }
    let p0 = tree.get_proof(0).unwrap();
    assert_eq!(p0.siblings.len(), 3);
    assert!(tree.verify(&p0));
}

#[test]
fn single_leaf_proof_has_no_siblings() {
    let mut tree = MerkleTree::new();
    tree.insert_leaf(0, b"solo".to_vec()).unwrap();
    let p = tree.get_proof(0).unwrap();
    assert_eq!(p.siblings.len(), 0);
    let leaf_hash = poseidon_merkle::hash::absorb(b"solo");
    assert_eq!(p.root, leaf_hash.to_bytes());
    assert!(tree.verify(&p));
}

#[test]
fn tampered_value_fails_verification() {
    let mut tree = MerkleTree::new();
    tree.insert_leaf(0, b"hello".to_vec()).unwrap();
    tree.insert_leaf(1, b"world".to_vec()).unwrap();
    tree.insert_leaf(2, b"hello world".to_vec()).unwrap();
    let mut p = tree.get_proof(0).unwrap();
    p.value[0] ^= 1;
    assert!(!tree.verify(&p));
}

#[test]
fn tampered_sibling_fails_verification() {
    let mut tree = MerkleTree::new();
    tree.insert_leaf(0, b"hello".to_vec()).unwrap();
    tree.insert_leaf(1, b"world".to_vec()).unwrap();
    tree.insert_leaf(2, b"hello world".to_vec()).unwrap();
    for d in 0..2 {
        let mut p = tree.get_proof(0).unwrap();
        let last = p.siblings[d].len() - 1;
        p.siblings[d][last] ^= 1;
        assert!(!tree.verify(&p));
    }
}

#[test]
fn tampered_root_fails_verification() {
    let mut tree = MerkleTree::new();
    tree.insert_leaf(0, b"hello".to_vec()).unwrap();
    tree.insert_leaf(1, b"world".to_vec()).unwrap();
    let mut p = tree.get_proof(0).unwrap();
    let last = p.root.len() - 1;
    p.root[last] ^= 1;
    assert!(!tree.verify(&p));
}

#[test]
fn tampered_index_fails_verification() {
    let mut tree = MerkleTree::new();
    tree.insert_leaf(0, b"hello".to_vec()).unwrap();
    tree.insert_leaf(1, b"world".to_vec()).unwrap();
    tree.insert_leaf(2, b"hello world".to_vec()).unwrap();
    let mut p = tree.get_proof(0).unwrap();
    p.index = 1;
    assert!(!tree.verify(&p));
}

#[test]
fn verification_is_independent_of_the_tree() {
    let mut tree = MerkleTree::new();
    tree.insert_leaf(0, b"hello".to_vec()).unwrap();
    tree.insert_leaf(1, b"world".to_vec()).unwrap();
    let p = tree.get_proof(1).unwrap();
    let other = MerkleTree::new();
    assert!(other.verify(&p));
}

#[test]
fn gen_poseidon_hash_matches_absorb() {
    let through_result = gen_poseidon_hash(b"hello").unwrap();
    let direct = poseidon_merkle::hash::absorb(b"hello");
    assert!(through_result.equals(&direct));
}
