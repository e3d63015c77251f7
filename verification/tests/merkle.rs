use clob_core::errors::CoreError;
use clob_core::hash::keccak256;
use clob_core::merkle::{
    apply_proof, get_bit, leaf_hash, leaf_hash_absent, node_hash, verify_proof,
    verify_proof_debug, Proof, SparseMerkleTree,
};
use clob_core::outputs::merkle_root;

#[test]
fn merkle_roundtrip() {
    let mut tree = SparseMerkleTree::new();
    let key = keccak256(b"key-1");
    let value = b"hello".to_vec();
    tree.update(key, Some(value.clone()));

    let root = tree.root();
    let proof = tree.prove(key);
    verify_proof(&root, &proof).expect("verify proof");
    assert_eq!(proof.value, value);

    let new_value = b"world".to_vec();
    let new_root = apply_proof(&root, &proof, Some(new_value)).expect("apply proof");
    assert_ne!(root, new_root);
}

#[test]
fn proof_fails_on_wrong_root() {
    let mut tree = SparseMerkleTree::new();
    let key = keccak256(b"key-wrong-root");
    let value = b"value".to_vec();
    tree.update(key, Some(value));

    let root = tree.root();
    let proof = tree.prove(key);
    verify_proof(&root, &proof).expect("verify proof");

    let wrong_root = keccak256(b"not-the-root");
    let err = verify_proof(&wrong_root, &proof).expect_err("expected root mismatch");
    match err {
        clob_core::errors::CoreError::State(_) => {}
        _ => panic!("unexpected error type"),
    }
}

#[test]
fn merkle_two_keys() {
    let mut tree = SparseMerkleTree::new();
    let key1 = keccak256(b"key-a");
    let key2 = keccak256(b"key-b");
    tree.update(key1, Some(b"value-a".to_vec()));
    tree.update(key2, Some(b"value-b".to_vec()));

    let root = tree.root();
    let proof1 = tree.prove(key1);
    let proof2 = tree.prove(key2);

    verify_proof(&root, &proof1).expect("verify proof1");
    verify_proof(&root, &proof2).expect("verify proof2");
}

#[test]
fn leaf_hash_empty_is_keyed() {
    let key = keccak256(b"key-2");
    let empty_value = leaf_hash(&key, &[]);
    let absent = leaf_hash_absent();
    assert_ne!(empty_value, absent);
}

fn hex32(s: &str) -> [u8; 32] {
    let mut out = [0u8; 32];
    for i in 0..32 {
        out[i] = u8::from_str_radix(&s[2 * i..2 * i + 2], 16).unwrap();
    }
    out
}

#[test]
fn keccak_known_answers() {
    assert_eq!(
        keccak256(b""),
        hex32("c5d2460186f7233c927e7db2dcc703c0e500b653ca82273b7bfad8045d85a470")
    );
    assert_eq!(
        keccak256(b"abc"),
        hex32("4e03657aea45a94fc7d47ba826c8d667c0d1e6e33a64a036ec44f58fa12d6c45")
    );
}

#[test]
fn leaf_and_node_hash_follow_their_preimages() {
    let key = [7u8; 32];
    let value = b"v".to_vec();
    let mut leaf_pre = vec![0u8];
    leaf_pre.extend_from_slice(&key);
    leaf_pre.extend_from_slice(&keccak256(&value));
    assert_eq!(leaf_hash(&key, &value), keccak256(&leaf_pre));

    let left = [1u8; 32];
    let right = [2u8; 32];
    let mut node_pre = vec![1u8];
    node_pre.extend_from_slice(&left);
    node_pre.extend_from_slice(&right);
    assert_eq!(node_hash(&left, &right), keccak256(&node_pre));
    assert_ne!(node_hash(&left, &right), node_hash(&right, &left));
    assert_eq!(leaf_hash_absent(), [0u8; 32]);
}

#[test]
fn get_bit_reads_high_bit_first() {
    let mut key = [0u8; 32];
    key[0] = 0b1000_0000;
    key[1] = 0b0000_0001;
    key[31] = 0b0000_0010;
    assert_eq!(get_bit(&key, 0), 1);
    assert_eq!(get_bit(&key, 1), 0);
    assert_eq!(get_bit(&key, 7), 0);
    assert_eq!(get_bit(&key, 15), 1);
    assert_eq!(get_bit(&key, 254), 1);
    assert_eq!(get_bit(&key, 255), 0);
}

#[test]
fn empty_tree_root_is_the_fold_of_zero_leaves() {
    let tree = SparseMerkleTree::new();
    let mut hash = [0u8; 32];
    for _ in 0..256 {
        hash = node_hash(&hash, &hash);
    }
    assert_eq!(tree.root(), hash);
}

#[test]
fn absent_key_has_a_proof() {
    let mut tree = SparseMerkleTree::new();
    tree.update(keccak256(b"there"), Some(b"x".to_vec()));
    let root = tree.root();
    let missing = keccak256(b"missing");
    let proof = tree.prove(missing);
    assert!(!proof.present);
    assert!(proof.value.is_empty());
    assert_eq!(proof.siblings.len(), 256);
    assert_eq!(proof.key, missing);
    verify_proof(&root, &proof).expect("absence verifies");
    assert_eq!(tree.get(missing), None);
}

#[test]
fn apply_proof_gives_the_root_of_the_updated_tree() {
    let mut tree = SparseMerkleTree::new();
    let key_a = keccak256(b"a");
    let key_b = keccak256(b"b");
    tree.update(key_a, Some(b"1".to_vec()));
    let root = tree.root();

    // absent -> present
    let proof_b = tree.prove(key_b);
    let next = apply_proof(&root, &proof_b, Some(b"2".to_vec())).expect("insert");
    tree.update(key_b, Some(b"2".to_vec()));
    assert_eq!(next, tree.root());

    // present -> other value
    let proof_a = tree.prove(key_a);
    let next = apply_proof(&tree.root(), &proof_a, Some(b"3".to_vec())).expect("update");
    tree.update(key_a, Some(b"3".to_vec()));
    assert_eq!(next, tree.root());
    assert_eq!(tree.get(key_a), Some(b"3".to_vec()));

    // present -> absent
    let proof_a = tree.prove(key_a);
    let next = apply_proof(&tree.root(), &proof_a, None).expect("remove");
    tree.update(key_a, None);
    assert_eq!(next, tree.root());
    assert_eq!(tree.get(key_a), None);

    // absent -> absent
    let proof_a = tree.prove(key_a);
    let same = apply_proof(&tree.root(), &proof_a, None).expect("stay absent");
    assert_eq!(same, tree.root());
}

#[test]
fn removing_every_key_gives_the_empty_root() {
    let empty = SparseMerkleTree::new().root();
    let mut tree = SparseMerkleTree::new();
    let key = keccak256(b"k");
    tree.update(key, Some(b"v".to_vec()));
    assert_ne!(tree.root(), empty);
    tree.update(key, None);
    assert_eq!(tree.root(), empty);
}

#[test]
fn neighbouring_keys_have_distinct_proofs() {
    let mut tree = SparseMerkleTree::new();
    let mut key_a = [0u8; 32];
    let mut key_b = [0u8; 32];
    key_a[31] = 0;
    key_b[31] = 1;
    tree.update(key_a, Some(b"a".to_vec()));
    tree.update(key_b, Some(b"b".to_vec()));
    let root = tree.root();
    let proof_a = tree.prove(key_a);
    let proof_b = tree.prove(key_b);
    verify_proof(&root, &proof_a).expect("a");
    verify_proof(&root, &proof_b).expect("b");
    assert_eq!(proof_a.siblings[255], leaf_hash(&key_b, b"b"));
    assert_eq!(proof_b.siblings[255], leaf_hash(&key_a, b"a"));
}

#[test]
fn malformed_proofs_are_invalid() {
    let mut tree = SparseMerkleTree::new();
    let key = keccak256(b"k");
    tree.update(key, Some(b"v".to_vec()));
    let root = tree.root();
    let good = tree.prove(key);

    let short = Proof::new(key, good.value.clone(), true, good.siblings[..255].to_vec());
    assert!(matches!(verify_proof(&root, &short), Err(CoreError::Invalid(_))));
    assert!(matches!(apply_proof(&root, &short, None), Err(CoreError::Invalid(_))));

    let absent_with_value = Proof::new(key, b"v".to_vec(), false, good.siblings.clone());
    assert!(matches!(verify_proof(&root, &absent_with_value), Err(CoreError::Invalid(_))));

    let wrong_value = Proof::new(key, b"w".to_vec(), true, good.siblings.clone());
    assert!(matches!(verify_proof(&root, &wrong_value), Err(CoreError::State(_))));
    assert!(matches!(apply_proof(&root, &wrong_value, None), Err(CoreError::State(_))));
}

#[test]
fn debug_check_agrees_with_the_plain_one() {
    let mut tree = SparseMerkleTree::new();
    let key = keccak256(b"k");
    tree.update(key, Some(b"v".to_vec()));
    let root = tree.root();
    let proof = tree.prove(key);
    let info = verify_proof_debug(&root, &proof).expect("debug");
    assert_eq!(info.computed_root, root);
    assert_eq!(info.leaf_hash, leaf_hash(&key, b"v"));
    assert_eq!(info.first_mismatch_depth, None);
    let wrong = keccak256(b"other");
    assert!(matches!(verify_proof_debug(&wrong, &proof), Err(CoreError::State(_))));
}

#[test]
fn output_root_pairs_from_the_left() {
    let a = keccak256(b"a");
    let b = keccak256(b"b");
    let c = keccak256(b"c");
    assert_eq!(merkle_root(&[]), [0u8; 32]);
    assert_eq!(merkle_root(&[a]), a);
    assert_eq!(merkle_root(&[a, b]), node_hash(&a, &b));
    let left = node_hash(&a, &b);
    let right = node_hash(&c, &c);
    assert_eq!(merkle_root(&[a, b, c]), node_hash(&left, &right));
    assert_ne!(merkle_root(&[a, b]), merkle_root(&[b, a]));
}
