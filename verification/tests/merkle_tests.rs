use merkle_tree::crypto::{hash_combined, hash_value};
use merkle_tree::merkle::{verify_proof, ConstructionError, MerkleNode, MerkleTree};

#[test]
fn test_from_even_merkle_tree() {
    let data = vec![vec![1u8], vec![2], vec![3], vec![4]];
    let tree = MerkleTree::new(&data).expect("non-empty input");

    let left_combined = hash_combined(&hash_value(&[1]), &hash_value(&[2]));
    let right_combined = hash_combined(&hash_value(&[3]), &hash_value(&[4]));
    assert_eq!(hash_combined(&left_combined, &right_combined), tree.root_hash())
}

#[test]
fn test_from_odd_two_level_merkle_tree() {
    let data = vec![vec![1u8], vec![2], vec![3], vec![4], vec![5]];
    let tree = MerkleTree::new(&data).expect("non-empty input");

    let left_combined = hash_combined(&hash_value(&[1]), &hash_value(&[2]));
    let middle_combined = hash_combined(&hash_value(&[3]), &hash_value(&[4]));
    let right_combined = hash_combined(&hash_value(&[5]), &hash_value(&[5]));

    let level_2_left = hash_combined(&left_combined, &middle_combined);
    let level_2_right = hash_combined(&right_combined, &right_combined);
    assert_eq!(hash_combined(&level_2_left, &level_2_right), tree.root_hash())
}

#[test]
fn test_generate_proof_correctly() {
    let data = vec![vec![1u8], vec![2], vec![3], vec![4], vec![5]];
    let tree = MerkleTree::new(&data).expect("non-empty input");

    let left_combined = hash_combined(&hash_value(&[1]), &hash_value(&[2]));
    let middle_combined = hash_combined(&hash_value(&[3]), &hash_value(&[4]));
    let right_combined = hash_combined(&hash_value(&[5]), &hash_value(&[5]));

    let _level_2_left = hash_combined(&left_combined, &middle_combined);
    let level_2_right = hash_combined(&right_combined, &right_combined);

    //proof that the value 3 is at index 2
    let proof = tree.inclusion_proof(2, &[3]);
    assert_eq!(
        proof.expect("Proof is None"),
        vec![hash_value(&[4]), left_combined, level_2_right]
    )
}

#[test]
fn test_verify_proof_correctly() {
    let data = vec![vec![1u8], vec![2], vec![3], vec![4], vec![5]];
    let tree = MerkleTree::new(&data).expect("non-empty input");
    let proof = tree.inclusion_proof(2, &[3]);
    assert!(verify_proof(2, &[3], proof.expect("Proof is None"), tree.root_hash()));
}

#[test]
fn test_verify_incorrect_proof_returns_false() {
    let data = vec![vec![1u8], vec![2], vec![3], vec![4], vec![5]];
    let tree = MerkleTree::new(&data).expect("non-empty input");
    let proof = tree.inclusion_proof(2, &[3]);
    assert_eq!(
        verify_proof(3, &[2], proof.expect("Proof is None"), tree.root_hash()),
        false
    );
}

#[test]
fn test_from_even_merkle_tree_strings() {
    let data = vec![
        "hola".as_bytes().to_vec(),
        "como".as_bytes().to_vec(),
        "estas".as_bytes().to_vec(),
        "bro".as_bytes().to_vec(),
    ];
    let tree = MerkleTree::new(&data).expect("non-empty input");

    let left_combined = hash_combined(&hash_value("hola".as_bytes()), &hash_value("como".as_bytes()));
    let right_combined = hash_combined(&hash_value("estas".as_bytes()), &hash_value("bro".as_bytes()));
    assert_eq!(hash_combined(&left_combined, &right_combined), tree.root_hash())
}

#[test]
fn test_from_odd_two_level_merkle_tree_strings() {
    let data = vec![
        "hola".as_bytes().to_vec(),
        "como".as_bytes().to_vec(),
        "estas".as_bytes().to_vec(),
        "bro".as_bytes().to_vec(),
        "pana".as_bytes().to_vec(),
    ];
    let tree = MerkleTree::new(&data).expect("non-empty input");

    let left_combined = hash_combined(&hash_value("hola".as_bytes()), &hash_value("como".as_bytes()));
    let middle_combined = hash_combined(&hash_value("estas".as_bytes()), &hash_value("bro".as_bytes()));
    let right_combined = hash_combined(&hash_value("pana".as_bytes()), &hash_value("pana".as_bytes()));

    let level_2_left = hash_combined(&left_combined, &middle_combined);
    let level_2_right = hash_combined(&right_combined, &right_combined);
    assert_eq!(hash_combined(&level_2_left, &level_2_right), tree.root_hash())
}

#[test]
fn test_generate_proof_correctly_strings() {
    let data = vec![
        "hola".as_bytes().to_vec(),
        "como".as_bytes().to_vec(),
        "estas".as_bytes().to_vec(),
        "bro".as_bytes().to_vec(),
        "pana".as_bytes().to_vec(),
    ];
    let tree = MerkleTree::new(&data).expect("non-empty input");

    let left_combined = hash_combined(&hash_value("hola".as_bytes()), &hash_value("como".as_bytes()));
    let middle_combined = hash_combined(&hash_value("estas".as_bytes()), &hash_value("bro".as_bytes()));
    let right_combined = hash_combined(&hash_value("pana".as_bytes()), &hash_value("pana".as_bytes()));

    let _level_2_left = hash_combined(&left_combined, &middle_combined);
    let level_2_right = hash_combined(&right_combined, &right_combined);

    //proof that the value 3 is at index 2
    let proof = tree.inclusion_proof(2, "estas".as_bytes());
    assert_eq!(
        proof.expect("Proof is None"),
        vec![hash_value("bro".as_bytes()), left_combined, level_2_right]
    )
}

#[test]
fn test_verify_proof_correctly_strings() {
    let data = vec![
        "hola".as_bytes().to_vec(),
        "como".as_bytes().to_vec(),
        "estas".as_bytes().to_vec(),
        "bro".as_bytes().to_vec(),
        "pana".as_bytes().to_vec(),
    ];
    let tree = MerkleTree::new(&data).expect("non-empty input");

    let proof = tree.inclusion_proof(2, "estas".as_bytes());
    assert!(verify_proof(
        2,
        "estas".as_bytes(),
        proof.expect("Proof is None"),
        tree.root_hash()
    ));
}

#[test]
fn test_verify_incorrect_proof_returns_false_strings() {
    let data = vec![
        "hola".as_bytes().to_vec(),
        "como".as_bytes().to_vec(),
        "estas".as_bytes().to_vec(),
        "bro".as_bytes().to_vec(),
        "pana".as_bytes().to_vec(),
    ];
    let tree = MerkleTree::new(&data).expect("non-empty input");

    let proof = tree.inclusion_proof(2, "estas".as_bytes());
    assert_eq!(
        verify_proof(
            3,
            "estabas".as_bytes(),
            proof.expect("Proof is None"),
            tree.root_hash()
        ),
        false
    );
}

#[test]
fn test_same_data_same_root() {
    let data = vec![vec![1u8], vec![2], vec![3], vec![4], vec![5]];
    let tree_a = MerkleTree::new(&data).expect("non-empty input");
    let tree_b = MerkleTree::new(&data).expect("non-empty input");
    assert_eq!(tree_a.root_hash(), tree_b.root_hash());
}

#[test]
fn test_empty_input_is_refused() {
    let data: Vec<Vec<u8>> = vec![];
    let result = MerkleTree::new(&data);
    assert_eq!(result.unwrap_err(), ConstructionError::EmptyInput);
}

#[test]
fn test_wrong_value_yields_no_proof() {
    let data = vec![vec![1u8], vec![2], vec![3], vec![4], vec![5]];
    let tree = MerkleTree::new(&data).expect("non-empty input");
    assert!(tree.inclusion_proof(2, &[9]).is_none());
    assert!(tree.inclusion_proof(0, &[2]).is_none());
}

#[test]
fn test_out_of_bounds_index_yields_no_proof() {
    let data = vec![vec![1u8], vec![2], vec![3], vec![4], vec![5]];
    let tree = MerkleTree::new(&data).expect("non-empty input");
    assert!(tree.inclusion_proof(5, &[1]).is_none());
    assert!(tree.inclusion_proof(1000, &[1]).is_none());
}

#[test]
fn test_tampered_value_fails_verification() {
    let data = vec![vec![1u8], vec![2], vec![3], vec![4], vec![5]];
    let tree = MerkleTree::new(&data).expect("non-empty input");
    let proof = tree.inclusion_proof(2, &[3]).expect("Proof is None");
    assert!(!verify_proof(2, &[7], proof, tree.root_hash()));
}

#[test]
fn test_tampered_proof_fails_verification() {
    let data = vec![vec![1u8], vec![2], vec![3], vec![4], vec![5]];
    let tree = MerkleTree::new(&data).expect("non-empty input");
    let proof = tree.inclusion_proof(2, &[3]).expect("Proof is None");
    for position in 0..proof.len() {
        for byte in 0..proof[position].len() {
            let mut tampered = proof.clone();
            tampered[position][byte] ^= 0x01;
            assert!(!verify_proof(2, &[3], tampered, tree.root_hash()));
        }
    }
}

#[test]
fn test_tampered_root_fails_verification() {
    let data = vec![vec![1u8], vec![2], vec![3], vec![4], vec![5]];
    let tree = MerkleTree::new(&data).expect("non-empty input");
    let proof = tree.inclusion_proof(2, &[3]).expect("Proof is None");
    for byte in 0..tree.root_hash().len() {
        let mut tampered_root = tree.root_hash();
        tampered_root[byte] ^= 0x01;
        assert!(!verify_proof(2, &[3], proof.clone(), tampered_root));
    }
}

#[test]
fn test_single_block_tree() {
    let data = vec![vec![42u8]];
    let tree = MerkleTree::new(&data).expect("non-empty input");
    assert_eq!(tree.root_hash(), hash_value(&[42]));
    assert_eq!(tree.get_tree_height(), 0);
    let proof = tree.inclusion_proof(0, &[42]).expect("Proof is None");
    assert!(proof.is_empty());
    assert!(verify_proof(0, &[42], proof, tree.root_hash()));
}

#[test]
fn test_tree_heights() {
    let blocks: Vec<Vec<u8>> = (1u8..=9).map(|b| vec![b]).collect();
    let expected_heights = [0usize, 1, 2, 2, 3, 3, 3, 3, 4];
    for n in 1..=blocks.len() {
        let tree = MerkleTree::new(&blocks[..n]).expect("non-empty input");
        assert_eq!(tree.get_tree_height(), expected_heights[n - 1]);
    }
}

#[test]
fn test_root_node_navigation() {
    let data = vec![vec![1u8], vec![2], vec![3], vec![4]];
    let tree = MerkleTree::new(&data).expect("non-empty input");
    let root = tree.get_root_node();
    assert_eq!(root.get_hash(), tree.root_hash());

    let left_combined = hash_combined(&hash_value(&[1]), &hash_value(&[2]));
    let right_combined = hash_combined(&hash_value(&[3]), &hash_value(&[4]));
    let left_child = root.left().expect("internal node");
    let right_child = root.right().expect("internal node");
    assert_eq!(left_child.get_hash(), left_combined);
    assert_eq!(right_child.get_hash(), right_combined);

    let leaf = left_child.left().expect("internal node");
    assert_eq!(leaf.get_hash(), hash_value(&[1]));
    assert!(leaf.left().is_none());
    assert!(leaf.right().is_none());
}

#[test]
fn test_round_trip_all_indices() {
    let data: Vec<Vec<u8>> = vec![vec![10u8], vec![20], vec![30]];
    let tree = MerkleTree::new(&data).expect("non-empty input");
    for i in 0..data.len() {
        let proof = tree.inclusion_proof(i, &data[i]).expect("Proof is None");
        assert_eq!(proof.len(), tree.get_tree_height());
        assert!(verify_proof(i, &data[i], proof, tree.root_hash()));
    }
}

#[test]
fn test_node_construction() {
    let leaf_a = MerkleNode::new_leaf(&[1]);
    let leaf_b = MerkleNode::new_leaf(&[2]);
    assert_eq!(leaf_a.get_hash(), hash_value(&[1]));
    assert_eq!(leaf_b.get_hash(), hash_value(&[2]));
    let parent = MerkleNode::combine(leaf_a, leaf_b);
    assert_eq!(parent.get_hash(), hash_combined(&hash_value(&[1]), &hash_value(&[2])));

    let root = MerkleNode::root_node_from(&[vec![1u8], vec![2]]);
    assert_eq!(root.get_hash(), parent.get_hash());
    let copy = root.clone();
    assert_eq!(copy.get_hash(), root.get_hash());
}

#[test]
fn test_hash_primitives() {
    let digest = hash_value(&[1]);
    assert_eq!(digest.len(), 32);
    assert_ne!(digest, vec![1u8]);

    let a = hash_value(&[1]);
    let b = hash_value(&[2]);
    assert_eq!(hash_combined(&a, &b).len(), 32);
    assert_ne!(hash_combined(&a, &b), hash_combined(&b, &a));
    assert_ne!(hash_combined(&a, &b), a);
    assert_ne!(hash_combined(&a, &b), b);
}
