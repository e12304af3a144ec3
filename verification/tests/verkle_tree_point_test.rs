use verkle_tree::verkle_tree_point::{Commitment, Proof, ProofNode, VerkleTree, VerkleTreeError};
use verkle_tree::VerkleTree_point;

// A stand-in vector commitment: the commitment is the vector itself, each
// value behind its length, and so is the proof of every opening.
fn pack(values: &Vec<Vec<u8>>) -> Vec<u8> {
    let mut bytes = Vec::new();
    for value in values {
        bytes.extend_from_slice(&(value.len() as u32).to_le_bytes());
        bytes.extend_from_slice(value);
    }
    bytes
}

fn unpack(bytes: &[u8]) -> Vec<Vec<u8>> {
    let mut values = Vec::new();
    let mut at = 0;
    while at + 4 <= bytes.len() {
        let len = u32::from_le_bytes([bytes[at], bytes[at + 1], bytes[at + 2], bytes[at + 3]]) as usize;
        values.push(bytes[at + 4..at + 4 + len].to_vec());
        at += 4 + len;
    }
    values
}

fn commit(values: &Vec<Vec<u8>>) -> Option<Commitment> {
    Some(Commitment { bytes: pack(values) })
}

fn open(commitment: &Commitment, values: &Vec<Vec<u8>>, positions: &Vec<usize>) -> Option<Proof> {
    if pack(values) != commitment.bytes || positions.iter().any(|p| *p >= values.len()) {
        return None;
    }
    Some(Proof { bytes: pack(values) })
}

fn check(opening: &ProofNode) -> bool {
    if opening.proof.bytes != opening.commitment.bytes {
        return false;
    }
    let vector = unpack(&opening.proof.bytes);
    opening.indices.len() == opening.values.len()
        && opening
            .indices
            .iter()
            .zip(opening.values.iter())
            .all(|(i, v)| *i < vector.len() && vector[*i] == *v)
}

fn leaves(count: u8) -> Vec<Vec<u8>> {
    (1..=count).map(|v| vec![v]).collect()
}

fn picked(datas: &[Vec<u8>], indices: &[usize]) -> Vec<Vec<u8>> {
    indices.iter().map(|i| datas[*i].clone()).collect()
}

fn build() -> (VerkleTree, Vec<Vec<u8>>, usize, usize) {
    let datas = leaves(16);
    (VerkleTree::new(&datas, 4, commit).unwrap(), datas, 4, 2)
}

#[test]
fn point_tree_is_built_layer_by_layer() {
    let (tree, datas, _, _) = build();
    assert_eq!(tree.depth(), 2);
    assert_eq!(tree.layer_len(0), 1);
    assert_eq!(tree.layer_len(1), 4);
    assert!(tree.is_inner(0, 0));
    for group in 0..4 {
        assert!(!tree.is_inner(1, group));
    }
    let groups: Vec<Vec<u8>> = datas.chunks(4).map(|c| pack(&c.to_vec())).collect();
    assert_eq!(tree.root_commitment().unwrap().bytes, pack(&groups));
}

#[test]
fn point_build_rejects_what_does_not_fit() {
    assert!(matches!(VerkleTree::new(&Vec::new(), 4, commit), Err(VerkleTreeError::BuildError)));
    assert!(matches!(VerkleTree::new(&leaves(8), 4, commit), Err(VerkleTreeError::BuildError)));
    assert!(matches!(VerkleTree::new(&leaves(1), 1, commit), Err(VerkleTreeError::BuildError)));
    let refuse = |_: &Vec<Vec<u8>>| -> Option<Commitment> { None };
    assert!(matches!(VerkleTree::new(&leaves(16), 4, refuse), Err(VerkleTreeError::BuildError)));
}

#[test]
fn point_single_leaf() {
    let (tree, datas, width, depth) = build();
    let root = tree.root_commitment().unwrap();
    let proof = tree.prove(vec![5], &datas, open).unwrap();
    assert_eq!(datas[5], vec![6]);
    assert!(VerkleTree::verify(root.clone(), proof.clone(), width, vec![5], depth, vec![vec![6]], check));
    assert!(!VerkleTree::verify(root, proof, width, vec![5], depth, vec![vec![7]], check));
}

#[test]
fn point_full_row() {
    let (tree, datas, width, depth) = build();
    let root = tree.root_commitment().unwrap();
    let indices = vec![0, 1, 2, 3];
    let proof = tree.prove(indices.clone(), &datas, open).unwrap();
    let shape: Vec<bool> = proof.iter().map(|entry| entry.is_some()).collect();
    assert_eq!(shape, vec![true, true, false, false, false]);
    let at_root = proof[0].as_ref().unwrap();
    assert_eq!(at_root.commitment, root);
    assert_eq!(at_root.indices, vec![0]);
    assert_eq!(at_root.values, vec![proof[1].as_ref().unwrap().commitment.bytes.clone()]);
    let at_group = proof[1].as_ref().unwrap();
    assert_eq!(at_group.indices, vec![0, 1, 2, 3]);
    assert_eq!(at_group.values, picked(&datas, &indices));
    assert!(VerkleTree::verify(root, proof, width, indices.clone(), depth, picked(&datas, &indices), check));
}

#[test]
fn point_sparse_across_subtrees() {
    let (tree, datas, width, depth) = build();
    let root = tree.root_commitment().unwrap();
    let indices = vec![0, 5, 10, 15];
    let proof = tree.prove(indices.clone(), &datas, open).unwrap();
    assert!(proof.iter().all(|entry| entry.is_some()));
    assert_eq!(proof[0].as_ref().unwrap().indices, vec![0, 1, 2, 3]);
    for (group, entry) in proof[1..].iter().enumerate() {
        assert_eq!(entry.as_ref().unwrap().indices, vec![group]);
        assert_eq!(entry.as_ref().unwrap().values, vec![datas[5 * group].clone()]);
    }
    let claimed = picked(&datas, &indices);
    assert!(VerkleTree::verify(root.clone(), proof.clone(), width, indices.clone(), depth, claimed.clone(), check));
    let mut zeroed = claimed;
    zeroed[2] = vec![0];
    assert!(!VerkleTree::verify(root, proof, width, indices, depth, zeroed, check));
}

#[test]
fn point_repeated_index() {
    let (tree, datas, width, depth) = build();
    let root = tree.root_commitment().unwrap();
    let proof = tree.prove(vec![3, 3], &datas, open).unwrap();
    assert_eq!(proof, tree.prove(vec![3], &datas, open).unwrap());
    assert!(VerkleTree::verify(root, proof, width, vec![3], depth, vec![datas[3].clone()], check));
}

#[test]
fn point_tampered_link() {
    let (tree, datas, width, depth) = build();
    let root = tree.root_commitment().unwrap();
    let indices = vec![0, 5, 10, 15];
    let mut proof = tree.prove(indices.clone(), &datas, open).unwrap();
    let at_root = proof[0].as_mut().unwrap();
    at_root.values[2] = at_root.values[1].clone();
    assert!(!VerkleTree::verify(root, proof, width, indices.clone(), depth, picked(&datas, &indices), check));
}

#[test]
fn point_depth_one_tree() {
    let datas = leaves(3);
    let tree = VerkleTree_point::new(&datas, 3, commit).unwrap();
    assert_eq!(tree.depth(), 1);
    assert!(!tree.is_inner(0, 0));
    let root = tree.root_commitment().unwrap();
    assert_eq!(root.bytes, pack(&datas));
    let proof = tree.prove(vec![0, 2], &datas, open).unwrap();
    assert_eq!(proof.len(), 1);
    assert!(VerkleTree::verify(root, proof, 3, vec![0, 2], 1, vec![vec![1], vec![3]], check));
}

#[test]
fn point_wrong_root_and_wrong_size() {
    let (tree, datas, width, depth) = build();
    let root = tree.root_commitment().unwrap();
    let proof = tree.prove(vec![5], &datas, open).unwrap();
    let other = Commitment { bytes: vec![1, 2, 3] };
    assert!(!VerkleTree::verify(other, proof.clone(), width, vec![5], depth, vec![vec![6]], check));
    assert!(!VerkleTree::verify(root.clone(), proof.clone(), width, vec![5, 10], depth, vec![vec![6], vec![11]], check));
    assert!(!VerkleTree::verify(root.clone(), proof.clone(), width, vec![16], depth, vec![vec![6]], check));
    assert!(!VerkleTree::verify(root.clone(), proof.clone(), width, vec![5], 3, vec![vec![6]], check));
    assert!(!VerkleTree::verify(root.clone(), Vec::new(), width, vec![5], depth, vec![vec![6]], check));
    assert!(!VerkleTree::verify(root.clone(), proof.clone(), width, vec![5], depth, vec![vec![6]], |_: &ProofNode| false));
    let kept: Vec<Option<ProofNode>> = proof.into_iter().filter(|entry| entry.is_some()).collect();
    assert!(VerkleTree::verify(root, kept, width, vec![5], depth, vec![vec![6]], check));
}

#[test]
fn point_prove_fails_where_it_must() {
    let (tree, datas, _, _) = build();
    assert_eq!(tree.prove(vec![16], &datas, open).unwrap_err(), VerkleTreeError::ProofGenerateError);
    assert_eq!(tree.prove(vec![1], &leaves(4), open).unwrap_err(), VerkleTreeError::ProofGenerateError);
    let other = leaves(17)[1..].to_vec();
    assert_eq!(tree.prove(vec![1], &other, open).unwrap_err(), VerkleTreeError::ProofGenerateError);
}

#[test]
fn point_commitment_maps_to_its_bytes() {
    let c = Commitment { bytes: vec![9, 8, 7] };
    assert_eq!(VerkleTree::map_commitment_to_vec_u8(&c), vec![9, 8, 7]);
}
