use ark_bls12_381::{Fq, Fr, G1Affine};
use ark_ec::AffineRepr;
use ark_ff::PrimeField;
use num_bigint::BigUint;
use kzg_commitment::KZGCommitment;
use verkle_tree::curve::{map_commitment_to_field, Commitment};
use verkle_tree::field::Scalar;
use verkle_tree::verkle_tree::{ProofNode, VerkleTree, VerkleTreeError};

fn scalars(values: &[u64]) -> Vec<Scalar> {
    values.iter().map(|v| Scalar::from_u64(*v)).collect()
}

fn one_to_sixteen() -> Vec<Scalar> {
    let values: Vec<u64> = (1..=16).collect();
    scalars(&values)
}

fn mixed_leaves() -> Vec<Scalar> {
    let values: Vec<u64> = (0..16u64).map(|i| i * i * i + 11 * i + 3).collect();
    scalars(&values)
}

fn build_verkle_tree() -> (VerkleTree, Vec<Scalar>, usize, usize) {
    let width = 4;
    let datas = mixed_leaves();
    (VerkleTree::new(&datas, width).unwrap(), datas, width, 2)
}

fn picked(datas: &[Scalar], indices: &[usize]) -> Vec<Scalar> {
    indices.iter().map(|i| datas[*i]).collect()
}

fn as_commitment(point: &G1Affine) -> Commitment {
    Commitment::from_limbs(point.x.into_bigint().0, point.y.into_bigint().0, point.infinity)
        .unwrap()
}

#[test]
fn test_build_tree() {
    let (tree, _, _, _) = build_verkle_tree();
    assert!(tree.root_commitment().is_some(), "Failed building verkle tree");
}

#[test]
fn test_generate_proof() {
    let (tree, datas, _, _) = build_verkle_tree();
    for index in 0..datas.len() {
        let proof = tree.prove(vec![index], &datas);
        assert!(proof.is_ok(), "Proof Generation failed");
    }
}

#[test]
fn test_generate_invalid_proof() {
    let (tree, datas, _, _) = build_verkle_tree();
    let mut fake = datas.clone();
    fake[7] = Scalar::from_u64(100);
    let proof = tree.prove(vec![7], &fake);
    assert!(proof.is_err(), "Should not be able to generate a valid proof");
    assert_eq!(proof.unwrap_err(), VerkleTreeError::ProofGenerateError);
}

#[test]
fn test_verify_proof() {
    let (tree, datas, width, depth) = build_verkle_tree();
    let root = tree.root_commitment().unwrap();
    for index in [0usize, 6, 15] {
        let proof = tree.prove(vec![index], &datas).unwrap();
        let verification =
            VerkleTree::verify(root, proof, width, vec![index], depth, vec![datas[index]]);
        assert!(verification, "Given point should generate a valid proof");
    }
}

#[test]
fn test_invalid_proof_verification() {
    let (tree, _, _, _) = build_verkle_tree();
    let other: Vec<u64> = (21..=36).collect();
    let datas = scalars(&other);
    let invalid_tree = VerkleTree::new(&datas, 4).unwrap();
    let proof = invalid_tree.prove(vec![9], &datas).unwrap();
    let root = tree.root_commitment().unwrap();
    let verification = VerkleTree::verify(root, proof, 4, vec![9], 2, vec![datas[9]]);
    assert_eq!(verification, false, "Should not accept invalid proof");
}

#[test]
fn test_batch_proof_verify() {
    let (tree, datas, width, depth) = build_verkle_tree();
    let indices: Vec<usize> = vec![1, 2, 7, 12];
    let proof = tree.prove(indices.clone(), &datas).unwrap();
    let root = tree.root_commitment().unwrap();
    let leaves = picked(&datas, &indices);
    let verification = VerkleTree::verify(root, proof, width, indices, depth, leaves);
    assert!(verification, "Given point should generate a valid proof");
}

#[test]
fn single_leaf_round_trip() {
    let (width, depth) = (4, 2);
    let datas = one_to_sixteen();
    let tree = VerkleTree::new(&datas, width).unwrap();
    let root = tree.root_commitment().unwrap();
    let proof = tree.prove(vec![5], &datas).unwrap();
    assert_eq!(proof.len(), 5);
    assert!(VerkleTree::verify(root, proof.clone(), width, vec![5], depth, vec![datas[5]]));
    assert_eq!(datas[5], Scalar::from_u64(6));
    let wrong = vec![Scalar::from_u64(7)];
    assert!(!VerkleTree::verify(root, proof, width, vec![5], depth, wrong));
}

#[test]
fn every_single_leaf_round_trips() {
    let (tree, datas, width, depth) = build_verkle_tree();
    let root = tree.root_commitment().unwrap();
    for index in 0..datas.len() {
        let proof = tree.prove(vec![index], &datas).unwrap();
        assert!(VerkleTree::verify(root, proof, width, vec![index], depth, vec![datas[index]]));
    }
}

#[test]
fn full_row_opens_one_group_and_the_root() {
    let (tree, datas, width, depth) = build_verkle_tree();
    let root = tree.root_commitment().unwrap();
    let indices = vec![0, 1, 2, 3];
    let proof = tree.prove(indices.clone(), &datas).unwrap();
    let shape: Vec<bool> = proof.iter().map(|entry| entry.is_some()).collect();
    assert_eq!(shape, vec![true, true, false, false, false]);
    let at_root = proof[0].as_ref().unwrap();
    let positions: Vec<usize> = at_root.point.iter().map(|p| p.0).collect();
    assert_eq!(positions, vec![0]);
    let at_group = proof[1].as_ref().unwrap();
    let positions: Vec<usize> = at_group.point.iter().map(|p| p.0).collect();
    assert_eq!(positions, vec![0, 1, 2, 3]);
    let values: Vec<Scalar> = at_group.point.iter().map(|p| p.1).collect();
    assert_eq!(values, picked(&datas, &indices));
    let leaves = picked(&datas, &indices);
    assert!(VerkleTree::verify(root, proof, width, indices, depth, leaves));
}

#[test]
fn sparse_batch_touches_every_group() {
    let (tree, datas, width, depth) = build_verkle_tree();
    let root = tree.root_commitment().unwrap();
    let indices = vec![0, 5, 10, 15];
    let proof = tree.prove(indices.clone(), &datas).unwrap();
    assert!(proof.iter().all(|entry| entry.is_some()));
    let at_root = proof[0].as_ref().unwrap();
    let positions: Vec<usize> = at_root.point.iter().map(|p| p.0).collect();
    assert_eq!(positions, vec![0, 1, 2, 3]);
    for (group, entry) in proof[1..].iter().enumerate() {
        let opening = entry.as_ref().unwrap();
        assert_eq!(opening.point.len(), 1);
        assert_eq!(opening.point[0].0, group);
        assert_eq!(opening.point[0].1, datas[group * 4 + group]);
    }
    let leaves = picked(&datas, &indices);
    assert!(VerkleTree::verify(root, proof.clone(), width, indices.clone(), depth, leaves.clone()));
    let mut zeroed = leaves;
    zeroed[2] = Scalar::from_u64(0);
    assert!(!VerkleTree::verify(root, proof, width, indices, depth, zeroed));
}

#[test]
fn repeated_index_counts_once() {
    let (tree, datas, width, depth) = build_verkle_tree();
    let root = tree.root_commitment().unwrap();
    let proof = tree.prove(vec![3, 3], &datas).unwrap();
    let once = tree.prove(vec![3], &datas).unwrap();
    assert_eq!(proof.len(), once.len());
    for (a, b) in proof.iter().zip(once.iter()) {
        match (a, b) {
            (Some(a), Some(b)) => {
                assert_eq!(a.commitment, b.commitment);
                assert_eq!(a.proof, b.proof);
                assert_eq!(a.point, b.point);
            }
            (None, None) => {}
            _ => panic!("the two opening sets differ in shape"),
        }
    }
    assert!(VerkleTree::verify(root, proof.clone(), width, vec![3], depth, vec![datas[3]]));
    assert!(VerkleTree::verify(root, proof, width, vec![3, 3], depth, vec![datas[3], datas[3]]));
}

#[test]
fn tampered_link_is_rejected() {
    let (tree, datas, width, depth) = build_verkle_tree();
    let root = tree.root_commitment().unwrap();
    let indices = vec![0, 5, 10, 15];
    let mut proof = tree.prove(indices.clone(), &datas).unwrap();
    let leaves = picked(&datas, &indices);
    let at_root: &mut ProofNode = proof[0].as_mut().unwrap();
    assert_eq!(at_root.point[2].0, 2);
    assert_ne!(at_root.point[2].1, at_root.point[1].1);
    at_root.point[2].1 = at_root.point[1].1;
    assert!(!VerkleTree::verify(root, proof, width, indices, depth, leaves));
}

#[test]
fn depth_one_tree() {
    let datas = scalars(&[11, 22, 33]);
    let tree = VerkleTree::new(&datas, 3).unwrap();
    assert_eq!(tree.depth(), 1);
    let root = tree.root_commitment().unwrap();
    let field: Vec<Fr> = [11u64, 22, 33].iter().map(|v| Fr::from(*v)).collect();
    let direct = KZGCommitment::new(3).commit_polynomial(&KZGCommitment::vector_to_polynomial(&field));
    assert_eq!(root, as_commitment(&direct));
    let proof = tree.prove(vec![0, 2], &datas).unwrap();
    assert_eq!(proof.len(), 1);
    assert!(VerkleTree::verify(root, proof, 3, vec![0, 2], 1, vec![datas[0], datas[2]]));
}

#[test]
fn openings_the_backend_cannot_make_are_refused() {
    let datas = one_to_sixteen();
    let tree = VerkleTree::new(&datas, 4).unwrap();
    let whole_group = tree.prove(vec![0, 1, 2, 3], &datas);
    assert_eq!(whole_group.unwrap_err(), VerkleTreeError::ProofGenerateError);
    assert!(tree.prove(vec![0, 1], &datas).is_ok());
    assert!(tree.prove(vec![4, 5, 6], &datas).is_err());
}

#[test]
fn vectors_the_backend_cannot_take_are_refused() {
    assert!(matches!(VerkleTree::new(&scalars(&[3, 1, 5, 7]), 4), Err(VerkleTreeError::BuildError)));
    assert!(VerkleTree::new(&scalars(&[3, 2, 5, 7]), 4).is_ok());
    assert!(VerkleTree::new(&scalars(&[0, 0, 0, 0]), 4).is_ok());
    assert!(VerkleTree::new(&scalars(&[0, 0, 5, 0]), 4).is_ok());
    let kzg = KZGCommitment::new(4);
    assert!(matches!(
        VerkleTree::build_tree(kzg, &scalars(&[3, 1, 5, 7]), 4),
        Err(VerkleTreeError::BuildError)
    ));
    let kzg = KZGCommitment::new(6);
    assert!(VerkleTree::build_tree(kzg, &mixed_leaves(), 4).is_ok());
}

#[test]
fn build_rejects_empty_and_misfit_sizes() {
    assert!(matches!(VerkleTree::new(&Vec::new(), 4), Err(VerkleTreeError::BuildError)));
    assert!(matches!(VerkleTree::new(&scalars(&[1, 2, 3, 4, 5, 6, 7, 8]), 4), Err(VerkleTreeError::BuildError)));
    assert!(matches!(VerkleTree::new(&scalars(&[1, 2, 3]), 4), Err(VerkleTreeError::BuildError)));
    assert!(matches!(VerkleTree::new(&scalars(&[1]), 1), Err(VerkleTreeError::BuildError)));
    assert!(matches!(VerkleTree::new(&scalars(&[1, 2]), 0), Err(VerkleTreeError::BuildError)));
}

#[test]
fn depth_is_the_logarithm_of_the_size() {
    for (width, depth) in [(2usize, 1usize), (2, 3), (3, 2), (4, 2), (5, 1)] {
        let size = width.pow(depth as u32) as u64;
        let values: Vec<u64> = (0..size).map(|i| i * i * i + 7 * i + 2).collect();
        let tree = VerkleTree::new(&scalars(&values), width).unwrap();
        assert_eq!(tree.depth(), depth);
        assert!(tree.root_commitment().is_some());
    }
}

#[test]
fn wrong_root_is_rejected() {
    let (tree, datas, width, depth) = build_verkle_tree();
    let proof = tree.prove(vec![5], &datas).unwrap();
    let other = as_commitment(&G1Affine::generator());
    assert_ne!(other, tree.root_commitment().unwrap());
    assert!(!VerkleTree::verify(other, proof, width, vec![5], depth, vec![datas[5]]));
}

#[test]
fn wrong_size_is_rejected() {
    let (tree, datas, width, depth) = build_verkle_tree();
    let root = tree.root_commitment().unwrap();
    let proof = tree.prove(vec![5], &datas).unwrap();
    let more = vec![5, 10];
    assert!(!VerkleTree::verify(root, proof.clone(), width, more.clone(), depth, picked(&datas, &more)));
    assert!(!VerkleTree::verify(root, proof.clone(), width, vec![16], depth, vec![datas[5]]));
    assert!(!VerkleTree::verify(root, proof.clone(), width, vec![5], 3, vec![datas[5]]));
    assert!(!VerkleTree::verify(root, proof.clone(), width, vec![5], 0, vec![datas[5]]));
    assert!(!VerkleTree::verify(root, proof, 1, vec![5], depth, vec![datas[5]]));
    assert!(!VerkleTree::verify(root, Vec::new(), width, vec![5], depth, vec![datas[5]]));
    assert!(!VerkleTree::verify(root, vec![None, None], width, vec![5], depth, vec![datas[5]]));
}

#[test]
fn compacted_proof_is_accepted() {
    let (tree, datas, width, depth) = build_verkle_tree();
    let root = tree.root_commitment().unwrap();
    let proof = tree.prove(vec![5], &datas).unwrap();
    let kept: Vec<Option<ProofNode>> = proof.into_iter().filter(|entry| entry.is_some()).collect();
    assert_eq!(kept.len(), 2);
    assert!(VerkleTree::verify(root, kept, width, vec![5], depth, vec![datas[5]]));
}

#[test]
fn prove_rejects_what_does_not_fit() {
    let (tree, datas, _, _) = build_verkle_tree();
    assert_eq!(tree.prove(vec![16], &datas).unwrap_err(), VerkleTreeError::ProofGenerateError);
    let short = scalars(&[1, 2, 3, 4]);
    assert_eq!(tree.prove(vec![1], &short).unwrap_err(), VerkleTreeError::ProofGenerateError);
}

#[test]
fn verify_with_given_parameters() {
    let (tree, datas, width, depth) = build_verkle_tree();
    let root = tree.root_commitment().unwrap();
    let proof = tree.prove(vec![2, 9], &datas).unwrap();
    let kzg = KZGCommitment::new(width + 1);
    assert!(VerkleTree::verify_with(&kzg, root, proof, width, vec![2, 9], depth, vec![datas[2], datas[9]]));
}

#[test]
fn unordered_positions_are_rejected() {
    let (tree, datas, width, depth) = build_verkle_tree();
    let root = tree.root_commitment().unwrap();
    let indices = vec![0, 1];
    let mut proof = tree.prove(indices.clone(), &datas).unwrap();
    let at_group = proof[1].as_mut().unwrap();
    at_group.point.swap(0, 1);
    assert!(!VerkleTree::verify(root, proof, width, indices, depth, vec![datas[0], datas[1]]));
}

#[test]
fn commitments_are_group_elements() {
    let generator = G1Affine::generator();
    let c = as_commitment(&generator);
    assert_eq!(c.x_limbs(), generator.x.into_bigint().0);
    assert_eq!(c.y_limbs(), generator.y.into_bigint().0);
    assert!(!c.is_infinity());
    assert!(Commitment::from_limbs([1, 0, 0, 0, 0, 0], [1, 0, 0, 0, 0, 0], false).is_none());
    assert!(Commitment::from_limbs([u64::MAX; 6], [0; 6], false).is_none());
    assert!(Commitment::from_limbs([0; 6], [0; 6], true).is_some());
}

#[test]
fn scalars_are_canonical() {
    assert_eq!(Scalar::from_u64(9).limbs(), [9, 0, 0, 0]);
    let order = [0xffffffff00000001u64, 0x53bda402fffe5bfe, 0x3339d80809a1d805, 0x73eda753299d7d48];
    assert!(Scalar::from_limbs(order).is_none());
    let below = [0xffffffff00000000u64, 0x53bda402fffe5bfe, 0x3339d80809a1d805, 0x73eda753299d7d48];
    assert_eq!(Scalar::from_limbs(below).unwrap().limbs(), below);
    assert_eq!(Scalar::from_limbs([5, 0, 0, 0]).unwrap(), Scalar::from_u64(5));
    assert!(Scalar::from_limbs([u64::MAX; 4]).is_none());
}

#[test]
fn points_outside_the_subgroup_are_no_commitments() {
    let mut x = 1u64;
    let stray = loop {
        if let Some(point) = G1Affine::get_point_from_x_unchecked(Fq::from(x), false) {
            if !point.is_in_correct_subgroup_assuming_on_curve() {
                break point;
            }
        }
        x += 1;
    };
    assert!(stray.is_on_curve());
    let limbs = (stray.x.into_bigint().0, stray.y.into_bigint().0);
    assert!(Commitment::from_limbs(limbs.0, limbs.1, false).is_none());
}

fn as_fr(value: &Scalar) -> Fr {
    Fr::from(ark_ff::BigInt::new(value.limbs()))
}

fn integer(limbs: &[u64]) -> BigUint {
    let mut bytes = Vec::new();
    for limb in limbs {
        bytes.extend_from_slice(&limb.to_le_bytes());
    }
    BigUint::from_bytes_le(&bytes)
}

#[test]
fn root_commits_to_the_encodings_of_its_children() {
    let (tree, datas, width, _) = build_verkle_tree();
    let root = tree.root_commitment().unwrap();
    let proof = tree.prove(vec![0, 5, 10, 15], &datas).unwrap();
    let at_root = proof[0].as_ref().unwrap();
    let encodings: Vec<Scalar> = at_root.point.iter().map(|p| p.1).collect();
    let q: BigUint = Fq::MODULUS.into();
    let r: BigUint = Fr::MODULUS.into();
    for (child, encoded) in encodings.iter().enumerate() {
        let commitment = proof[1 + child].as_ref().unwrap().commitment;
        let sum = (integer(&commitment.x_limbs()) + integer(&commitment.y_limbs())) % &q % &r;
        assert_eq!(integer(&encoded.limbs()), sum);
        let group: Vec<Fr> = datas[child * width..(child + 1) * width].iter().map(as_fr).collect();
        let direct = KZGCommitment::new(width)
            .commit_polynomial(&KZGCommitment::vector_to_polynomial(&group));
        assert_eq!(commitment, as_commitment(&direct));
    }
    let field: Vec<Fr> = encodings.iter().map(as_fr).collect();
    let direct = KZGCommitment::new(width).commit_polynomial(&KZGCommitment::vector_to_polynomial(&field));
    assert_eq!(root, as_commitment(&direct));
}

#[test]
fn commitment_maps_to_the_reduced_sum_of_its_coordinates() {
    let q: BigUint = Fq::MODULUS.into();
    let r: BigUint = Fr::MODULUS.into();
    let generator = as_commitment(&G1Affine::generator());
    let sum = (integer(&generator.x_limbs()) + integer(&generator.y_limbs())) % &q % &r;
    assert_eq!(integer(&map_commitment_to_field(&generator).limbs()), sum);
    assert_ne!(integer(&map_commitment_to_field(&generator).limbs()), integer(&generator.x_limbs()));
    let infinity = Commitment::from_limbs([0; 6], [0; 6], true).unwrap();
    assert_eq!(map_commitment_to_field(&infinity), Scalar::from_u64(0));
}

#[test]
fn a_tree_of_one_layer_is_built_wherever_its_leaves_interpolate() {
    for leaves in [[1u64, 2, 3, 4], [0, 0, 0, 0], [9, 0, 0, 1], [3, 2, 5, 7]] {
        let tree = VerkleTree::new(&scalars(&leaves), 4).unwrap();
        assert_eq!(tree.depth(), 1);
        assert!(tree.root_commitment().is_some());
    }
    assert!(VerkleTree::new(&scalars(&[3, 1, 5, 7]), 4).is_err());
}
