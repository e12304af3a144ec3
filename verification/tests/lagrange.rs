use verkle_tree::field::Scalar;
use verkle_tree::index_plan::tree_depth;
use verkle_tree::lagrange::{check_interpolation, check_vector};
use verkle_tree::verkle_tree_point::{copy_bytes, same_bytes};

fn points(values: &[(usize, u64)]) -> Vec<(usize, Scalar)> {
    values.iter().map(|(x, y)| (*x, Scalar::from_u64(*y))).collect()
}

fn vector(values: &[u64]) -> Vec<Scalar> {
    values.iter().map(|v| Scalar::from_u64(*v)).collect()
}

#[test]
fn values_on_a_line_interpolate_below_the_full_degree() {
    // Through four values on a line the leading coefficients cancel only at the end.
    assert_eq!(check_interpolation(&points(&[(0, 1), (1, 2), (2, 3), (3, 4)])), (true, false));
    assert!(check_vector(&vector(&[1, 2, 3, 4])));
    assert_eq!(check_interpolation(&points(&[(0, 1), (1, 2)])), (true, true));
    assert_eq!(check_interpolation(&points(&[(1, 2), (2, 3), (3, 4)])), (true, false));
}

#[test]
fn leading_coefficients_that_cancel_early_stop_the_interpolation() {
    // Over the points 0..4 the weights are -1/6, 1/2, -1/2, 1/6, so that 3 and 1 cancel.
    assert!(!check_vector(&vector(&[3, 1, 5, 7])));
    assert_eq!(check_interpolation(&points(&[(0, 3), (1, 1), (2, 5), (3, 7)])), (false, false));
    assert!(check_vector(&vector(&[3, 1, 0, 0])));
    assert!(check_vector(&vector(&[3, 2, 5, 7])));
    // Over the points 0..3 the weights are 1/2, -1, 1/2, so that 2 and 1 cancel.
    assert!(!check_vector(&vector(&[2, 1, 9])));
    assert!(check_vector(&vector(&[2, 1, 0])));
}

#[test]
fn zeros_interpolate() {
    assert_eq!(check_interpolation(&points(&[(0, 0), (1, 0), (2, 0)])), (true, true));
    assert_eq!(check_interpolation(&points(&[(0, 0), (1, 5), (2, 0)])), (true, true));
    assert_eq!(check_interpolation(&Vec::new()), (true, true));
    assert_eq!(check_interpolation(&points(&[(7, 9)])), (true, true));
    assert!(check_vector(&Vec::new()));
}

#[test]
fn depth_of_a_tree_by_its_size() {
    assert_eq!(tree_depth(16, 4), Some(2));
    assert_eq!(tree_depth(3, 3), Some(1));
    assert_eq!(tree_depth(1024, 2), Some(10));
    assert_eq!(tree_depth(0, 4), None);
    assert_eq!(tree_depth(1, 2), None);
    assert_eq!(tree_depth(8, 4), None);
    assert_eq!(tree_depth(12, 4), None);
    assert_eq!(tree_depth(4, 1), None);
    assert_eq!(tree_depth(0, 0), None);
    assert_eq!(tree_depth(usize::MAX, 2), None);
}

#[test]
fn bytes_are_copied_and_compared() {
    assert_eq!(copy_bytes(&vec![1, 2, 3]), vec![1, 2, 3]);
    assert_eq!(copy_bytes(&Vec::new()), Vec::<u8>::new());
    assert!(same_bytes(&vec![1, 2], &vec![1, 2]));
    assert!(!same_bytes(&vec![1, 2], &vec![1, 3]));
    assert!(!same_bytes(&vec![1, 2], &vec![1, 2, 0]));
    assert!(same_bytes(&Vec::new(), &Vec::new()));
}
