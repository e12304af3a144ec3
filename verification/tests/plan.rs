use verkle_tree::index_plan::{checked_pow, count_openings, create_index_for_proof, sorted_unique};

#[test]
fn plan_of_a_full_row() {
    let plan = create_index_for_proof(vec![0, 1, 2, 3], 4, 2);
    assert_eq!(plan, vec![vec![vec![0]], vec![vec![0, 1, 2, 3], vec![], vec![], vec![]]]);
    assert_eq!(count_openings(&plan), Some(2));
}

#[test]
fn plan_of_a_single_leaf() {
    let plan = create_index_for_proof(vec![5], 4, 2);
    assert_eq!(plan, vec![vec![vec![1]], vec![vec![], vec![1], vec![], vec![]]]);
    assert_eq!(count_openings(&plan), Some(2));
}

#[test]
fn plan_across_subtrees() {
    let plan = create_index_for_proof(vec![0, 5, 10, 15], 4, 2);
    assert_eq!(
        plan,
        vec![vec![vec![0, 1, 2, 3]], vec![vec![0], vec![1], vec![2], vec![3]]]
    );
    assert_eq!(count_openings(&plan), Some(5));
}

#[test]
fn plan_ignores_repeats_and_order() {
    let once = create_index_for_proof(vec![3], 4, 2);
    assert_eq!(create_index_for_proof(vec![3, 3], 4, 2), once);
    assert_eq!(once, vec![vec![vec![0]], vec![vec![3], vec![], vec![], vec![]]]);
    let sorted = create_index_for_proof(vec![1, 2, 6], 3, 2);
    assert_eq!(create_index_for_proof(vec![6, 2, 1, 2], 3, 2), sorted);
    assert_eq!(sorted, vec![vec![vec![0, 2]], vec![vec![1, 2], vec![], vec![0]]]);
}

#[test]
fn plan_of_a_depth_one_tree() {
    assert_eq!(create_index_for_proof(vec![0, 2], 3, 1), vec![vec![vec![0, 2]]]);
}

#[test]
fn plan_of_a_single_node() {
    assert_eq!(create_index_for_proof(vec![7, 2, 7], 4, 0), vec![vec![vec![2, 7]]]);
}

#[test]
fn plan_of_three_layers() {
    let plan = create_index_for_proof(vec![7, 0], 2, 3);
    assert_eq!(
        plan,
        vec![
            vec![vec![0, 1]],
            vec![vec![0], vec![1]],
            vec![vec![0], vec![], vec![], vec![1]],
        ]
    );
    assert_eq!(count_openings(&plan), Some(5));
}

#[test]
fn plan_of_no_index_opens_nothing() {
    let plan = create_index_for_proof(Vec::new(), 2, 2);
    assert_eq!(plan, vec![vec![vec![]], vec![vec![], vec![]]]);
    assert_eq!(count_openings(&plan), Some(0));
}

#[test]
fn powers_that_fit_and_that_do_not() {
    assert_eq!(checked_pow(4, 2), Some(16));
    assert_eq!(checked_pow(3, 0), Some(1));
    assert_eq!(checked_pow(0, 0), Some(1));
    assert_eq!(checked_pow(0, 5), Some(0));
    assert_eq!(checked_pow(1, usize::MAX), Some(1));
    assert_eq!(checked_pow(2, 63), Some(1usize << 63));
    assert_eq!(checked_pow(2, 64), None);
    assert_eq!(checked_pow(usize::MAX, 2), None);
}

#[test]
fn sorting_drops_repeats() {
    assert_eq!(sorted_unique(&vec![5, 1, 5, 3, 1]), vec![1, 3, 5]);
    assert_eq!(sorted_unique(&Vec::new()), Vec::<usize>::new());
}
