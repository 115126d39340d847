use genetic::ordering::{first_minimum, stable_order};

#[test]
fn stable_order_sorts_by_key_keeping_ties_in_order() {
    assert_eq!(stable_order(&vec![5, 3, 5, 1]), vec![3, 1, 0, 2]);
}

#[test]
fn stable_order_of_nothing_is_empty() {
    assert_eq!(stable_order(&vec![]), Vec::<usize>::new());
}

#[test]
fn stable_order_all_equal_is_identity() {
    assert_eq!(stable_order(&vec![7, 7, 7, 7, 7]), vec![0, 1, 2, 3, 4]);
}

#[test]
fn stable_order_reversed_keys() {
    assert_eq!(stable_order(&vec![4, 3, 2, 1, 0]), vec![4, 3, 2, 1, 0]);
}

#[test]
fn stable_order_extreme_keys() {
    assert_eq!(stable_order(&vec![u64::MAX, 0, u64::MAX, 0]), vec![1, 3, 0, 2]);
}

#[test]
fn first_minimum_takes_the_first_of_equal_minima() {
    assert_eq!(first_minimum(&vec![4, 2, 7, 2]), 1);
    assert_eq!(first_minimum(&vec![9]), 0);
    assert_eq!(first_minimum(&vec![3, 3, 3]), 0);
}

#[test]
fn head_of_stable_order_is_first_minimum() {
    let keys = vec![8, 6, 9, 6, 7];
    assert_eq!(stable_order(&keys)[0], first_minimum(&keys));
}

#[test]
fn stable_order_is_unique_whatever_the_run() {
    let keys = vec![2, 9, 2, 0, 9, 1];
    assert_eq!(stable_order(&keys), stable_order(&keys.clone()));
    assert_eq!(stable_order(&keys), vec![3, 5, 0, 2, 1, 4]);
}
