use protohackers::binary_search::{find_bounds_index, find_insert_index, is_sorted};

#[test]
fn test_find_insert_index() {
    let xs = [];
    assert_eq!(find_insert_index(&xs, &1), 0);

    let xs = [1];
    assert_eq!(find_insert_index(&xs, &0), 0);
    assert_eq!(find_insert_index(&xs, &1), 1);
    assert_eq!(find_insert_index(&xs, &2), 1);

    let xs = [1, 3];
    assert_eq!(find_insert_index(&xs, &0), 0);
    assert_eq!(find_insert_index(&xs, &1), 1);
    assert_eq!(find_insert_index(&xs, &2), 1);
    assert_eq!(find_insert_index(&xs, &3), 2);
    assert_eq!(find_insert_index(&xs, &4), 2);
}

#[test]
fn test_find_bounds_index() {
    let xs = [1];
    assert_eq!(find_bounds_index(&xs, &1, &3), Some((0, 0)));
    assert_eq!(find_bounds_index(&xs, &1, &1), Some((0, 0)));
    assert_eq!(find_bounds_index(&xs, &0, &0), None);

    let xs = [1, 2, 3];
    assert_eq!(find_bounds_index(&xs, &1, &3), Some((0, 2)));
    assert_eq!(find_bounds_index(&xs, &1, &1), Some((0, 0)));
    assert_eq!(find_bounds_index(&xs, &0, &0), None);

    let xs = [1, 2, 2, 2, 2, 2, 2, 2, 2, 2, 3];
    assert_eq!(find_bounds_index(&xs, &1, &3), Some((0, xs.len() - 1)));
    assert_eq!(find_bounds_index(&xs, &1, &4), Some((0, xs.len() - 1)));

    let xs = [1, 2, 2, 2, 2, 2, 2, 2, 2, 2, 3, 3];
    assert_eq!(find_bounds_index(&xs, &1, &3), Some((0, xs.len() - 1)));
}

#[test]
fn is_sorted_accepts_ascending_and_equal_runs() {
    assert!(is_sorted(&[]));
    assert!(is_sorted(&[5]));
    assert!(is_sorted(&[1, 2, 2, 3]));
    assert!(is_sorted(&[i32::MIN, 0, i32::MAX]));
}

#[test]
fn is_sorted_rejects_a_descent() {
    assert!(!is_sorted(&[2, 1]));
    assert!(!is_sorted(&[1, 2, 3, 0]));
}

#[test]
fn insert_index_goes_after_equal_elements() {
    let xs = [1, 2, 2, 2, 5];
    assert_eq!(find_insert_index(&xs, &2), 4);
    assert_eq!(find_insert_index(&xs, &i32::MIN), 0);
    assert_eq!(find_insert_index(&xs, &i32::MAX), 5);
}

#[test]
fn bounds_of_a_range_between_elements_are_empty() {
    // Nothing lies in [2, 3]: the first index at least 2 is one past the
    // last index at most 3.
    let xs = [1, 5];
    assert_eq!(find_bounds_index(&xs, &2, &3), Some((1, 0)));
}

#[test]
fn bounds_are_none_for_reversed_or_outside_ranges() {
    let xs = [10, 20, 30];
    assert_eq!(find_bounds_index(&xs, &25, &15), None);
    assert_eq!(find_bounds_index(&xs, &31, &40), None);
    assert_eq!(find_bounds_index(&xs, &0, &9), None);
    assert_eq!(find_bounds_index(&[], &0, &9), None);
    assert_eq!(find_bounds_index(&xs, &15, &25), Some((1, 1)));
    assert_eq!(find_bounds_index(&xs, &10, &30), Some((0, 2)));
}
