use std::sync::Arc;

use partial_sort::partial_sort;
use partial_sort::PartialSort;

#[test]
fn smallest_prefix_with_ties() {
    let mut v: Vec<u32> = vec![4, 4, 3, 3, 1, 1, 2, 2];
    v.partial_sort(4, |a, b| a.cmp(b));
    assert_eq!(&v[0..4], &[1, 1, 2, 2]);
}

#[test]
fn keeps_all_elements() {
    let mut v: Vec<u32> = vec![9, 2, 9, 7, 0, 2, 5, 1];
    let mut expected = v.clone();
    expected.sort();
    v.partial_sort(3, |a, b| a.cmp(b));
    let mut after = v.clone();
    after.sort();
    assert_eq!(after, expected);
}

#[test]
fn prefix_zero_keeps_membership() {
    let mut v: Vec<u32> = vec![8, 6, 7, 5, 3, 0, 9, 4];
    let mut expected = v.clone();
    expected.sort();
    v.partial_sort(0, |a, b| a.cmp(b));
    let mut after = v.clone();
    after.sort();
    assert_eq!(after, expected);
}

#[test]
fn full_length_sorts_ascending() {
    let mut v: Vec<&str> = vec!["a", "cat", "mat", "on", "sat", "the"];
    v.partial_sort(6, |a, b| a.cmp(b));
    assert_eq!(v, vec!["a", "cat", "mat", "on", "sat", "the"]);

    let mut w: Vec<&str> = vec!["the", "sat", "on", "mat", "cat", "a"];
    w.partial_sort(6, |a, b| a.cmp(b));
    assert_eq!(w, vec!["a", "cat", "mat", "on", "sat", "the"]);
}

#[test]
fn second_call_changes_nothing() {
    let mut v: Vec<u64> = vec![11, 3, 5, 2, 13, 8, 1, 7, 2];
    v.partial_sort(4, |a, b| a.cmp(b));
    let once = v.clone();
    v.partial_sort(4, |a, b| a.cmp(b));
    assert_eq!(v, once);
}

#[test]
fn reversed_comparator_selects_greatest() {
    let mut v: Vec<u32> = vec![4, 1, 7, 3, 9, 2, 8, 5];
    v.partial_sort(3, |a, b| b.cmp(a));
    assert_eq!(&v[0..3], &[9, 8, 7]);
}

#[test]
fn reversed_comparator_full_descending() {
    let mut v: Vec<u32> = vec![4, 1, 7, 3, 9, 2, 8, 5];
    let n = v.len();
    v.partial_sort(n, |a, b| b.cmp(a));
    assert_eq!(v, vec![9, 8, 7, 5, 4, 3, 2, 1]);
}

#[test]
fn free_function_bool_predicate() {
    let mut v: Vec<i64> = vec![-3, 10, 0, -7, 4];
    partial_sort(&mut v, 2, |a: &i64, b: &i64| a < b);
    assert_eq!(&v[0..2], &[-7, -3]);
}

#[test]
fn owning_handles_are_not_duplicated() {
    let mut v: Vec<Arc<u64>> = vec![
        Arc::new(30),
        Arc::new(10),
        Arc::new(40),
        Arc::new(20),
    ];
    v.partial_sort(2, |a, b| a.cmp(b));
    assert_eq!(*v[0], 10);
    assert_eq!(*v[1], 20);
    for handle in &v {
        assert_eq!(Arc::strong_count(handle), 1);
    }
}

#[test]
fn single_element_prefix_is_minimum() {
    let mut v: Vec<u32> = vec![5];
    v.partial_sort(1, |a, b| a.cmp(b));
    assert_eq!(v, vec![5]);

    let mut w: Vec<u32> = vec![2, 1];
    w.partial_sort(1, |a, b| a.cmp(b));
    assert_eq!(w[0], 1);
}
