use lib::kth_largest::{find_kth_largest_heap, find_kth_largest_quickselect};

#[test]
fn quickselect_finds_second_largest() {
    assert_eq!(find_kth_largest_quickselect(vec![3, 2, 1, 5, 6, 4], 2), 5);
}

#[test]
fn heap_finds_second_largest() {
    assert_eq!(find_kth_largest_heap(vec![3, 2, 1, 5, 6, 4], 2), 5);
}

#[test]
fn duplicates_are_counted() {
    let nums = vec![3, 2, 3, 1, 2, 4, 5, 5, 6];
    assert_eq!(find_kth_largest_quickselect(nums.clone(), 4), 4);
    assert_eq!(find_kth_largest_heap(nums, 4), 4);
}

#[test]
fn first_and_last_rank() {
    let nums = vec![7, -3, 12, 0, 12, 5];
    assert_eq!(find_kth_largest_quickselect(nums.clone(), 1), 12);
    assert_eq!(find_kth_largest_heap(nums.clone(), 1), 12);
    assert_eq!(find_kth_largest_quickselect(nums.clone(), 2), 12);
    assert_eq!(find_kth_largest_heap(nums.clone(), 2), 12);
    assert_eq!(find_kth_largest_quickselect(nums.clone(), 6), -3);
    assert_eq!(find_kth_largest_heap(nums, 6), -3);
}

#[test]
fn single_element() {
    assert_eq!(find_kth_largest_quickselect(vec![42], 1), 42);
    assert_eq!(find_kth_largest_heap(vec![42], 1), 42);
}

#[test]
fn heap_rank_past_the_end_gives_the_smallest() {
    assert_eq!(find_kth_largest_heap(vec![4, 9, 1, 6], 10), 1);
}

#[test]
fn both_methods_agree_on_every_rank() {
    let nums = vec![5, 1, 9, 1, 5, 5, -2, 8, 0, 9, 3];
    let mut sorted = nums.clone();
    sorted.sort();
    sorted.reverse();
    for k in 1..=nums.len() {
        let a = find_kth_largest_quickselect(nums.clone(), k as i32);
        let b = find_kth_largest_heap(nums.clone(), k as i32);
        assert_eq!(a, sorted[k - 1]);
        assert_eq!(a, b);
    }
}

#[test]
fn all_equal_values() {
    assert_eq!(find_kth_largest_quickselect(vec![2, 2, 2, 2], 3), 2);
    assert_eq!(find_kth_largest_heap(vec![2, 2, 2, 2], 3), 2);
}

#[test]
fn extreme_values() {
    let nums = vec![i32::MIN, i32::MAX, 0, i32::MIN];
    assert_eq!(find_kth_largest_quickselect(nums.clone(), 1), i32::MAX);
    assert_eq!(find_kth_largest_heap(nums.clone(), 4), i32::MIN);
    assert_eq!(find_kth_largest_quickselect(nums, 3), i32::MIN);
}
