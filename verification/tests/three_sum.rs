use lib::three_sum::three_sum;

#[test]
fn three_sum_classic_example() {
    assert_eq!(three_sum(vec![-1, 0, 1, 2, -1, -4]), vec![vec![-1, -1, 2], vec![-1, 0, 1]]);
}

#[test]
fn no_triple() {
    assert_eq!(three_sum(vec![0, 1, 1]), Vec::<Vec<i32>>::new());
}

#[test]
fn zeros() {
    assert_eq!(three_sum(vec![0, 0, 0, 0]), vec![vec![0, 0, 0]]);
}

#[test]
fn too_short() {
    assert_eq!(three_sum(vec![]), Vec::<Vec<i32>>::new());
    assert_eq!(three_sum(vec![-1, 1]), Vec::<Vec<i32>>::new());
}

#[test]
fn duplicates_reported_once_in_order() {
    assert_eq!(
        three_sum(vec![-2, 0, 1, 1, 2, -2, 0, 2]),
        vec![vec![-2, 0, 2], vec![-2, 1, 1]]
    );
}

#[test]
fn many_triples_sorted() {
    assert_eq!(
        three_sum(vec![-4, -2, -2, -2, 0, 1, 2, 2, 2, 3, 3, 4, 4, 6, 6]),
        vec![
            vec![-4, -2, 6],
            vec![-4, 0, 4],
            vec![-4, 1, 3],
            vec![-4, 2, 2],
            vec![-2, -2, 4],
            vec![-2, 0, 2],
        ]
    );
}

#[test]
fn extreme_values_do_not_overflow() {
    assert_eq!(three_sum(vec![i32::MAX, i32::MIN, 1]), vec![vec![i32::MIN, 1, i32::MAX]]);
    assert_eq!(three_sum(vec![i32::MAX, i32::MAX, i32::MIN]), Vec::<Vec<i32>>::new());
}
