use bst::list_ops::{dedup, filter, sum};

#[test]
fn sum_of_values() {
    assert_eq!(sum(&[1, 2, 3]), 6);
    assert_eq!(sum(&[]), 0);
    assert_eq!(sum(&[-4, 10, -6, 7]), 7);
    assert_eq!(sum(&[i32::MAX, -1, 1]), i32::MAX);
}

#[test]
fn dedup_keeps_first_occurrences() {
    assert_eq!(dedup(&vec![1, 2, 1, 3, 2, 4, 4]), vec![1, 2, 3, 4]);
    assert_eq!(dedup(&vec![]), Vec::<i32>::new());
    assert_eq!(dedup(&vec![5, 5, 5]), vec![5]);
    assert_eq!(dedup(&vec![3, 1, 2]), vec![3, 1, 2]);
}

#[test]
fn filter_keeps_matching_in_order() {
    assert_eq!(filter(&vec![1, 2, 3, 4, 5, 6], &|x: i32| x % 2 == 0), vec![2, 4, 6]);
    assert_eq!(filter(&vec![1, 2, 3], &|_x: i32| false), Vec::<i32>::new());
    assert_eq!(filter(&vec![-3, 0, 3], &|x: i32| x >= 0), vec![0, 3]);
}
