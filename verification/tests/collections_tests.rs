use katas::sequences::{longest_increasing_subsequence, second_largest, top_k_frequent};

#[test]
fn test_second_largest() {
    assert_eq!(second_largest(&[3, 1, 4, 1, 5]), Some(4));
    assert_eq!(second_largest(&[5, 5, 5]), None);
    assert_eq!(second_largest(&[7]), None);
    assert_eq!(second_largest(&[]), None);
    assert_eq!(second_largest(&[2, 9]), Some(2));
    assert_eq!(second_largest(&[9, 9, 3]), Some(3));
}

#[test]
fn test_longest_increasing_subsequence() {
    assert_eq!(longest_increasing_subsequence(&[10, 9, 2, 5, 3, 7, 101, 18]), vec![2, 5, 7, 101]);
    assert_eq!(longest_increasing_subsequence(&[1, 2, 3]), vec![1, 2, 3]);
    assert_eq!(longest_increasing_subsequence(&[3, 2, 1]), vec![3]);
    assert_eq!(longest_increasing_subsequence(&[]), Vec::<i32>::new());
    assert_eq!(longest_increasing_subsequence(&[5]), vec![5]);
}

#[test]
fn test_top_k_frequent() {
    assert_eq!(top_k_frequent(vec![1, 1, 1, 2, 2, 3], 2), vec![1, 2]);
    assert_eq!(top_k_frequent(vec![4], 3), vec![4]);
    assert_eq!(top_k_frequent(Vec::new(), 2), Vec::<i32>::new());
}

#[test]
fn test_top_k_frequent_ties_by_value() {
    assert_eq!(top_k_frequent(vec![5, 3, 5, 3, 8], 2), vec![5, 3]);
    assert_eq!(top_k_frequent(vec![2, 7], 1), vec![7]);
}
