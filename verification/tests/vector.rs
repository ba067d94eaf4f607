use bankers::{add_vec, is_less_than, is_less_than_or_equal, subtract_vec};

#[test]
fn add_vec_adds_position_by_position() {
    assert_eq!(add_vec(&vec![1, 2, 3], &vec![10, 20, 30]), vec![11, 22, 33]);
    assert_eq!(add_vec(&vec![], &vec![]), Vec::<u32>::new());
    assert_eq!(add_vec(&vec![u32::MAX - 1], &vec![1]), vec![u32::MAX]);
    assert_eq!(add_vec(&vec![0, 5], &vec![0, 0]), vec![0, 5]);
}

#[test]
fn subtract_vec_subtracts_position_by_position() {
    assert_eq!(subtract_vec(&vec![11, 22, 33], &vec![10, 20, 30]), vec![1, 2, 3]);
    assert_eq!(subtract_vec(&vec![], &vec![]), Vec::<u32>::new());
    assert_eq!(subtract_vec(&vec![u32::MAX, 4], &vec![u32::MAX, 0]), vec![0, 4]);
}

#[test]
fn adding_back_what_was_subtracted_gives_the_first_vector() {
    let max = vec![4, 5, 7, 8];
    let allocated = vec![0, 5, 3, 8];
    assert_eq!(add_vec(&subtract_vec(&max, &allocated), &allocated), max);
    let max = vec![u32::MAX, 0, 1];
    let allocated = vec![7, 0, 1];
    assert_eq!(add_vec(&subtract_vec(&max, &allocated), &allocated), max);
}

#[test]
fn less_than_or_equal_holds_when_every_position_is_within() {
    assert!(is_less_than_or_equal(&vec![1, 2, 3], &vec![1, 2, 3]));
    assert!(is_less_than_or_equal(&vec![0, 2, 3], &vec![1, 2, 4]));
    assert!(is_less_than_or_equal(&vec![], &vec![]));
    assert!(!is_less_than_or_equal(&vec![1, 3, 3], &vec![1, 2, 3]));
    assert!(!is_less_than_or_equal(&vec![2, 0, 0], &vec![1, 9, 9]));
    assert!(!is_less_than_or_equal(&vec![0, 0, 1], &vec![9, 9, 0]));
}

#[test]
fn a_large_count_does_not_make_up_for_a_small_one() {
    assert!(!is_less_than_or_equal(&vec![2, 2, 3, 3], &vec![20, 2, 2, 2]));
}

#[test]
fn less_than_holds_when_every_position_is_strictly_below() {
    assert!(is_less_than(&vec![0, 1, 2], &vec![1, 2, 3]));
    assert!(is_less_than(&vec![], &vec![]));
    assert!(!is_less_than(&vec![1, 2, 3], &vec![1, 2, 3]));
    assert!(!is_less_than(&vec![0, 2, 2], &vec![1, 2, 3]));
    assert!(!is_less_than(&vec![5, 0, 0], &vec![1, 2, 3]));
}
