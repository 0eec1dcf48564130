use jagged_array::from_parts;

#[test]
fn test_rank() {
    let mut array = from_parts(vec![1, 2], vec![1, 2, 3]);
    let mut rank = array.rank_mut(0).expect("failed to get the rank");
    assert_eq!(rank, [1][..],);

    rank.insert(1, 4);
    assert_eq!(rank, [1, 4][..]);
    rank.push(5);
    assert_eq!(rank, [1, 4, 5][..]);
    assert_eq!(array, from_parts(vec![3, 2], vec![1, 4, 5, 2, 3]));

    let mut rank = array.rank_mut(1).expect("failed to get the rank");
    assert_eq!(rank, [2, 3][..]);
    assert_eq!(rank.remove(1), 3);
    assert_eq!(rank.pop(), Some(2));
    assert_eq!(rank.pop(), None);

    rank.extend(vec![6, 7]);
    assert_eq!(rank, [6, 7][..]);
    assert_eq!(array, from_parts(vec![3, 2], vec![1, 4, 5, 6, 7]));
}

#[test]
fn row_edits_leave_the_other_rows_alone() {
    let mut array = from_parts(vec![2, 2, 2], vec![1, 2, 3, 4, 5, 6]);
    let mut rank = array.rank_mut(1).unwrap();
    rank.insert(0, 9);
    assert_eq!(rank.as_slice(), &[9, 3, 4][..]);
    assert_eq!(array, from_parts(vec![2, 3, 2], vec![1, 2, 9, 3, 4, 5, 6]));
    let mut rank = array.rank_mut(1).unwrap();
    assert_eq!(rank.remove(2), 4);
    assert_eq!(array, from_parts(vec![2, 2, 2], vec![1, 2, 9, 3, 5, 6]));
    let mut rank = array.rank_mut(0).unwrap();
    rank.push(7);
    assert_eq!(array, from_parts(vec![3, 2, 2], vec![1, 2, 7, 9, 3, 5, 6]));
    let mut rank = array.rank_mut(2).unwrap();
    assert_eq!(rank.pop(), Some(6));
    assert_eq!(array, from_parts(vec![3, 2, 1], vec![1, 2, 7, 9, 3, 5]));
    assert_eq!(array.files(0), 3);
    assert_eq!(array.files(1), 2);
    assert_eq!(array.files(2), 1);
}

#[test]
fn insert_at_both_ends_of_a_row() {
    let mut array = from_parts(vec![1, 2], vec![1, 2, 3]);
    let mut rank = array.rank_mut(1).unwrap();
    rank.insert(2, 10);
    rank.insert(0, 20);
    assert_eq!(rank, [20, 2, 3, 10][..]);
    assert_eq!(array, from_parts(vec![1, 4], vec![1, 20, 2, 3, 10]));
}

#[test]
fn an_empty_row_has_a_handle() {
    let mut array = from_parts(vec![1, 0, 1], vec![1, 2]);
    let mut rank = array.rank_mut(1).expect("an empty row is still a row");
    assert_eq!(rank, [][..]);
    assert_eq!(rank.pop(), None);
    assert_eq!(rank.pop(), None);
    rank.push(5);
    assert_eq!(rank, [5][..]);
    assert_eq!(array, from_parts(vec![1, 1, 1], vec![1, 5, 2]));
}

#[test]
fn extending_a_row_in_the_middle() {
    let mut array = from_parts(vec![1, 1, 1], vec![1, 2, 3]);
    let mut rank = array.rank_mut(1).unwrap();
    rank.extend(vec![4, 5, 6]);
    rank.extend(vec![]);
    assert_eq!(rank, [2, 4, 5, 6][..]);
    assert_eq!(array, from_parts(vec![1, 4, 1], vec![1, 2, 4, 5, 6, 3]));
}

#[test]
fn writing_through_a_row_slice() {
    let mut array = from_parts(vec![1, 2, 1], vec![1, 2, 3, 4]);
    let mut rank = array.rank_mut(1).unwrap();
    let slice = rank.as_mut_slice();
    assert_eq!(slice, &mut [2, 3][..]);
    slice[0] = 20;
    slice[1] = 30;
    assert_eq!(array, from_parts(vec![1, 2, 1], vec![1, 20, 30, 4]));
}

#[test]
fn a_row_compares_with_a_slice() {
    let mut array = from_parts(vec![2, 1], vec![1, 2, 3]);
    let rank = array.rank_mut(0).unwrap();
    assert!(rank == [1, 2][..]);
    assert!(rank != [1, 3][..]);
    assert!(rank != [1][..]);
    assert!(rank != [1, 2, 3][..]);
}

#[test]
fn rows_of_two_arrays_compare() {
    let mut left = from_parts(vec![2, 1], vec![1, 2, 3]);
    let mut right = from_parts(vec![1, 2], vec![3, 1, 2]);
    assert!(left.rank_mut(0).unwrap() == right.rank_mut(1).unwrap());
    assert!(left.rank_mut(1).unwrap() == right.rank_mut(0).unwrap());
    assert!(left.rank_mut(0).unwrap() != right.rank_mut(0).unwrap());
}

#[test]
fn a_handle_turns_into_a_slice_of_the_array() {
    let mut array = from_parts(vec![1, 2, 1], vec![1, 2, 3, 4]);
    let slice = array.rank_mut(1).unwrap().into_mut_slice();
    assert_eq!(slice, &mut [2, 3][..]);
    slice[1] = 30;
    assert_eq!(array, from_parts(vec![1, 2, 1], vec![1, 2, 30, 4]));
}
