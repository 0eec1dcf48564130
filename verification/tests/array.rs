use jagged_array::{checked_total, from_elem, from_parts, try_from_parts, Array};

#[test]
fn test_array() {
    let mut array = from_parts(vec![2, 3], vec![1, 2, 3, 4, 5]);
    assert_eq!(array.capacity(), 5);
    assert_eq!(array.len(), 5);
    assert_eq!(array.ranks(), 2);
    assert_eq!(array.files(0), 2);
    assert_eq!(array.files(1), 3);
    assert_eq!(array.get([1, 1]), Some(&4));
    assert_eq!(array.get_mut([1, 1]), Some(&mut 4));
    assert_eq!(array.rank(1), Some(&[3, 4, 5][..]));

    array.insert(1, vec![6, 7, 8]);
    assert_eq!(array, from_parts(vec![2, 3, 3], vec![1, 2, 6, 7, 8, 3, 4, 5]));
    assert_eq!(array.remove(0), [1, 2][..]);
    assert_eq!(array.pop(), Some(vec![3, 4, 5]));
    array.pop();
    assert_eq!(array.pop(), None);

    array.push(vec![3, 4, 5]);
    assert_eq!(array, from_parts(vec![3], vec![3, 4, 5]));

    array.extend(vec![vec![6, 7], vec![8, 9, 10]]);
    assert_eq!(array, from_parts(vec![3, 2, 3], vec![3, 4, 5, 6, 7, 8, 9, 10]));
}

#[test]
fn reading_a_two_row_array() {
    let array = from_parts(vec![2, 3], vec![1, 2, 3, 4, 5]);
    assert_eq!(array.ranks(), 2);
    assert_eq!(array.files(0), 2);
    assert_eq!(array.files(1), 3);
    assert_eq!(array.get([1, 1]), Some(&4));
    assert_eq!(array.rank(1), Some(&[3, 4, 5][..]));
    assert_eq!(array[[1, 1]], 4);
    assert_eq!(array[1], [3, 4, 5][..]);
    assert_eq!(array[0], [1, 2][..]);
    assert_eq!(array[[0, 0]], 1);
}

#[test]
fn inserting_a_row_in_the_middle() {
    let mut array = from_parts(vec![2, 3], vec![1, 2, 3, 4, 5]);
    array.insert(1, vec![6, 7, 8]);
    assert_eq!(array, from_parts(vec![2, 3, 3], vec![1, 2, 6, 7, 8, 3, 4, 5]));
    assert_eq!(array.ranks(), 3);
    assert_eq!(array.len(), 8);
    assert_eq!(array.rank(0), Some(&[1, 2][..]));
    assert_eq!(array.rank(1), Some(&[6, 7, 8][..]));
    assert_eq!(array.rank(2), Some(&[3, 4, 5][..]));
}

#[test]
fn removing_the_first_row() {
    let mut array = from_parts(vec![2, 3, 3], vec![1, 2, 6, 7, 8, 3, 4, 5]);
    assert_eq!(array.remove(0), vec![1, 2]);
    assert_eq!(array, from_parts(vec![3, 3], vec![6, 7, 8, 3, 4, 5]));
}

#[test]
fn popping_past_empty() {
    let mut array = from_parts(vec![1, 2], vec![1, 2, 3]);
    assert_eq!(array.pop(), Some(vec![2, 3]));
    assert_eq!(array.pop(), Some(vec![1]));
    assert_eq!(array.pop(), None);
    assert_eq!(array.pop(), None);
    assert_eq!(array.ranks(), 0);
    assert_eq!(array.len(), 0);
}

#[test]
fn insert_then_remove_gives_the_row_back() {
    let before = from_parts(vec![2, 0, 1], vec![10, 20, 30]);
    for rank in 0..=3 {
        let mut array = before.clone();
        array.insert(rank, vec![7, 8]);
        assert_eq!(array.ranks(), 4);
        assert_eq!(array.rank(rank), Some(&[7, 8][..]));
        assert_eq!(array.remove(rank), vec![7, 8]);
        assert_eq!(array, before);
    }
}

#[test]
fn insert_at_the_end_appends() {
    let mut array = from_parts(vec![2], vec![1, 2]);
    array.insert(1, vec![3]);
    assert_eq!(array, from_parts(vec![2, 1], vec![1, 2, 3]));
    array.insert(0, vec![]);
    assert_eq!(array, from_parts(vec![0, 2, 1], vec![1, 2, 3]));
}

#[test]
fn push_then_pop_gives_the_row_back() {
    let mut array = from_parts(vec![1, 2], vec![1, 2, 3]);
    array.push(vec![9, 8, 7]);
    assert_eq!(array, from_parts(vec![1, 2, 3], vec![1, 2, 3, 9, 8, 7]));
    assert_eq!(array.pop(), Some(vec![9, 8, 7]));
    assert_eq!(array, from_parts(vec![1, 2], vec![1, 2, 3]));
}

#[test]
fn the_lengths_always_add_up() {
    let mut array: Array<u8> = Array::new();
    assert_eq!(array.len(), 0);
    array.push(vec![1, 2, 3]);
    array.push(vec![]);
    array.insert(1, vec![4]);
    array.extend(vec![vec![5, 6], vec![7]]);
    let sum: usize = (0..array.ranks()).map(|rank| array.files(rank)).sum();
    assert_eq!(sum, array.len());
    assert_eq!(array.len(), 7);
    array.remove(0);
    array.pop();
    let sum: usize = (0..array.ranks()).map(|rank| array.files(rank)).sum();
    assert_eq!(sum, array.len());
    assert_eq!(array.len(), 3);
}

#[test]
fn rows_read_back_after_building_from_parts() {
    let dims = vec![0, 3, 1, 0, 2];
    let vals = vec!['a', 'b', 'c', 'd', 'e', 'f'];
    let array = from_parts(dims.clone(), vals.clone());
    let expected: [&[char]; 5] = [&[], &['a', 'b', 'c'], &['d'], &[], &['e', 'f']];
    let mut joined = Vec::new();
    for (rank, row) in expected.iter().enumerate() {
        assert_eq!(array.rank(rank), Some(*row));
        assert_eq!(array.files(rank), dims[rank]);
        joined.extend_from_slice(array.rank(rank).unwrap());
    }
    assert_eq!(joined, vals);
}

#[test]
fn out_of_range_reads_give_none() {
    let mut array = from_parts(vec![2, 0], vec![1, 2]);
    assert_eq!(array.get([0, 2]), None);
    assert_eq!(array.get([1, 0]), None);
    assert_eq!(array.get([2, 0]), None);
    assert_eq!(array.get([usize::MAX, usize::MAX]), None);
    assert_eq!(array.get_mut([0, 2]), None);
    assert_eq!(array.get_mut([2, 0]), None);
    assert_eq!(array.rank(2), None);
    assert_eq!(array.rank(usize::MAX), None);
    assert_eq!(array.rank(1), Some(&[][..]));
    assert_eq!(array.files(2), 0);
    assert!(array.rank_mut(2).is_none());
    let empty: Array<i32> = Array::new();
    assert_eq!(empty.get([0, 0]), None);
    assert_eq!(empty.rank(0), None);
}

#[test]
fn writing_through_get_mut() {
    let mut array = from_parts(vec![2, 3], vec![1, 2, 3, 4, 5]);
    *array.get_mut([1, 0]).unwrap() = 30;
    *array.get_mut([0, 1]).unwrap() = 20;
    assert_eq!(array, from_parts(vec![2, 3], vec![1, 20, 30, 4, 5]));
}

#[test]
fn checked_total_adds_up_or_reports_overflow() {
    assert_eq!(checked_total(&vec![]), Some(0));
    assert_eq!(checked_total(&vec![2, 3, 0, 7]), Some(12));
    assert_eq!(checked_total(&vec![usize::MAX]), Some(usize::MAX));
    assert_eq!(checked_total(&vec![usize::MAX, 1]), None);
    assert_eq!(checked_total(&vec![1, usize::MAX, 0]), None);
}

#[test]
fn try_from_parts_refuses_a_wrong_count() {
    assert_eq!(
        try_from_parts(vec![2, 3], vec![1, 2, 3, 4, 5]),
        Some(from_parts(vec![2, 3], vec![1, 2, 3, 4, 5]))
    );
    assert_eq!(try_from_parts(vec![2, 3], vec![1, 2, 3, 4]), None);
    assert_eq!(try_from_parts(vec![2, 3], vec![1, 2, 3, 4, 5, 6]), None);
    assert_eq!(try_from_parts(vec![usize::MAX, 2], vec![1]), None);
    assert_eq!(try_from_parts::<i32>(vec![], vec![]), Some(Array::new()));
    assert_eq!(try_from_parts::<i32>(vec![0, 0], vec![]).map(|a| a.ranks()), Some(2));
}

#[test]
fn from_elem_fills_every_position() {
    let array = from_elem(1, vec![2, 3]);
    assert_eq!(array, from_parts(vec![2, 3], vec![1, 1, 1, 1, 1]));
    let mut nested = from_elem(vec![0u8], vec![1, 1]);
    nested.get_mut([0, 0]).unwrap().push(1);
    assert_eq!(nested.get([0, 0]), Some(&vec![0u8, 1]));
    assert_eq!(nested.get([1, 0]), Some(&vec![0u8]));
    let none: Array<i32> = from_elem(7, vec![]);
    assert_eq!(none.ranks(), 0);
}

#[test]
fn new_arrays_are_empty() {
    let array: Array<i32> = Array::new();
    assert_eq!(array.ranks(), 0);
    assert_eq!(array.len(), 0);
    let roomy: Array<i32> = Array::with_capacity(16);
    assert_eq!(roomy.ranks(), 0);
    assert_eq!(roomy.len(), 0);
    assert!(roomy.capacity() >= 16);
    assert_eq!(roomy, array);
    assert_eq!(Array::<i32>::default(), array);
}

#[test]
fn reserving_keeps_the_contents() {
    let mut array = from_parts(vec![1, 2], vec![1, 2, 3]);
    array.reserve(100);
    assert!(array.capacity() >= 103);
    assert_eq!(array, from_parts(vec![1, 2], vec![1, 2, 3]));
    array.reserve_exact(500);
    assert!(array.capacity() >= 503);
    assert_eq!(array, from_parts(vec![1, 2], vec![1, 2, 3]));
}

#[test]
fn equality_looks_at_lengths_and_elements() {
    let array = from_parts(vec![1, 2], vec![1, 2, 3]);
    assert_ne!(array, from_parts(vec![2, 1], vec![1, 2, 3]));
    assert_ne!(array, from_parts(vec![1, 2], vec![1, 2, 4]));
    assert_ne!(array, from_parts(vec![1, 2, 0], vec![1, 2, 3]));
    assert_eq!(array, array.clone());
}

#[test]
fn extending_from_slices_and_rows() {
    let mut array: Array<i32> = Array::new();
    array.extend_from_slices(&[&[1, 2][..], &[][..], &[3][..]]);
    assert_eq!(array, from_parts(vec![2, 0, 1], vec![1, 2, 3]));
    array.extend(vec![]);
    assert_eq!(array, from_parts(vec![2, 0, 1], vec![1, 2, 3]));
    let built = Array::from_iter(vec![vec![1, 2], vec![], vec![3]]);
    assert_eq!(built, array);
}

#[test]
fn writing_with_brackets() {
    let mut array = from_parts(vec![2, 3], vec![1, 2, 3, 4, 5]);
    array[[1, 1]] = 40;
    array[0][1] = 20;
    array[1][2] = 50;
    assert_eq!(array, from_parts(vec![2, 3], vec![1, 20, 3, 40, 50]));
    assert_eq!(array[1].len(), 3);
}

#[test]
fn well_formed_arrays_say_so() {
    let mut array = from_parts(vec![2, 3], vec![1, 2, 3, 4, 5]);
    assert!(array.is_well_formed());
    array.insert(2, vec![6]);
    array.remove(0);
    assert!(array.is_well_formed());
    assert!(Array::<u8>::new().is_well_formed());
    assert!(from_elem(0u8, vec![3, 0, 4]).is_well_formed());
}
