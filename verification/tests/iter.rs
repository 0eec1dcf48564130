use jagged_array::{from_parts, Array};

#[test]
fn test_iter() {
    let array = from_parts(vec![1, 2], vec![1, 2, 3]);
    let mut iter = array.iter();
    let mut elements = Vec::new();
    while let Some(rank) = iter.next() {
        elements.push(rank);
    }
    assert_eq!(elements, vec![vec![1], vec![2, 3]],);
}

#[test]
fn test_iter_mut() {
    let mut array = from_parts(vec![1, 2], vec![1, 2, 3]);
    let mut iter = array.iter_mut();
    let mut elements = Vec::new();
    while let Some(rank) = iter.next() {
        elements.push(rank);
    }
    assert_eq!(elements, vec![vec![1], vec![2, 3]],);
}

#[test]
fn test_into_iter() {
    let array = from_parts(vec![1, 2], vec![1, 2, 3]);
    let mut iter = array.into_iter();
    let mut elements = Vec::new();
    while let Some(item) = iter.next() {
        elements.push(item);
    }
    assert_eq!(elements, vec![([0, 0], 1), ([1, 0], 2), ([1, 1], 3)],);
}

#[test]
fn rows_come_out_as_the_length_table_says() {
    let dims = vec![0, 2, 0, 3, 1, 0];
    let array = from_parts(dims.clone(), vec![1, 2, 3, 4, 5, 6]);
    let mut iter = array.iter();
    assert_eq!(iter.size_hint(), (6, Some(6)));
    let mut count = 0;
    let mut consumed = 0;
    while let Some(rank) = iter.next() {
        assert_eq!(rank.len(), dims[count]);
        assert_eq!(array.rank(count), Some(rank));
        count += 1;
        consumed += rank.len();
        assert_eq!(iter.size_hint(), (6 - count, Some(6 - count)));
    }
    assert_eq!(count, array.ranks());
    assert_eq!(consumed, array.len());
    assert_eq!(iter.next(), None);
    assert_eq!(iter.size_hint(), (0, Some(0)));
}

#[test]
fn a_cloned_iterator_goes_on_from_the_same_place() {
    let array = from_parts(vec![1, 2], vec![1, 2, 3]);
    let mut iter = array.iter();
    assert_eq!(iter.next(), Some(&[1][..]));
    let mut copy = iter.clone();
    assert_eq!(iter.next(), Some(&[2, 3][..]));
    assert_eq!(copy.next(), Some(&[2, 3][..]));
    assert_eq!(copy.next(), None);
}

#[test]
fn mutable_rows_come_out_as_the_length_table_says() {
    let dims = vec![2, 0, 3];
    let mut array = from_parts(dims.clone(), vec![1, 2, 3, 4, 5]);
    let mut iter = array.iter_mut();
    assert_eq!(iter.size_hint(), (3, Some(3)));
    let mut count = 0;
    let mut consumed = 0;
    let mut rows = Vec::new();
    while let Some(rank) = iter.next() {
        assert_eq!(rank.len(), dims[count]);
        count += 1;
        consumed += rank.len();
        rows.push(rank);
    }
    assert!(iter.next().is_none());
    assert_eq!(count, 3);
    assert_eq!(consumed, 5);
    for row in rows.iter_mut() {
        for x in row.iter_mut() {
            *x *= 10;
        }
    }
    rows[2][0] = 0;
    rows[0][1] = 7;
    assert_eq!(array, from_parts(vec![2, 0, 3], vec![10, 7, 0, 40, 50]));
}

#[test]
fn every_element_comes_out_once_with_its_place() {
    let dims = vec![0, 2, 0, 1, 0];
    let array = from_parts(dims.clone(), vec!['a', 'b', 'c']);
    let mut iter = array.into_iter();
    assert_eq!(iter.size_hint(), (3, Some(3)));
    assert_eq!(iter.next(), Some(([1, 0], 'a')));
    assert_eq!(iter.size_hint(), (2, Some(2)));
    assert_eq!(iter.next(), Some(([1, 1], 'b')));
    assert_eq!(iter.next(), Some(([3, 0], 'c')));
    assert_eq!(iter.size_hint(), (0, Some(0)));
    assert_eq!(iter.next(), None);
    assert_eq!(iter.next(), None);
}

#[test]
fn files_stay_inside_their_rows() {
    let dims = vec![3, 1, 4];
    let array = from_parts(dims.clone(), (0..8).collect());
    let mut iter = array.into_iter();
    let mut count = 0;
    while let Some(([rank, file], value)) = iter.next() {
        assert!(rank < dims.len());
        assert!(file < dims[rank]);
        assert_eq!(value, count);
        count += 1;
    }
    assert_eq!(count, 8);
}

#[test]
fn iterating_an_empty_array() {
    let mut array: Array<i32> = Array::new();
    assert_eq!(array.iter().next(), None);
    assert!(array.iter_mut().next().is_none());
    assert_eq!(array.into_iter().next(), None);
    let hollow: Array<i32> = from_parts(vec![0, 0], vec![]);
    let mut iter = hollow.iter();
    assert_eq!(iter.next(), Some(&[][..]));
    assert_eq!(iter.next(), Some(&[][..]));
    assert_eq!(iter.next(), None);
    assert_eq!(hollow.into_iter().next(), None);
}
