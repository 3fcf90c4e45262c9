use dutop::ranking::{rearrange, sort_descending};

#[test]
fn larger_sizes_come_first() {
    assert_eq!(sort_descending(&vec![]), Vec::<usize>::new());
    assert_eq!(sort_descending(&vec![5]), vec![0]);
    assert_eq!(sort_descending(&vec![1, 2, 3]), vec![2, 1, 0]);
    assert_eq!(sort_descending(&vec![3, 2, 1]), vec![0, 1, 2]);
    assert_eq!(sort_descending(&vec![10, 30, 20, 0, u64::MAX]), vec![4, 1, 2, 0, 3]);
}

#[test]
fn equal_sizes_keep_their_order() {
    assert_eq!(sort_descending(&vec![7, 7, 7, 7]), vec![0, 1, 2, 3]);
    assert_eq!(sort_descending(&vec![1, 2, 1, 2, 1, 2]), vec![1, 3, 5, 0, 2, 4]);
    assert_eq!(sort_descending(&vec![0, 9, 0, 9, 5]), vec![1, 3, 4, 0, 2]);
}

#[test]
fn the_order_is_that_of_a_stable_sort() {
    let mut state: u64 = 99;
    for length in [2usize, 3, 7, 8, 9, 64, 100, 1023, 5000] {
        let mut sizes = Vec::new();
        for _ in 0..length {
            state = state.wrapping_mul(6364136223846793005).wrapping_add(1442695040888963407);
            sizes.push((state >> 40) % 17);
        }
        let mut expected: Vec<usize> = (0..length).collect();
        expected.sort_by(|a, b| sizes[*b].cmp(&sizes[*a]));
        assert_eq!(sort_descending(&sizes), expected);
    }
}

#[test]
fn items_are_taken_in_the_given_order() {
    let items = vec!["a".to_string(), "b".to_string(), "c".to_string(), "d".to_string()];
    assert_eq!(rearrange(items, &vec![2, 0, 3, 1]), vec!["c", "a", "d", "b"]);
    assert_eq!(rearrange(Vec::<u8>::new(), &vec![]), Vec::<u8>::new());
    assert_eq!(rearrange(vec![1, 2, 3], &vec![0, 1, 2]), vec![1, 2, 3]);
    let sizes = vec![4u64, 8, 4, 15, 8];
    let order = sort_descending(&sizes);
    assert_eq!(rearrange(sizes, &order), vec![15, 8, 8, 4, 4]);
}
