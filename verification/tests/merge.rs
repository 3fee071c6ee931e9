use chat_searcher::merge::{MergeAnd, MergeOr};

#[test]
fn union_of_sorted_lists() {
    let left = vec![1usize, 3, 5, 7];
    let right = vec![2usize, 3, 4, 7, 9];
    assert_eq!(MergeOr::new(&left, &right).collect(), vec![1, 2, 3, 4, 5, 7, 9]);
}

#[test]
fn intersection_of_sorted_lists() {
    let left = vec![1usize, 3, 5, 7];
    let right = vec![2usize, 3, 4, 7, 9];
    assert_eq!(MergeAnd::new(&left, &right).collect(), vec![3, 7]);
}

#[test]
fn merge_with_itself_is_identity() {
    let list = vec![0usize, 2, 4, 8, 16];
    assert_eq!(MergeOr::new(&list, &list).collect(), list);
    assert_eq!(MergeAnd::new(&list, &list).collect(), list);
}

#[test]
fn merges_are_commutative() {
    let left = vec![1usize, 4, 6];
    let right = vec![0usize, 4, 5, 6, 10];
    assert_eq!(
        MergeOr::new(&left, &right).collect(),
        MergeOr::new(&right, &left).collect()
    );
    assert_eq!(
        MergeAnd::new(&left, &right).collect(),
        MergeAnd::new(&right, &left).collect()
    );
}

#[test]
fn merge_with_empty_list() {
    let list = vec![1usize, 2, 3];
    let empty: Vec<usize> = Vec::new();
    assert_eq!(MergeOr::new(&list, &empty).collect(), list);
    assert_eq!(MergeOr::new(&empty, &list).collect(), list);
    assert_eq!(MergeOr::new(&empty, &empty).collect(), empty);
    assert_eq!(MergeAnd::new(&list, &empty).collect(), empty);
    assert_eq!(MergeAnd::new(&empty, &list).collect(), empty);
}

#[test]
fn disjoint_lists() {
    let left = vec![1usize, 3];
    let right = vec![2usize, 4];
    assert_eq!(MergeOr::new(&left, &right).collect(), vec![1, 2, 3, 4]);
    assert_eq!(MergeAnd::new(&left, &right).collect(), Vec::<usize>::new());
}

#[test]
fn union_element_by_element() {
    let left = vec![1usize, 2];
    let right = vec![2usize, 3];
    let mut merge = MergeOr::new(&left, &right);
    assert_eq!(merge.next(), Some(1));
    assert_eq!(merge.next(), Some(2));
    assert_eq!(merge.next(), Some(3));
    assert_eq!(merge.next(), None);
    assert_eq!(merge.next(), None);
}

#[test]
fn intersection_element_by_element() {
    let left = vec![1usize, 2, 5, 6];
    let right = vec![2usize, 3, 6, 7];
    let mut merge = MergeAnd::new(&left, &right);
    assert_eq!(merge.next(), Some(2));
    assert_eq!(merge.next(), Some(6));
    assert_eq!(merge.next(), None);
    assert_eq!(merge.next(), None);
}
