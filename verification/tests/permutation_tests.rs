use crep_indexer::permutation::PermutationIterator;

#[test]
fn permutation_test_permutation() {
    let mut itr = PermutationIterator::new(&[1, 2, 3]);

    assert_eq!(itr.next(), Some(vec![0, 0, 0]));
    assert_eq!(itr.next(), Some(vec![0, 0, 1]));
    assert_eq!(itr.next(), Some(vec![0, 0, 2]));
    assert_eq!(itr.next(), Some(vec![0, 1, 0]));
    assert_eq!(itr.next(), Some(vec![0, 1, 1]));
    assert_eq!(itr.next(), Some(vec![0, 1, 2]));
    assert_eq!(itr.next(), None);
}

#[test]
fn permutation_test_permutation_all_ones() {
    let mut itr = PermutationIterator::new(&[1, 1, 1]);

    assert_eq!(itr.next(), Some(vec![0, 0, 0]));
    assert_eq!(itr.next(), None);
}

#[test]
fn permutation_test_permutation_binary() {
    let mut itr = PermutationIterator::new(&[2, 2, 2]);

    assert_eq!(itr.next(), Some(vec![0, 0, 0]));
    assert_eq!(itr.next(), Some(vec![0, 0, 1]));
    assert_eq!(itr.next(), Some(vec![0, 1, 0]));
    assert_eq!(itr.next(), Some(vec![0, 1, 1]));
    assert_eq!(itr.next(), Some(vec![1, 0, 0]));
    assert_eq!(itr.next(), Some(vec![1, 0, 1]));
    assert_eq!(itr.next(), Some(vec![1, 1, 0]));
    assert_eq!(itr.next(), Some(vec![1, 1, 1]));
    assert_eq!(itr.next(), None);
}

#[test]
fn searcher_test_permutation() {
    let mut itr = PermutationIterator::new(&[1, 2, 3]);

    assert_eq!(itr.next(), Some(vec![0, 0, 0]));
    assert_eq!(itr.next(), Some(vec![0, 0, 1]));
    assert_eq!(itr.next(), Some(vec![0, 0, 2]));
    assert_eq!(itr.next(), Some(vec![0, 1, 0]));
    assert_eq!(itr.next(), Some(vec![0, 1, 1]));
    assert_eq!(itr.next(), Some(vec![0, 1, 2]));
    assert_eq!(itr.next(), None);
}

#[test]
fn searcher_test_permutation_all_ones() {
    let mut itr = PermutationIterator::new(&[1, 1, 1]);

    assert_eq!(itr.next(), Some(vec![0, 0, 0]));
    assert_eq!(itr.next(), None);
}

#[test]
fn searcher_test_permutation_binary() {
    let mut itr = PermutationIterator::new(&[2, 2, 2]);

    assert_eq!(itr.next(), Some(vec![0, 0, 0]));
    assert_eq!(itr.next(), Some(vec![0, 0, 1]));
    assert_eq!(itr.next(), Some(vec![0, 1, 0]));
    assert_eq!(itr.next(), Some(vec![0, 1, 1]));
    assert_eq!(itr.next(), Some(vec![1, 0, 0]));
    assert_eq!(itr.next(), Some(vec![1, 0, 1]));
    assert_eq!(itr.next(), Some(vec![1, 1, 0]));
    assert_eq!(itr.next(), Some(vec![1, 1, 1]));
    assert_eq!(itr.next(), None);
}

#[test]
fn permutation_of_nothing_is_one_empty_pick() {
    let mut itr = PermutationIterator::new(&[]);

    assert_eq!(itr.next(), Some(vec![]));
    assert_eq!(itr.next(), None);
    assert_eq!(itr.next(), None);
}
