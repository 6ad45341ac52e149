use charts::orderer::{Score, ScoredNode};
use charts::ranking::stable_sort;

#[test]
fn numbers_are_sorted_ascending() {
    assert_eq!(stable_sort(&vec![3usize, 1, 2, 1, 0]), vec![0, 1, 1, 2, 3]);
    assert_eq!(stable_sort(&Vec::<usize>::new()), Vec::<usize>::new());
}

#[test]
fn equal_ranks_keep_their_order() {
    let at = |node: usize, num: u128| ScoredNode { node, score: Score { num, den: 1 } };
    let sorted = stable_sort(&vec![at(0, 2), at(1, 1), at(2, 2), at(3, 1), at(4, 0)]);
    let nodes: Vec<usize> = sorted.iter().map(|s| s.node).collect();
    assert_eq!(nodes, vec![4, 1, 3, 0, 2]);
}

#[test]
fn sorting_what_is_sorted_changes_nothing() {
    let once = stable_sort(&vec![5usize, 4, 4, 9, 0]);
    assert_eq!(stable_sort(&once), once);
}
