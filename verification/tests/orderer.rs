use charts::orderer::{order_layers, Score};
use charts::sankey::LayerOrderingMethod;

#[test]
fn layer_is_sorted_by_the_place_of_its_neighbours() {
    let edges = vec![(0, 3), (1, 2)];
    let layers = vec![vec![0, 1], vec![2, 3]];
    for method in [LayerOrderingMethod::Barycenter, LayerOrderingMethod::Median] {
        assert_eq!(order_layers(method, 4, &edges, &layers), vec![vec![0, 1], vec![3, 2]]);
    }
}

#[test]
fn barycenter_and_median_can_disagree() {
    // node 10 hangs on places 0, 0 and 9: average 3, median 0
    // node 11 hangs on place 2 twice: average 2, median 2
    let edges = vec![(0, 10), (0, 10), (9, 10), (2, 11), (2, 11)];
    let layers = vec![(0..10).collect::<Vec<usize>>(), vec![10, 11]];
    assert_eq!(
        order_layers(LayerOrderingMethod::Barycenter, 12, &edges, &layers)[1],
        vec![11, 10]
    );
    assert_eq!(order_layers(LayerOrderingMethod::Median, 12, &edges, &layers)[1], vec![10, 11]);
}

#[test]
fn median_of_an_even_count_lies_between_the_middle_two() {
    // node 5 hangs on places 1 and 4: median 5/2
    // node 6 on place 2, node 7 on place 3
    let edges = vec![(1, 5), (4, 5), (3, 7), (2, 6)];
    let layers = vec![vec![0, 1, 2, 3, 4], vec![5, 7, 6]];
    assert_eq!(order_layers(LayerOrderingMethod::Median, 8, &edges, &layers)[1], vec![6, 5, 7]);
}

#[test]
fn nodes_without_neighbours_score_zero_and_ties_keep_their_order() {
    // 4 and 6 have no edge from the layer before; 5 hangs on place 0
    let edges = vec![(0, 5)];
    let layers = vec![vec![0, 1], vec![6, 5, 4]];
    assert_eq!(
        order_layers(LayerOrderingMethod::Barycenter, 7, &edges, &layers)[1],
        vec![6, 5, 4]
    );
    // 5 on place 1 now comes last
    let edges = vec![(1, 5)];
    assert_eq!(
        order_layers(LayerOrderingMethod::Barycenter, 7, &edges, &layers)[1],
        vec![6, 4, 5]
    );
}

#[test]
fn each_layer_is_ordered_against_the_final_order_of_the_one_before() {
    // layer 1 is turned round, and layer 2 follows the new places
    let edges = vec![(0, 3), (1, 2), (2, 4), (3, 5)];
    let layers = vec![vec![0, 1], vec![2, 3], vec![4, 5]];
    assert_eq!(
        order_layers(LayerOrderingMethod::Barycenter, 6, &edges, &layers),
        vec![vec![0, 1], vec![3, 2], vec![5, 4]]
    );
}

#[test]
fn edges_that_skip_a_layer_do_not_count() {
    // 0 -> 4 skips layer 1, so 4 scores by 2 alone
    let edges = vec![(0, 4), (1, 2), (0, 3), (2, 4), (3, 5)];
    let layers = vec![vec![0, 1], vec![2, 3], vec![4, 5]];
    assert_eq!(
        order_layers(LayerOrderingMethod::Barycenter, 6, &edges, &layers),
        vec![vec![0, 1], vec![3, 2], vec![5, 4]]
    );
}

#[test]
fn ordering_twice_changes_nothing() {
    let edges = vec![(0, 5), (1, 4), (2, 3), (0, 3), (3, 6), (5, 7), (4, 7), (4, 6)];
    let layers = vec![vec![0, 1, 2], vec![3, 4, 5], vec![6, 7]];
    for method in [LayerOrderingMethod::Barycenter, LayerOrderingMethod::Median] {
        let once = order_layers(method, 8, &edges, &layers);
        let twice = order_layers(method, 8, &edges, &once);
        assert_eq!(once, twice);
    }
}

#[test]
fn empty_layers_stay_empty() {
    let none: Vec<Vec<usize>> = vec![];
    assert_eq!(order_layers(LayerOrderingMethod::Barycenter, 0, &vec![], &none), none);
    assert_eq!(
        order_layers(LayerOrderingMethod::Median, 1, &vec![], &vec![vec![0], vec![]]),
        vec![vec![0], vec![]]
    );
}

#[test]
fn scores_compare_as_quotients() {
    let third = Score { num: 1, den: 3 };
    let half = Score { num: 1, den: 2 };
    let two_quarters = Score { num: 2, den: 4 };
    assert!(third.le(&half));
    assert!(!half.le(&third));
    assert!(half.le(&two_quarters) && two_quarters.le(&half));
    let huge = Score { num: u128::MAX, den: u64::MAX };
    let huger = Score { num: u128::MAX, den: u64::MAX - 1 };
    assert!(huge.le(&huger));
    assert!(!huger.le(&huge));
    // a divisor of 0 stands for 1
    assert!(Score { num: 3, den: 0 }.le(&Score { num: 3, den: 1 }));
    assert!(Score { num: 3, den: 1 }.le(&Score { num: 3, den: 0 }));
}
