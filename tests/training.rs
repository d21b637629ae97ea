use neural::training::{
    backward_plan, count_matches, layer_shapes, reorder, traversal_order, BackStep, Batcher,
};

#[test]
fn traversal_order_is_storage_order() {
    assert_eq!(traversal_order(4), vec![0, 1, 2, 3]);
    assert_eq!(traversal_order(0), Vec::<usize>::new());
}

#[test]
fn reorder_without_shuffle_keeps_order() {
    let mut o = traversal_order(6);
    reorder(&mut o, false);
    assert_eq!(o, vec![0, 1, 2, 3, 4, 5]);
}

#[test]
fn reorder_with_shuffle_is_a_permutation() {
    let mut o = traversal_order(50);
    reorder(&mut o, true);
    assert_eq!(o.len(), 50);
    let mut sorted = o.clone();
    sorted.sort();
    assert_eq!(sorted, traversal_order(50));
}

#[test]
fn batcher_applies_full_and_short_batches() {
    let mut b = Batcher::new(3);
    let n = 7;
    let mut applied = Vec::new();
    for i in 0..n {
        if let Some(c) = b.record(i + 1 == n) {
            applied.push(c);
        }
    }
    assert_eq!(applied, vec![3, 3, 1]);
    assert_eq!(applied.iter().sum::<usize>(), n);
}

#[test]
fn batcher_of_one_applies_every_sample() {
    let mut b = Batcher::new(1);
    assert_eq!(b.record(false), Some(1));
    assert_eq!(b.record(true), Some(1));
}

#[test]
fn batcher_larger_than_epoch() {
    let mut b = Batcher::new(32);
    assert_eq!(b.record(false), None);
    assert_eq!(b.record(true), Some(2));
    assert_eq!(b.record(false), None);
}

#[test]
fn layer_shapes_chain() {
    assert_eq!(layer_shapes(&vec![784, 450, 10]), vec![(450, 784), (10, 450)]);
    assert_eq!(layer_shapes(&vec![1, 1]), vec![(1, 1)]);
    assert_eq!(layer_shapes(&vec![5]), vec![]);
    assert_eq!(layer_shapes(&vec![]), vec![]);
}

#[test]
fn accuracy_counts() {
    let labels = vec![(3, 0), (1, 0), (7, 0)];
    assert_eq!(count_matches(&labels.clone(), &labels), 3);
    let wrong = vec![(0, 0), (0, 0), (0, 0)];
    assert_eq!(count_matches(&wrong, &labels), 0);
    let some = vec![(3, 0), (2, 0), (7, 0)];
    assert_eq!(count_matches(&some, &labels), 2);
    assert_eq!(count_matches(&vec![], &vec![]), 0);
}

#[test]
fn backward_plan_walks_last_to_first() {
    let plan = backward_plan(3);
    assert_eq!(
        plan,
        vec![
            BackStep { layer: 2, input: 2, prev: Some(1) },
            BackStep { layer: 1, input: 1, prev: Some(0) },
            BackStep { layer: 0, input: 0, prev: None },
        ]
    );
    assert_eq!(backward_plan(1), vec![BackStep { layer: 0, input: 0, prev: None }]);
    assert_eq!(backward_plan(0), vec![]);
}
