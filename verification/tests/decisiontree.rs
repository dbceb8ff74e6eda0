use dtree::decisiontree::{
    all_same_label, collect_labels, cond_entropy, info_gain_ratio_binary, majority_label,
    partition, BuildError, DNode, DTree,
};
use dtree::entropy::{count_matching, distinct_labels};
use dtree::feature::{TwoTuple, TwoTupleIdx};

fn two_cluster_pairs() -> Vec<(TwoTuple<u64>, u64)> {
    vec![
        (TwoTuple { x1: 10, x2: 0 }, 1),
        (TwoTuple { x1: 20, x2: 0 }, 1),
        (TwoTuple { x1: 90, x2: 0 }, 2),
        (TwoTuple { x1: 95, x2: 0 }, 2),
    ]
}

#[test]
fn test_gain_ratio_prefers_pure_split() {
    let pairs = two_cluster_pairs();
    let s90 = info_gain_ratio_binary(&pairs, &TwoTupleIdx::X1, &90);
    let s20 = info_gain_ratio_binary(&pairs, &TwoTupleIdx::X1, &20);
    let s95 = info_gain_ratio_binary(&pairs, &TwoTupleIdx::X1, &95);
    assert_eq!(s90, 65536);
    assert_eq!(s20, 32768);
    assert_eq!(s95, 32768);
    assert!(s90 > s20);
}

#[test]
fn test_build_depth_one_pure_partitions() {
    let pairs = two_cluster_pairs();
    let tree = DTree::build(&pairs).unwrap();
    match tree.root() {
        DNode::Internal { ftr_idx, thresh, lchild, rchild } => {
            assert!(matches!(ftr_idx, TwoTupleIdx::X1));
            assert_eq!(*thresh, 90);
            assert!(matches!(**lchild, DNode::Leaf { label: 1 }));
            assert!(matches!(**rchild, DNode::Leaf { label: 2 }));
        }
        DNode::Leaf { .. } => panic!("expected an internal root"),
    }
}

#[test]
fn test_determine_candidate_split_best() {
    let pairs = two_cluster_pairs();
    let idxs = vec![TwoTupleIdx::X1, TwoTupleIdx::X2];
    let best = DTree::determine_candidate_split(&pairs, &idxs).unwrap();
    assert_eq!(best.0, 0);
    assert_eq!(best.1, 90);
}

#[test]
fn test_pure_training_single_leaf() {
    for n in [1u64, 3, 9, 40] {
        let pairs: Vec<(TwoTuple<u64>, u64)> = (0..n)
            .map(|i| (TwoTuple { x1: i, x2: 2 * i }, 7))
            .collect();
        let tree = DTree::build(&pairs).unwrap();
        assert!(matches!(tree.root(), DNode::Leaf { label: 7 }));
    }
}

#[test]
fn test_constant_features_majority_leaf() {
    let pairs: Vec<(TwoTuple<u64>, u64)> = vec![
        (TwoTuple { x1: 5, x2: 3 }, 1),
        (TwoTuple { x1: 5, x2: 3 }, 2),
        (TwoTuple { x1: 5, x2: 3 }, 1),
    ];
    let tree = DTree::build(&pairs).unwrap();
    assert!(matches!(tree.root(), DNode::Leaf { label: 1 }));
}

#[test]
fn test_constant_features_tie_smallest_label() {
    let pairs: Vec<(TwoTuple<u64>, u64)> = vec![
        (TwoTuple { x1: 5, x2: 3 }, 9),
        (TwoTuple { x1: 5, x2: 3 }, 4),
    ];
    let tree = DTree::build(&pairs).unwrap();
    assert!(matches!(tree.root(), DNode::Leaf { label: 4 }));
}

#[test]
fn test_second_feature_split() {
    let pairs: Vec<(TwoTuple<u64>, u64)> = vec![
        (TwoTuple { x1: 5, x2: 10 }, 1),
        (TwoTuple { x1: 5, x2: 90 }, 2),
    ];
    let tree = DTree::build(&pairs).unwrap();
    match tree.root() {
        DNode::Internal { ftr_idx, thresh, lchild, rchild } => {
            assert!(matches!(ftr_idx, TwoTupleIdx::X2));
            assert_eq!(*thresh, 90);
            assert!(matches!(**lchild, DNode::Leaf { label: 1 }));
            assert!(matches!(**rchild, DNode::Leaf { label: 2 }));
        }
        DNode::Leaf { .. } => panic!("expected an internal root"),
    }
}

#[test]
fn test_round_trip_zero_error() {
    let pairs: Vec<(TwoTuple<u64>, u64)> = vec![
        (TwoTuple { x1: 10, x2: 100 }, 1),
        (TwoTuple { x1: 20, x2: 90 }, 1),
        (TwoTuple { x1: 30, x2: 80 }, 2),
        (TwoTuple { x1: 40, x2: 70 }, 2),
        (TwoTuple { x1: 90, x2: 60 }, 3),
        (TwoTuple { x1: 95, x2: 50 }, 3),
    ];
    let tree = DTree::build(&pairs).unwrap();
    let mut errors = 0;
    for (v, lab) in &pairs {
        if tree.decide(v) != *lab {
            errors += 1;
        }
    }
    assert_eq!(errors, 0);
}

#[test]
fn test_decide_idempotent() {
    let pairs = two_cluster_pairs();
    let tree = DTree::build(&pairs).unwrap();
    let seen = TwoTuple { x1: 20, x2: 0 };
    let fresh = TwoTuple { x1: 55, x2: 7 };
    let first_seen = tree.decide(&seen);
    let first_fresh = tree.decide(&fresh);
    for _ in 0..5 {
        assert_eq!(tree.decide(&seen), first_seen);
        assert_eq!(tree.decide(&fresh), first_fresh);
    }
    assert_eq!(first_seen, 1);
}

#[test]
fn test_max_depth_zero_majority_leaf() {
    let pairs = two_cluster_pairs();
    let tree = DTree::build_with_options(&pairs, 0, 0).unwrap();
    assert!(matches!(tree.root(), DNode::Leaf { label: 1 }));
}

#[test]
fn test_max_depth_one_suffices_here() {
    let pairs = two_cluster_pairs();
    let tree = DTree::build_with_options(&pairs, 1, 0).unwrap();
    match tree.root() {
        DNode::Internal { thresh, lchild, rchild, .. } => {
            assert_eq!(*thresh, 90);
            assert!(matches!(**lchild, DNode::Leaf { label: 1 }));
            assert!(matches!(**rchild, DNode::Leaf { label: 2 }));
        }
        DNode::Leaf { .. } => panic!("expected an internal root"),
    }
}

#[test]
fn test_min_size_stops_splitting() {
    let pairs: Vec<(TwoTuple<u64>, u64)> = vec![
        (TwoTuple { x1: 10, x2: 0 }, 1),
        (TwoTuple { x1: 20, x2: 0 }, 1),
        (TwoTuple { x1: 30, x2: 0 }, 2),
    ];
    let tree = DTree::build_with_options(&pairs, 10, 3).unwrap();
    assert!(matches!(tree.root(), DNode::Leaf { label: 1 }));
}

#[test]
fn test_generous_options_agree_with_default() {
    let pairs: Vec<(TwoTuple<u64>, u64)> = vec![
        (TwoTuple { x1: 10, x2: 100 }, 1),
        (TwoTuple { x1: 20, x2: 90 }, 1),
        (TwoTuple { x1: 30, x2: 80 }, 2),
        (TwoTuple { x1: 40, x2: 70 }, 2),
        (TwoTuple { x1: 90, x2: 60 }, 3),
    ];
    let unlimited = DTree::build(&pairs).unwrap();
    let generous = DTree::build_with_options(&pairs, pairs.len() as u64, 0).unwrap();
    for (v, _) in &pairs {
        assert_eq!(unlimited.decide(v), generous.decide(v));
    }
}

#[test]
fn test_empty_training_invalid_input() {
    let pairs: Vec<(TwoTuple<u64>, u64)> = Vec::new();
    assert!(matches!(DTree::build(&pairs), Err(BuildError::InvalidInput)));
}

#[test]
fn test_majority_label_and_ties() {
    let mk = |lab: u64| (TwoTuple { x1: 0u64, x2: 0 }, lab);
    assert_eq!(majority_label(&vec![mk(1), mk(2), mk(2), mk(3)]), 2);
    assert_eq!(majority_label(&vec![mk(2), mk(1), mk(2), mk(1)]), 1);
    assert_eq!(majority_label(&vec![mk(9)]), 9);
}

#[test]
fn test_label_helpers() {
    let pairs = two_cluster_pairs();
    let labels = collect_labels(&pairs);
    assert_eq!(labels, vec![1, 1, 2, 2]);
    assert_eq!(distinct_labels(&labels), vec![1, 2]);
    assert_eq!(count_matching(&labels, &1), 2);
    assert_eq!(count_matching(&labels, &7), 0);
    assert!(!all_same_label(&pairs));
}

#[test]
fn test_cond_entropy_and_partition() {
    let pairs = two_cluster_pairs();
    assert_eq!(cond_entropy(&pairs, &TwoTupleIdx::X1, &90), 0);
    assert_eq!(cond_entropy(&pairs, &TwoTupleIdx::X1, &20), 32768);
    let (below, above) = partition(&pairs, &TwoTupleIdx::X1, &90);
    assert_eq!(below.len(), 2);
    assert_eq!(above.len(), 2);
    assert!(below.iter().all(|p| p.0.x1 < 90));
    assert!(above.iter().all(|p| p.0.x1 >= 90));
}
