use dtree::entropy::{entropy_binary, lg2_fixed, ENTROPY_ONE};

#[test]
fn test_bernoulli_entropy() {
    let test: Vec<f64> = (1..=10).map(|x| (x as f64 / 10.0)).collect();
    let half: Vec<bool> = test.iter().map(|x| *x < 0.55).collect();
    assert_eq!(entropy_binary(&half), ENTROPY_ONE);
    let uniform: Vec<bool> = test.iter().map(|_| true).collect();
    assert_eq!(entropy_binary(&uniform), 0);
}

#[test]
fn test_entropy_single_label_zero() {
    for n in [1usize, 2, 3, 17, 1000] {
        let labels: Vec<u64> = vec![5; n];
        assert_eq!(entropy_binary(&labels), 0);
    }
}

#[test]
fn test_entropy_balanced_one_bit() {
    for c in [1usize, 2, 5, 500] {
        let mut labels: Vec<u64> = vec![1; c];
        for _ in 0..c {
            labels.push(2);
        }
        assert_eq!(entropy_binary(&labels), ENTROPY_ONE);
    }
}

#[test]
fn test_entropy_unbalanced_between_zero_and_one() {
    let labels: Vec<u64> = vec![1, 1, 1, 2];
    let h = entropy_binary(&labels);
    assert!(h > 0);
    assert!(h < ENTROPY_ONE);
    assert_eq!(h, 53167);
}

#[test]
fn test_entropy_exact_fixed_point_values() {
    // log2(3) in 1/65536 bits is 103872.10..; the truncating fixed-point
    // computation lands just below it, and similarly for the others.
    assert_eq!(entropy_binary(&vec![1u64, 2, 3]), 103872);
    assert_eq!(entropy_binary(&vec![1u64, 1, 2]), 60181);
}

#[test]
fn test_entropy_empty_is_zero() {
    let labels: Vec<u64> = Vec::new();
    assert_eq!(entropy_binary(&labels), 0);
}

#[test]
fn test_lg2_fixed_exact_at_powers_of_two() {
    assert_eq!(lg2_fixed(1, 1), 0);
    assert_eq!(lg2_fixed(2, 1), 65536);
    assert_eq!(lg2_fixed(4, 1), 2 * 65536);
    assert_eq!(lg2_fixed(8, 1), 3 * 65536);
    assert_eq!(lg2_fixed(6, 3), 65536);
    assert_eq!(lg2_fixed(7, 7), 0);
}
