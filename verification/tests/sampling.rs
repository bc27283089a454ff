use mcts::montecarlo::{sample_weighted, sum_u128, weighted_index};

#[test]
fn weighted_index_brackets_the_draw() {
    let w: Vec<u64> = vec![7, 3];
    for draw in 0..7u128 {
        assert_eq!(weighted_index(&w, draw), 0);
    }
    for draw in 7..10u128 {
        assert_eq!(weighted_index(&w, draw), 1);
    }
}

#[test]
fn weighted_index_skips_zero_weights() {
    let w: Vec<u64> = vec![0, 5, 0, 2];
    assert_eq!(weighted_index(&w, 0), 1);
    assert_eq!(weighted_index(&w, 4), 1);
    assert_eq!(weighted_index(&w, 5), 3);
    assert_eq!(weighted_index(&w, 6), 3);
}

#[test]
fn sum_u128_adds_everything() {
    assert_eq!(sum_u128(&vec![]), 0);
    assert_eq!(sum_u128(&vec![7, 3]), 10);
    assert_eq!(sum_u128(&vec![u64::MAX, u64::MAX]), 2 * (u64::MAX as u128));
}

#[test]
fn sample_weighted_never_picks_zero_weight() {
    // If the internal draw came back out of range, the cumulative scan
    // would fall through to index 0, whose weight is zero.
    let w: Vec<u64> = vec![0, 5];
    for _ in 0..200 {
        assert_eq!(sample_weighted(&w), 1);
    }
}

#[test]
fn sample_weighted_converges_to_the_distribution() {
    // Weights 7 against 3: over 100_000 draws the first child's
    // frequency must sit within one percent of 0.7.
    let w: Vec<u64> = vec![7, 3];
    let n = 100_000;
    let mut first: u64 = 0;
    for _ in 0..n {
        if sample_weighted(&w) == 0 {
            first += 1;
        }
    }
    let freq = first as f64 / n as f64;
    assert!(freq > 0.69, "frequency {} too low", freq);
    assert!(freq < 0.71, "frequency {} too high", freq);
}
