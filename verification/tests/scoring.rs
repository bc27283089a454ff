use mcts::score::{isqrt, ln_fp, log2_floor, score_is_le, uct_score, Score, LN2_FP};
use mcts::SCALE;

#[test]
fn isqrt_exact_values() {
    assert_eq!(isqrt(0), 0);
    assert_eq!(isqrt(1), 1);
    assert_eq!(isqrt(3), 1);
    assert_eq!(isqrt(4), 2);
    assert_eq!(isqrt(15), 3);
    assert_eq!(isqrt(16), 4);
    assert_eq!(isqrt(1_000_000), 1000);
    assert_eq!(isqrt(u64::MAX), 4_294_967_295);
}

#[test]
fn log2_floor_exact_values() {
    assert_eq!(log2_floor(1), 0);
    assert_eq!(log2_floor(2), 1);
    assert_eq!(log2_floor(3), 1);
    assert_eq!(log2_floor(4), 2);
    assert_eq!(log2_floor(1024), 10);
    assert_eq!(log2_floor(u64::MAX), 63);
}

#[test]
fn ln_fp_exact_values() {
    // ln(1) = 0, and powers of two are exact multiples of ln(2).
    assert_eq!(ln_fp(1), 0);
    assert_eq!(ln_fp(2), LN2_FP);
    assert_eq!(ln_fp(4), 2 * LN2_FP);
    // ln(3): one power of two plus the series on the 1.5 mantissa.
    assert_eq!(ln_fp(3), 1_098_607);
    // The true value in millionths is 1_098_612: the series is close.
    assert!((ln_fp(3) as i64 - 1_098_612i64).abs() < 10);
    // ln(10) in millionths is 2_302_585.
    assert!((ln_fp(10) as i64 - 2_302_585i64).abs() < 20);
}

#[test]
fn uct_score_zero_exploration_is_win_rate() {
    // With a zero exploration constant the score is the fixed-point
    // win rate alone.
    assert_eq!(uct_score(10, 20, 100, 0), SCALE / 2);
    assert_eq!(uct_score(0, 25, 25, 0), 0);
    assert_eq!(uct_score(25, 25, 25, 0), SCALE);
}

#[test]
fn uct_score_monotone_in_wins() {
    // Equal games, equal parent, equal exploration: more wins never
    // scores lower.
    let c = 1_414_214;
    let lo = uct_score(5, 20, 100, c);
    let hi = uct_score(10, 20, 100, c);
    assert!(lo <= hi);
    assert!(uct_score(19, 20, 100, c) > uct_score(1, 20, 100, c));
}

#[test]
fn uct_score_exploration_grows_with_parent_games() {
    // With no wins the whole score is the exploration term, which grows
    // with the parent's games and shrinks with the child's.
    let c = 1_414_214;
    assert!(uct_score(0, 10, 1000, c) > uct_score(0, 10, 100, c));
    assert!(uct_score(0, 10, 1000, c) > uct_score(0, 100, 1000, c));
}

#[test]
fn score_order_puts_unbounded_on_top() {
    assert!(score_is_le(Score::Finite(u64::MAX), Score::Unbounded));
    assert!(!score_is_le(Score::Unbounded, Score::Finite(u64::MAX)));
    assert!(score_is_le(Score::Unbounded, Score::Unbounded));
    assert!(score_is_le(Score::Finite(3), Score::Finite(4)));
    assert!(!score_is_le(Score::Finite(4), Score::Finite(3)));
}
