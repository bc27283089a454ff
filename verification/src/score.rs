//! Selection scores for tree nodes.
//!
//! A node's score is either the unbounded sentinel (an untried node, always
//! preferred over any finite-scored sibling) or a finite fixed-point value
//! computed by the Upper Confidence Bound applied to Trees (UCT) formula
//! `win_rate + c * sqrt(ln(parent_games) / child_games)`, carried in
//! millionths (see [`crate::SCALE`]).

use vstd::prelude::*;

verus! {

use crate::SCALE;

/// The natural logarithm of two, in millionths.
pub const LN2_FP: u64 = 693_147;

/// A node's selection score.
#[derive(Clone, Copy, Debug, PartialEq, Eq, Structural)]
pub enum Score {
    /// The sentinel score of a node with no recorded games; it wins
    /// selection against every finite score.
    Unbounded,
    /// A fixed-point UCT value, in millionths.
    Finite(u64),
}

/// Score order: `Unbounded` is the top element, finite scores compare
/// by value.
pub open spec fn score_le(a: Score, b: Score) -> bool {
    match (a, b) {
        (_, Score::Unbounded) => true,
        (Score::Unbounded, Score::Finite(_)) => false,
        (Score::Finite(x), Score::Finite(y)) => x <= y,
    }
}

/// Compares two scores under [`score_le`].
pub fn score_is_le(a: Score, b: Score) -> (r: bool)
    ensures
        r == score_le(a, b),
{
    match (a, b) {
        (_, Score::Unbounded) => true,
        (Score::Unbounded, Score::Finite(_)) => false,
        (Score::Finite(x), Score::Finite(y)) => x <= y,
    }
}

/// The rounded-down integer square root.
pub open spec fn spec_isqrt(n: nat) -> nat
    decreases n,
{
    if n == 0 {
        0
    } else {
        let r = spec_isqrt((n - 1) as nat);
        if (r + 1) * (r + 1) <= n {
            r + 1
        } else {
            r
        }
    }
}

/// `spec_isqrt` is the unique value whose square brackets its argument.
pub proof fn lemma_isqrt_bounds(n: nat)
    ensures
        spec_isqrt(n) * spec_isqrt(n) <= n,
        n < (spec_isqrt(n) + 1) * (spec_isqrt(n) + 1),
    decreases n,
{
    if n == 0 {
        assert(spec_isqrt(0) == 0);
        assert(spec_isqrt(n) * spec_isqrt(n) <= n);
        assert(n < (spec_isqrt(n) + 1) * (spec_isqrt(n) + 1)) by (nonlinear_arith)
            requires
                n == 0,
                spec_isqrt(n) == 0,
        ;
    } else {
        lemma_isqrt_bounds((n - 1) as nat);
        let r = spec_isqrt((n - 1) as nat);
        assert(r * r <= n - 1);
        assert(n - 1 < (r + 1) * (r + 1));
        if (r + 1) * (r + 1) <= n {
            assert(spec_isqrt(n) == r + 1);
            assert((r + 1) * (r + 1) < (r + 2) * (r + 2)) by (nonlinear_arith);
            assert(n < (r + 2) * (r + 2));
        } else {
            assert(spec_isqrt(n) == r);
            assert(n < (r + 1) * (r + 1));
        }
    }
}

/// Any value whose square brackets `n` is `spec_isqrt(n)`.
pub proof fn lemma_isqrt_unique(n: nat, r: nat)
    requires
        r * r <= n,
        n < (r + 1) * (r + 1),
    ensures
        r == spec_isqrt(n),
{
    lemma_isqrt_bounds(n);
    let s = spec_isqrt(n);
    if r < s {
        assert((r + 1) * (r + 1) <= s * s) by (nonlinear_arith)
            requires
                r + 1 <= s,
        ;
    }
    if s < r {
        assert((s + 1) * (s + 1) <= r * r) by (nonlinear_arith)
            requires
                s + 1 <= r,
        ;
    }
}

/// Computes the integer square root by bisection.
pub fn isqrt(n: u64) -> (r: u64)
    ensures
        r == spec_isqrt(n as nat),
{
    let mut lo: u64 = 0;
    let mut hi: u64 = 4_294_967_296;
    proof {
        assert((hi as nat) * (hi as nat) > n as nat) by (nonlinear_arith)
            requires
                hi == 4_294_967_296u64,
                n <= u64::MAX,
        ;
    }
    while lo + 1 < hi
        invariant
            lo < hi,
            hi <= 4_294_967_296,
            (lo as nat) * (lo as nat) <= n as nat,
            (n as nat) < (hi as nat) * (hi as nat),
        decreases hi - lo,
    {
        let mid = lo + (hi - lo) / 2;
        proof {
            assert(mid * mid <= 4_294_967_295u64 * 4_294_967_295u64) by (nonlinear_arith)
                requires
                    mid <= 4_294_967_295u64,
            ;
        }
        if mid * mid <= n {
            lo = mid;
        } else {
            hi = mid;
        }
    }
    proof {
        lemma_isqrt_unique(n as nat, lo as nat);
    }
    lo
}

/// The rounded-down base-two logarithm; zero for inputs below two.
pub open spec fn spec_log2(n: nat) -> nat
    decreases n,
{
    if n <= 1 {
        0
    } else {
        1 + spec_log2(n / 2)
    }
}

/// Two raised to `spec_log2(n)` brackets `n` for positive `n`.
pub proof fn lemma_log2_bounds(n: nat)
    requires
        n >= 1,
    ensures
        vstd::arithmetic::power2::pow2(spec_log2(n)) <= n,
        n < vstd::arithmetic::power2::pow2(spec_log2(n) + 1),
    decreases n,
{
    vstd::arithmetic::power2::lemma_pow2_unfold(spec_log2(n) + 1);
    if n <= 1 {
        vstd::arithmetic::power2::lemma2_to64();
    } else {
        lemma_log2_bounds(n / 2);
        vstd::arithmetic::power2::lemma_pow2_unfold(spec_log2(n));
    }
}

/// `spec_log2(n)` stays below `b` whenever `n` is below two to the `b`.
pub proof fn lemma_log2_below(n: nat, b: nat)
    requires
        b >= 1,
        n < vstd::arithmetic::power2::pow2(b),
    ensures
        spec_log2(n) < b,
{
    if n >= 1 {
        lemma_log2_bounds(n);
        if spec_log2(n) >= b {
            if spec_log2(n) > b {
                vstd::arithmetic::power2::lemma_pow2_strictly_increases(b, spec_log2(n));
            }
        }
    }
}

/// `spec_log2` stays below 32 for arguments that fit in 32 bits.
pub proof fn lemma_log2_u32(n: nat)
    requires
        n < 0x1_0000_0000,
    ensures
        spec_log2(n) < 32,
{
    vstd::arithmetic::power2::lemma2_to64();
    lemma_log2_below(n, 32);
}

/// Computes the rounded-down base-two logarithm.
pub fn log2_floor(n: u64) -> (r: u64)
    ensures
        r == spec_log2(n as nat),
{
    proof {
        vstd::arithmetic::power2::lemma2_to64_rest();
        lemma_log2_below(n as nat, 64);
    }
    let mut m: u64 = n;
    let mut k: u64 = 0;
    while m >= 2
        invariant
            spec_log2(n as nat) == k + spec_log2(m as nat),
            k <= spec_log2(n as nat) < 64,
        decreases m,
    {
        m = m / 2;
        k = k + 1;
    }
    k
}

/// The fixed-point natural logarithm, in millionths: the argument is split
/// into a power of two and a mantissa in `[1, 2)`, and the mantissa's
/// logarithm comes from three terms of the inverse-hyperbolic-tangent
/// series.
pub open spec fn spec_ln_fp(n: nat) -> nat {
    if n < 1 {
        0
    } else {
        let s = SCALE as nat;
        let k = spec_log2(n);
        let frac = (n * s) / vstd::arithmetic::power2::pow2(k);
        let z = (((frac - s) * s) / ((frac + s) as int)) as nat;
        let z2 = (z * z) / s;
        let z3 = (z2 * z) / s;
        let z5 = (z3 * z2) / s;
        k * (LN2_FP as nat) + 2 * (z + z3 / 3 + z5 / 5)
    }
}

/// The fixed-point logarithm of a 32-bit value stays under 25 millions.
pub proof fn lemma_ln_fp_bound(n: nat)
    requires
        n < 0x1_0000_0000,
    ensures
        spec_ln_fp(n) <= 25_000_000,
{
    if n >= 1 {
        let s = SCALE as nat;
        let k = spec_log2(n);
        let p = vstd::arithmetic::power2::pow2(k);
        lemma_log2_u32(n);
        lemma_log2_bounds(n);
        vstd::arithmetic::power2::lemma_pow2_unfold(k + 1);
        let frac = (n * s) / p;
        vstd::arithmetic::power2::lemma_pow2_pos(k);
        assert(frac < 2 * s) by (nonlinear_arith)
            requires
                frac == (n * s) / p,
                p >= 1,
                n < 2 * p,
                s == 1_000_000,
        ;
        assert(s <= frac) by (nonlinear_arith)
            requires
                frac == (n * s) / p,
                p >= 1,
                p <= n,
                s == 1_000_000,
        ;
        let z = (((frac - s) * s) / ((frac + s) as int)) as nat;
        assert(z < s) by (nonlinear_arith)
            requires
                z == (((frac - s) * s) / ((frac + s) as int)) as nat,
                s <= frac < 2 * s,
                s == 1_000_000,
        ;
        let z2 = (z * z) / s;
        let z3 = (z2 * z) / s;
        let z5 = (z3 * z2) / s;
        assert(z2 < s && z3 < s && z5 < s) by (nonlinear_arith)
            requires
                z2 == (z * z) / s,
                z3 == (z2 * z) / s,
                z5 == (z3 * z2) / s,
                z < s,
                s == 1_000_000,
        ;
        assert(k * (LN2_FP as nat) <= 31 * (LN2_FP as nat)) by (nonlinear_arith)
            requires
                k <= 31,
                LN2_FP == 693_147u64,
        ;
    }
}

/// Computes the fixed-point natural logarithm of [`spec_ln_fp`].
pub fn ln_fp(n: u64) -> (r: u64)
    requires
        1 <= n < 0x1_0000_0000,
    ensures
        r == spec_ln_fp(n as nat),
        r <= 25_000_000,
{
    proof {
        lemma_ln_fp_bound(n as nat);
        lemma_log2_u32(n as nat);
        lemma_log2_bounds(n as nat);
        vstd::arithmetic::power2::lemma_pow2_unfold(spec_log2(n as nat) + 1);
    }
    let k = log2_floor(n);
    let mut p: u64 = 1;
    let mut i: u64 = 0;
    proof {
        vstd::arithmetic::power2::lemma2_to64();
    }
    while i < k
        invariant
            i <= k == spec_log2(n as nat) < 32,
            p == vstd::arithmetic::power2::pow2(i as nat),
            p <= 0x8000_0000,
        decreases k - i,
    {
        proof {
            vstd::arithmetic::power2::lemma_pow2_unfold((i + 1) as nat);
            if i + 1 < 32 {
                vstd::arithmetic::power2::lemma_pow2_strictly_increases((i + 1) as nat, 32);
            }
            vstd::arithmetic::power2::lemma2_to64();
        }
        p = p * 2;
        i = i + 1;
    }
    let ghost s = SCALE as nat;
    proof {
        assert(n * SCALE <= 0xFFFF_FFFFu64 * 1_000_000u64) by (nonlinear_arith)
            requires
                n <= 0xFFFF_FFFFu64,
                SCALE == 1_000_000u64,
        ;
    }
    let num = n * SCALE;
    let frac = num / p;
    proof {
        assert((s <= (frac as nat) < 2 * s)) by (nonlinear_arith)
            requires
                frac as nat == ((n as nat) * s) / (p as nat),
                1 <= p as nat <= n as nat,
                (n as nat) < 2 * (p as nat),
                s == 1_000_000,
        ;
    }
    let z = ((frac - SCALE) * SCALE) / (frac + SCALE);
    proof {
        assert(z < SCALE) by (nonlinear_arith)
            requires
                z == ((frac - SCALE) * SCALE) / (frac + SCALE),
                SCALE <= frac < 2 * SCALE,
                SCALE == 1_000_000u64,
        ;
    }
    proof {
        assert(z * z < SCALE * SCALE) by (nonlinear_arith)
            requires
                z < SCALE,
                SCALE == 1_000_000u64,
        ;
    }
    let z2 = (z * z) / SCALE;
    proof {
        assert(z2 < SCALE && z2 * z < SCALE * SCALE) by (nonlinear_arith)
            requires
                z2 == (z * z) / (SCALE as int),
                z < SCALE,
                SCALE == 1_000_000u64,
        ;
    }
    let z3 = (z2 * z) / SCALE;
    proof {
        assert(z3 < SCALE && z3 * z2 < SCALE * SCALE) by (nonlinear_arith)
            requires
                z3 == (z2 * z) / (SCALE as int),
                z2 < SCALE,
                z < SCALE,
                SCALE == 1_000_000u64,
        ;
    }
    let z5 = (z3 * z2) / SCALE;
    proof {
        assert(z5 < SCALE) by (nonlinear_arith)
            requires
                z5 == (z3 * z2) / (SCALE as int),
                z3 < SCALE,
                z2 < SCALE,
                SCALE == 1_000_000u64,
        ;
        assert(k * LN2_FP <= 31 * 693_147) by (nonlinear_arith)
            requires
                k <= 31,
                LN2_FP == 693_147u64,
        ;
    }
    k * LN2_FP + 2 * (z + z3 / 3 + z5 / 5)
}

/// The exploration half of the UCT formula, in millionths:
/// `sqrt(ln(parent_games) / games)`.
pub open spec fn spec_explore_fp(parent_games: nat, games: nat) -> nat {
    spec_isqrt((spec_ln_fp(parent_games) * (SCALE as nat)) / games)
}

/// The UCT selection score, in millionths:
/// `wins / games + c * sqrt(ln(parent_games) / games)`, each part rounded
/// down at the scale.
pub open spec fn spec_uct(wins: nat, games: nat, parent_games: nat, c: nat) -> nat {
    (wins * (SCALE as nat)) / games + (c * spec_explore_fp(parent_games, games)) / (SCALE as nat)
}

/// Computes the UCT selection score of [`spec_uct`]. The exploration
/// constant `c_fp` is a configuration value in millionths.
pub fn uct_score(wins: u32, games: u32, parent_games: u32, c_fp: u64) -> (r: u64)
    requires
        games >= 1,
        parent_games >= 1,
        c_fp <= 100_000_000,
    ensures
        r == spec_uct(wins as nat, games as nat, parent_games as nat, c_fp as nat),
{
    let ln = ln_fp(parent_games as u64);
    proof {
        assert(ln * SCALE <= 25_000_000u64 * 1_000_000u64) by (nonlinear_arith)
            requires
                ln <= 25_000_000u64,
                SCALE == 1_000_000u64,
        ;
    }
    let ratio = (ln * SCALE) / (games as u64);
    let ex = isqrt(ratio);
    proof {
        lemma_isqrt_bounds(ratio as nat);
        assert(ex <= 5_000_000) by (nonlinear_arith)
            requires
                (ex as nat) * (ex as nat) <= ratio as nat,
                ratio <= 25_000_000_000_000u64,
        ;
        assert(c_fp * ex <= 100_000_000u64 * 5_000_000u64) by (nonlinear_arith)
            requires
                c_fp <= 100_000_000u64,
                ex <= 5_000_000u64,
        ;
        assert((wins as u64) * SCALE <= 0xFFFF_FFFFu64 * 1_000_000u64) by (nonlinear_arith)
            requires
                wins <= 0xFFFF_FFFFu32,
                SCALE == 1_000_000u64,
        ;
    }
    ((wins as u64) * SCALE) / (games as u64) + (c_fp * ex) / SCALE
}

/// With equal game counts and an equal exploration term, the child with
/// strictly more wins never scores below the other: the UCT score is
/// monotone in the win rate.
pub proof fn lemma_uct_monotone_in_wins(
    wins_a: nat,
    wins_b: nat,
    games: nat,
    parent_games: nat,
    c: nat,
)
    requires
        games >= 1,
        wins_b < wins_a,
    ensures
        spec_uct(wins_b, games, parent_games, c) <= spec_uct(wins_a, games, parent_games, c),
{
    let s = SCALE as nat;
    assert(wins_b * s <= wins_a * s) by (nonlinear_arith)
        requires
            wins_b <= wins_a,
            s == 1_000_000,
    ;
    vstd::arithmetic::div_mod::lemma_div_is_ordered(
        (wins_b * s) as int,
        (wins_a * s) as int,
        games as int,
    );
}

} // verus!
