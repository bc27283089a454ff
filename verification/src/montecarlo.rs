//! One search step: select, expand, simulate, backpropagate.

use vstd::prelude::*;

verus! {

use crate::game::{Game, MoveList};
use crate::node_list::{NodeList, closed, is_child_of};
use crate::rng::draw_below;
use crate::score::{Score, score_le, spec_uct, uct_score};
use vstd::std_specs::cmp::PartialEqSpec;
use crate::tree::{MoveTreeNode, NodeID, sum_weights};

/// Tuning knobs of one search step: the UCT exploration constant, in
/// millionths, and how many playouts each step contributes.
pub struct SearchConfig {
    pub exploration_fp: u64,
    pub batch_size: u32,
}

impl SearchConfig {
    /// The exploration constant stays small enough for the score
    /// arithmetic and each step plays at least one game.
    pub open spec fn wf(self) -> bool {
        &&& self.exploration_fp <= 100_000_000
        &&& self.batch_size >= 1
    }

    /// The customary configuration: the square root of two as the
    /// exploration constant and a batch of 25 playouts per step.
    pub fn standard() -> (r: Self)
        ensures
            r.wf(),
            r.exploration_fp == 1_414_214,
            r.batch_size == 25,
    {
        SearchConfig { exploration_fp: 1_414_214, batch_size: 25 }
    }
}

/// Taking one more element grows the weight sum by that element.
pub proof fn lemma_sum_weights_step(s: Seq<u64>, i: int)
    requires
        0 <= i < s.len(),
    ensures
        sum_weights(s.take(i + 1)) == sum_weights(s.take(i)) + s[i],
{
    assert(s.take(i + 1).drop_last() =~= s.take(i));
    assert(s.take(i + 1).last() == s[i]);
}

/// A weight sum is at most the element count times the largest weight
/// value, so it always fits in 128 bits.
pub proof fn lemma_sum_weights_bound(s: Seq<u64>)
    ensures
        sum_weights(s) <= s.len() * 0xFFFF_FFFF_FFFF_FFFF,
    decreases s.len(),
{
    if s.len() > 0 {
        lemma_sum_weights_bound(s.drop_last());
    }
}

/// Computes the sum of a weight vector.
pub fn sum_u128(weights: &Vec<u64>) -> (r: u128)
    ensures
        r == sum_weights(weights@),
{
    proof {
        lemma_sum_weights_bound(weights@);
        vstd::std_specs::vec::axiom_spec_len(weights);
        assert(weights@.len() * 0xFFFF_FFFF_FFFF_FFFF < 0xFFFF_FFFF_FFFF_FFFF_FFFF_FFFF_FFFF_FFFFu128)
            by (nonlinear_arith)
            requires
                weights@.len() <= 0xFFFF_FFFF_FFFF_FFFFu64,
        ;
    }
    let mut acc: u128 = 0;
    let mut i: usize = 0;
    while i < weights.len()
        invariant
            i <= weights@.len(),
            acc == sum_weights(weights@.take(i as int)),
            sum_weights(weights@) < 0xFFFF_FFFF_FFFF_FFFF_FFFF_FFFF_FFFF_FFFFu128,
        decreases weights@.len() - i,
    {
        proof {
            lemma_sum_weights_step(weights@, i as int);
            lemma_sum_prefix_le(weights@, i + 1);
        }
        acc = acc + (weights[i] as u128);
        i = i + 1;
    }
    proof {
        assert(weights@.take(weights@.len() as int) =~= weights@);
    }
    acc
}

/// A prefix sum never exceeds the whole sum.
pub proof fn lemma_sum_prefix_le(s: Seq<u64>, i: int)
    requires
        0 <= i <= s.len(),
    ensures
        sum_weights(s.take(i)) <= sum_weights(s),
    decreases s.len() - i,
{
    if i < s.len() {
        lemma_sum_weights_step(s, i);
        lemma_sum_prefix_le(s, i + 1);
    } else {
        assert(s.take(i) =~= s);
    }
}

/// Maps a draw from `[0, total)` to the child it selects under
/// cumulative-weight sampling: the unique index whose cumulative bracket
/// contains the draw.
pub fn weighted_index(weights: &Vec<u64>, draw: u128) -> (r: usize)
    requires
        (draw as nat) < sum_weights(weights@),
    ensures
        r < weights@.len(),
        sum_weights(weights@.take(r as int)) <= draw as nat,
        (draw as nat) < sum_weights(weights@.take(r as int)) + weights@[r as int],
        weights@[r as int] > 0,
{
    proof {
        lemma_sum_weights_bound(weights@);
        vstd::std_specs::vec::axiom_spec_len(weights);
        assert(weights@.len() * 0xFFFF_FFFF_FFFF_FFFF < 0xFFFF_FFFF_FFFF_FFFF_FFFF_FFFF_FFFF_FFFFu128)
            by (nonlinear_arith)
            requires
                weights@.len() <= 0xFFFF_FFFF_FFFF_FFFFu64,
        ;
    }
    let mut acc: u128 = 0;
    let mut i: usize = 0;
    while i < weights.len()
        invariant
            i <= weights@.len(),
            acc == sum_weights(weights@.take(i as int)),
            acc <= draw,
            (draw as nat) < sum_weights(weights@),
            sum_weights(weights@) < 0xFFFF_FFFF_FFFF_FFFF_FFFF_FFFF_FFFF_FFFFu128,
        decreases weights@.len() - i,
    {
        proof {
            lemma_sum_weights_step(weights@, i as int);
            lemma_sum_prefix_le(weights@, i + 1);
        }
        let w = weights[i];
        if draw < acc + (w as u128) {
            return i;
        }
        acc = acc + (w as u128);
        i = i + 1;
    }
    proof {
        assert(weights@.take(weights@.len() as int) =~= weights@);
        assert(false);
    }
    0
}

/// Samples one child of a chance node: draws uniformly from the weight
/// total and picks the child whose cumulative bracket contains the draw,
/// so a child is chosen with probability proportional to its raw weight.
/// Only children with a positive weight can come back.
pub fn sample_weighted(weights: &Vec<u64>) -> (r: usize)
    requires
        sum_weights(weights@) > 0,
    ensures
        r < weights@.len(),
        weights@[r as int] > 0,
{
    let total = sum_u128(weights);
    let draw = draw_below(total);
    weighted_index(weights, draw)
}

/// The sum of the win counts in a tally.
pub open spec fn sum_counts<P>(s: Seq<(P, u32)>) -> nat
    decreases s.len(),
{
    if s.len() == 0 {
        0
    } else {
        (sum_counts(s.drop_last()) + s.last().1) as nat
    }
}

/// Each single count stays within the tally's sum.
pub proof fn lemma_count_le_sum<P>(s: Seq<(P, u32)>, i: int)
    requires
        0 <= i < s.len(),
    ensures
        s[i].1 <= sum_counts(s),
    decreases s.len(),
{
    if i < s.len() - 1 {
        lemma_count_le_sum(s.drop_last(), i);
        assert(s.drop_last()[i] == s[i]);
    }
}

/// Raising one count by one raises the sum by one.
pub proof fn lemma_sum_counts_update<P>(s: Seq<(P, u32)>, i: int, p: (P, u32))
    requires
        0 <= i < s.len(),
        p.1 == s[i].1 + 1,
    ensures
        sum_counts(s.update(i, p)) == sum_counts(s) + 1,
    decreases s.len(),
{
    if i == s.len() - 1 {
        assert(s.update(i, p).drop_last() =~= s.drop_last());
        assert(s.update(i, p).last() == p);
    } else {
        lemma_sum_counts_update(s.drop_last(), i, p);
        assert(s.update(i, p).drop_last() =~= s.drop_last().update(i, p));
        assert(s.update(i, p).last() == s.last());
    }
}

/// Appending a pair adds its count to the sum.
pub proof fn lemma_sum_counts_push<P>(s: Seq<(P, u32)>, p: (P, u32))
    ensures
        sum_counts(s.push(p)) == sum_counts(s) + p.1,
{
    assert(s.push(p).drop_last() =~= s);
    assert(s.push(p).last() == p);
}

/// No player keys two entries of a tally, as far as player equality
/// behaves.
pub open spec fn distinct_players<P: PartialEq>(s: Seq<(P, u32)>) -> bool {
    forall|i: int, j: int| 0 <= i < j < s.len() ==> !(#[trigger] s[i].0.eq_spec(&s[j].0))
}

/// A tally after one win of `w` is credited: the first entry whose
/// player equals `w` is bumped by one, or a fresh entry at one is
/// appended.
pub open spec fn spec_add_win<P: PartialEq>(s: Seq<(P, u32)>, w: P) -> Seq<(P, u32)>
    decreases s.len(),
{
    if s.len() == 0 {
        seq![(w, 1u32)]
    } else if s[0].0.eq_spec(&w) {
        seq![(s[0].0, (s[0].1 + 1) as u32)] + s.drop_first()
    } else {
        seq![s[0]] + spec_add_win(s.drop_first(), w)
    }
}

/// Credits one playout win to `w` in a tally: bumps its count, or opens
/// a new entry at one.
#[verifier::loop_isolation(false)]
fn add_win<P: PartialEq + Eq>(results: &mut Vec<(P, u32)>, w: P)
    requires
        sum_counts(old(results)@) < 0xFFFF_FFFF,
    ensures
        sum_counts(final(results)@) == sum_counts(old(results)@) + 1,
        P::obeys_eq_spec() ==> final(results)@ == spec_add_win(old(results)@, w),
        P::obeys_eq_spec() && distinct_players(old(results)@) ==> distinct_players(
            final(results)@,
        ),
{
    let ghost s0 = old(results)@;
    proof {
        assert(s0.take(0) =~= Seq::<(P, u32)>::empty());
        assert(s0.skip(0) =~= s0);
    }
    let mut i: usize = 0;
    while i < results.len()
        invariant
            i <= results@.len(),
            results@ == s0,
            sum_counts(results@) < 0xFFFF_FFFF,
            P::obeys_eq_spec() ==> spec_add_win(s0, w) == s0.take(i as int) + spec_add_win(
                s0.skip(i as int),
                w,
            ),
            P::obeys_eq_spec() ==> forall|k: int|
                0 <= k < i ==> !(#[trigger] s0[k].0.eq_spec(&w)),
        decreases results@.len() - i,
    {
        proof {
            assert(s0.skip(i as int)[0] == s0[i as int]);
            assert(s0.skip(i as int).drop_first() =~= s0.skip(i as int + 1));
            assert(s0.take(i as int + 1) =~= s0.take(i as int) + seq![s0[i as int]]);
        }
        if results[i].0 == w {
            proof {
                lemma_count_le_sum(results@, i as int);
            }
            let c = results[i].1;
            let pair = results.remove(i);
            let bumped = (pair.0, c + 1);
            proof {
                lemma_sum_counts_update(s0, i as int, bumped);
            }
            results.insert(i, bumped);
            proof {
                assert(results@ =~= s0.update(i as int, bumped));
                if P::obeys_eq_spec() && distinct_players(s0) {
                    assert forall|a: int, b: int| 0 <= a < b < results@.len() implies !(
                    #[trigger] results@[a].0.eq_spec(&results@[b].0)) by {
                        assert(results@[a].0 == s0[a].0 && results@[b].0 == s0[b].0);
                    }
                }
                if P::obeys_eq_spec() {
                    assert(spec_add_win(s0.skip(i as int), w) == seq![bumped] + s0.skip(
                        i as int + 1,
                    ));
                    assert(results@ =~= s0.take(i as int) + (seq![bumped] + s0.skip(
                        i as int + 1,
                    )));
                    assert(results@ == spec_add_win(s0, w));
                }
            }
            return ;
        }
        proof {
            if P::obeys_eq_spec() {
                assert((s0.take(i as int) + seq![s0[i as int]]) + spec_add_win(
                    s0.skip(i as int + 1),
                    w,
                ) =~= s0.take(i as int) + (seq![s0[i as int]] + spec_add_win(
                    s0.skip(i as int + 1),
                    w,
                )));
            }
        }
        i = i + 1;
    }
    let entry = (w, 1u32);
    proof {
        lemma_sum_counts_push(results@, entry);
        assert(s0.skip(s0.len() as int) =~= Seq::<(P, u32)>::empty());
        assert(s0.take(s0.len() as int) =~= s0);
    }
    results.push(entry);
    proof {
        if P::obeys_eq_spec() {
            assert(results@ =~= s0 + seq![entry]);
            assert(spec_add_win(s0, w) == s0 + spec_add_win(Seq::<(P, u32)>::empty(), w));
            assert(results@ =~= spec_add_win(s0, w));
            if distinct_players(s0) {
                assert forall|a: int, b: int| 0 <= a < b < results@.len() implies !(
                #[trigger] results@[a].0.eq_spec(&results@[b].0)) by {
                    if b < s0.len() {
                        assert(results@[a] == s0[a] && results@[b] == s0[b]);
                    } else {
                        assert(results@[a] == s0[a] && results@[b] == entry);
                        assert(!(s0[a].0.eq_spec(&w)));
                    }
                }
            }
        }
    }
}

/// How many continuations one playout may apply before giving up on the
/// game ever ending.
pub const ROLLOUT_STEP_LIMIT: u64 = 1_000_000_000;

/// How many playout outcomes name a winner.
pub open spec fn count_winners<P>(s: Seq<Option<P>>) -> nat
    decreases s.len(),
{
    if s.len() == 0 {
        0
    } else {
        count_winners(s.drop_last()) + (if s.last() is Some {
            1nat
        } else {
            0nat
        })
    }
}

/// The tally a sequence of playout outcomes folds to, crediting each
/// winner in order and skipping undecided playouts.
pub open spec fn spec_tally<P: PartialEq>(s: Seq<Option<P>>) -> Seq<(P, u32)>
    decreases s.len(),
{
    if s.len() == 0 {
        Seq::empty()
    } else {
        let prev = spec_tally(s.drop_last());
        match s.last() {
            Some(w) => spec_add_win(prev, w),
            None => prev,
        }
    }
}

/// Folds raw playout outcomes into a per-player win tally: one credit
/// per decided playout, so the tally's total is exactly the number of
/// winners named; with well-behaved player equality the whole tally is
/// the fold of [`spec_add_win`] over the outcomes.
pub fn tally_outcomes<P: PartialEq + Eq>(outcomes: Vec<Option<P>>) -> (r: Vec<(P, u32)>)
    requires
        outcomes@.len() < 0xFFFF_FFFF,
    ensures
        sum_counts(r@) == count_winners(outcomes@),
        sum_counts(r@) <= outcomes@.len(),
        P::obeys_eq_spec() ==> r@ == spec_tally(outcomes@),
        P::obeys_eq_spec() ==> distinct_players(r@),
{
    let ghost orig = outcomes@;
    proof {
        assert(orig.take(0) =~= Seq::<Option<P>>::empty());
        lemma_count_winners_le_len(orig);
    }
    let mut rest = outcomes;
    let mut results: Vec<(P, u32)> = Vec::new();
    while rest.len() > 0
        invariant
            rest@ == orig.skip(orig.len() - rest@.len()),
            orig.len() < 0xFFFF_FFFF,
            sum_counts(results@) == count_winners(orig.take(orig.len() - rest@.len())),
            sum_counts(results@) <= orig.len() - rest@.len(),
            P::obeys_eq_spec() ==> results@ == spec_tally(orig.take(orig.len() - rest@.len())),
            P::obeys_eq_spec() ==> distinct_players(results@),
        decreases rest@.len(),
    {
        let ghost done = orig.len() - rest@.len();
        proof {
            assert(orig.take(done + 1).drop_last() =~= orig.take(done));
            assert(orig.take(done + 1).last() == orig[done]);
            assert(rest@[0] == orig[done]);
            assert(rest@.remove(0) =~= orig.skip(done + 1));
            lemma_count_winners_le_len(orig.take(done));
        }
        let o = rest.remove(0);
        match o {
            Some(w) => {
                add_win(&mut results, w);
            },
            None => {},
        }
    }
    proof {
        assert(orig.take(orig.len() as int) =~= orig);
    }
    results
}

/// A winner count never exceeds the outcome count.
pub proof fn lemma_count_winners_le_len<P>(s: Seq<Option<P>>)
    ensures
        count_winners(s) <= s.len(),
    decreases s.len(),
{
    if s.len() > 0 {
        lemma_count_winners_le_len(s.drop_last());
    }
}

/// Runs one random playout of `game` to a terminal position and reports
/// the winner. At each position one continuation is sampled — uniformly
/// among a choice set, by weight among a chance set — and applied, until
/// the collaborator names a winner. A dead end with no winner and no
/// continuation, which a well-formed collaborator never produces, comes
/// back as no winner, as does a game still undecided at the step limit.
pub fn rollout<G: Game>(game: &G) -> (r: Option<G::Player>)
{
    let mut g = game.clone();
    let mut steps: u64 = 0;
    while steps < ROLLOUT_STEP_LIMIT
        invariant
            true,
        decreases ROLLOUT_STEP_LIMIT - steps,
    {
        steps = steps + 1;
        match g.get_winner() {
            Some(w) => {
                return Some(w);
            },
            None => {},
        }
        match g.available_moves() {
            MoveList::Choice(mvs) => {
                if mvs.len() == 0 {
                    return None;
                }
                let j = draw_below(mvs.len() as u128) as usize;
                g.make_move(&mvs[j].clone());
            },
            MoveList::Random(mvs) => {
                let mut weights: Vec<u64> = Vec::new();
                let mut i: usize = 0;
                while i < mvs.len()
                    invariant
                        i <= mvs@.len(),
                        weights@.len() == i,
                        forall|k: int| 0 <= k < i ==> weights@[k] == mvs@[k].1,
                    decreases mvs@.len() - i,
                {
                    weights.push(mvs[i].1);
                    i = i + 1;
                }
                let total = sum_u128(&weights);
                if total == 0 {
                    return None;
                }
                let j = sample_weighted(&weights);
                g.make_move(&mvs[j].0.clone());
            },
        }
    }
    None
}

/// Plays a full batch of independent random rollouts of `game` and
/// aggregates the outcomes: returns the batch size it was asked for and
/// one win count per player seen winning, whose total never exceeds the
/// batch.
pub fn simulate_batch<G: Game>(game: &G, batch: u32) -> (r: (u32, Vec<(G::Player, u32)>))
    ensures
        r.0 == batch,
        sum_counts(r.1@) <= batch,
        G::Player::obeys_eq_spec() ==> distinct_players(r.1@),
{
    let mut results: Vec<(G::Player, u32)> = Vec::new();
    let mut done: u32 = 0;
    while done < batch
        invariant
            done <= batch,
            sum_counts(results@) <= done,
            G::Player::obeys_eq_spec() ==> distinct_players(results@),
        decreases batch - done,
    {
        match rollout(game) {
            Some(w) => {
                add_win(&mut results, w);
            },
            None => {},
        }
        done = done + 1;
    }
    (batch, results)
}

/// The score a child holds in the arena.
pub open spec fn child_score<G: Game>(
    m: Map<NodeID, MoveTreeNode<G>>,
    children: Seq<(G::Move, NodeID)>,
    i: int,
) -> Score {
    m[children[i].1].score
}

/// Collects the children tied for the greatest selection score: returns
/// that score and exactly the indices holding it — every tied child is
/// listed, so the uniform tie-break draws over all of them. Every child
/// scores at least `Finite(0)`, so with any children at all the tie
/// list is never empty.
pub fn all_max<G: Game>(nodes: &NodeList<G>, children: &Vec<(G::Move, NodeID)>) -> (r: (
    Score,
    Vec<usize>,
))
    requires
        nodes.wf(),
        forall|i: int| 0 <= i < children@.len() ==> nodes@.contains_key(#[trigger] children@[i].1),
    ensures
        forall|i: int|
            0 <= i < children@.len() ==> score_le(child_score(nodes@, children@, i), r.0),
        forall|j: int|
            0 <= j < r.1@.len() ==> r.1@[j] < children@.len() && child_score(
                nodes@,
                children@,
                r.1@[j] as int,
            ) == r.0,
        forall|k: int|
            0 <= k < children@.len() && child_score(nodes@, children@, k) == r.0 ==> exists|j: int|
                0 <= j < r.1@.len() && #[trigger] r.1@[j] == k,
        children@.len() > 0 ==> r.1@.len() > 0,
{
    let mut best: Score = Score::Finite(0);
    let mut picks: Vec<usize> = Vec::new();
    let mut i: usize = 0;
    while i < children.len()
        invariant
            nodes.wf(),
            forall|k: int|
                0 <= k < children@.len() ==> nodes@.contains_key(#[trigger] children@[k].1),
            i <= children@.len(),
            forall|k: int| 0 <= k < i ==> score_le(child_score(nodes@, children@, k), best),
            forall|j: int|
                0 <= j < picks@.len() ==> picks@[j] < i && child_score(
                    nodes@,
                    children@,
                    picks@[j] as int,
                ) == best,
            forall|k: int|
                0 <= k < i && child_score(nodes@, children@, k) == best ==> exists|j: int|
                    0 <= j < picks@.len() && #[trigger] picks@[j] == k,
            i > 0 ==> picks@.len() > 0,
            picks@.len() == 0 ==> best == Score::Finite(0),
        decreases children@.len() - i,
    {
        let ghost picks0 = picks@;
        let s = nodes.get(children[i].1).score;
        if s == best {
            picks.push(i);
            proof {
                assert(picks@[picks@.len() - 1] == i as usize);
                assert forall|k: int|
                    0 <= k < i + 1 && child_score(nodes@, children@, k) == best implies exists|
                    j: int,
                |
                    0 <= j < picks@.len() && #[trigger] picks@[j] == k by {
                    if k < i {
                        let j0 = choose|j0: int|
                            0 <= j0 < picks0.len() && #[trigger] picks0[j0] == k;
                        assert(picks@[j0] == k);
                    }
                }
            }
        } else {
            let gt = match (s, best) {
                (Score::Unbounded, _) => true,
                (Score::Finite(_), Score::Unbounded) => false,
                (Score::Finite(x), Score::Finite(y)) => x > y,
            };
            if gt {
                best = s;
                picks.clear();
                picks.push(i);
                proof {
                    assert(picks@[0] == i as usize);
                }
            }
        }
        i = i + 1;
    }
    (best, picks)
}

/// Every stored node satisfies its accounting invariant.
pub open spec fn all_wf<G: Game>(m: Map<NodeID, MoveTreeNode<G>>) -> bool {
    forall|id: NodeID| #[trigger] m.contains_key(id) ==> m[id].wf()
}

/// Addition on counters that stops at the counter's ceiling instead of
/// wrapping.
pub open spec fn sat_add32(a: u32, b: u32) -> u32 {
    if a + b > 0xFFFF_FFFF {
        0xFFFF_FFFFu32
    } else {
        (a + b) as u32
    }
}

/// Computes [`sat_add32`].
pub fn saturating_add32(a: u32, b: u32) -> (r: u32)
    ensures
        r == sat_add32(a, b),
{
    if a > 0xFFFF_FFFFu32 - b {
        0xFFFF_FFFF
    } else {
        a + b
    }
}

/// Two fields of a node may differ only in the selection score.
pub open spec fn same_but_score<G: Game>(a: MoveTreeNode<G>, b: MoveTreeNode<G>) -> bool {
    &&& b.game == a.game
    &&& b.player == a.player
    &&& b.games == a.games
    &&& b.wins == a.wins
    &&& b.simulations == a.simulations
    &&& b.children == a.children
    &&& b.weights == a.weights
}

/// Recomputes the selection score of every child of a decision node from
/// the current counters: a child with recorded games gets the UCT value
/// of its win rate against the parent's game count; an untried child
/// keeps its score (the unbounded sentinel).
pub fn rescore_children<G: Game>(nodes: &mut NodeList<G>, parent: NodeID, c_fp: u64)
    requires
        old(nodes).wf(),
        all_wf(old(nodes)@),
        closed(old(nodes)@),
        old(nodes)@.contains_key(parent),
        old(nodes)@[parent].games >= 1,
        c_fp <= 100_000_000,
    ensures
        final(nodes).wf(),
        all_wf(final(nodes)@),
        closed(final(nodes)@),
        forall|id: NodeID|
            final(nodes)@.contains_key(id) == old(nodes)@.contains_key(id),
        forall|id: NodeID|
            old(nodes)@.contains_key(id) && (id == parent || !is_child_of(
                old(nodes)@[parent],
                id,
            )) ==> final(nodes)@[id] == old(nodes)@[id],
        forall|i: int|
            0 <= i < old(nodes)@[parent].children@.len() ==> rescored_at(
                old(nodes)@,
                final(nodes)@,
                parent,
                #[trigger] old(nodes)@[parent].children@[i].1,
                c_fp,
            ),
{
    let ghost m0 = nodes@;
    let pg = nodes.get(parent).games;
    let kids = nodes.child_ids(parent);
    let mut i: usize = 0;
    while i < kids.len()
        invariant
            nodes.wf(),
            all_wf(nodes@),
            closed(nodes@),
            c_fp <= 100_000_000,
            i <= kids@.len(),
            m0.contains_key(parent),
            pg == m0[parent].games,
            pg >= 1,
            kids@.len() == m0[parent].children@.len(),
            forall|k: int| 0 <= k < kids@.len() ==> kids@[k] == m0[parent].children@[k].1,
            forall|id: NodeID| nodes@.contains_key(id) == m0.contains_key(id),
            forall|id: NodeID|
                m0.contains_key(id) && (id == parent || !is_child_of(m0[parent], id))
                    ==> nodes@[id] == m0[id],
            forall|id: NodeID|
                m0.contains_key(id) ==> nodes@[id] == m0[id] || (same_but_score(
                    m0[id],
                    nodes@[id],
                ) && rescored_at(m0, nodes@, parent, id, c_fp)),
            forall|k: int| 0 <= k < i ==> rescored_at(m0, nodes@, parent, #[trigger] kids@[k], c_fp),
        decreases kids@.len() - i,
    {
        let c = kids[i];
        proof {
            assert(is_child_of(m0[parent], c));
        }
        if c != parent {
            let ghost mprev = nodes@;
            let mut node = nodes.take(c);
            if node.games > 0 {
                let s = uct_score(node.wins, node.games, pg, c_fp);
                node.score = Score::Finite(s);
            }
            nodes.restore(c, node);
            proof {
                assert(nodes@ =~= mprev.insert(c, nodes@[c]));
                assert forall|id: NodeID, cc: NodeID|
                    nodes@.contains_key(id) && #[trigger] is_child_of(nodes@[id], cc) implies
                    nodes@.contains_key(cc) by {
                    if id == c {
                        assert(nodes@[id].children == mprev[c].children);
                        assert(is_child_of(mprev[id], cc));
                    } else {
                        assert(nodes@[id] == mprev[id]);
                        assert(is_child_of(mprev[id], cc));
                    }
                }
                assert forall|id: NodeID| nodes@.contains_key(id) implies nodes@[id].wf() by {
                    if id != c {
                        assert(nodes@[id] == mprev[id]);
                    }
                }
            }
        }
        i = i + 1;
    }
    proof {
        assert forall|i2: int| 0 <= i2 < m0[parent].children@.len() implies rescored_at(
            m0,
            nodes@,
            parent,
            #[trigger] m0[parent].children@[i2].1,
            c_fp,
        ) by {
            assert(kids@[i2] == m0[parent].children@[i2].1);
            assert(rescored_at(m0, nodes@, parent, kids@[i2], c_fp));
        }
    }
}

/// What rescoring promises of one child `cid` of `parent`: its counters,
/// links and weights are untouched, and its score is the UCT value of
/// its counters when it has any recorded games, or untouched when it
/// has none. The parent itself is never rescored.
pub open spec fn rescored_at<G: Game>(
    m0: Map<NodeID, MoveTreeNode<G>>,
    m1: Map<NodeID, MoveTreeNode<G>>,
    parent: NodeID,
    cid: NodeID,
    c_fp: u64,
) -> bool {
    cid != parent ==> {
        &&& same_but_score(m0[cid], m1[cid])
        &&& (m0[cid].games > 0 ==> m1[cid].score == Score::Finite(
            spec_uct(
                m0[cid].wins as nat,
                m0[cid].games as nat,
                m0[parent].games as nat,
                c_fp as nat,
            ) as u64,
        ))
        &&& (m0[cid].games == 0 ==> m1[cid].score == m0[cid].score)
    }
}

/// The win count a tally holds for a player: the count of its first
/// entry for that player, or zero.
pub open spec fn spec_wins_for<P: PartialEq>(s: Seq<(P, u32)>, p: P) -> u32
    decreases s.len(),
{
    if s.len() == 0 {
        0u32
    } else if s[0].0.eq_spec(&p) {
        s[0].1
    } else {
        spec_wins_for(s.drop_first(), p)
    }
}

/// Looks a player's win count up in a tally. The count found never
/// exceeds the tally's sum.
pub fn wins_for<P: PartialEq + Eq>(results: &Vec<(P, u32)>, p: &P) -> (r: u32)
    ensures
        r <= sum_counts(results@),
        P::obeys_eq_spec() ==> r == spec_wins_for(results@, *p),
{
    proof {
        assert(results@.skip(0) =~= results@);
    }
    let mut i: usize = 0;
    while i < results.len()
        invariant
            i <= results@.len(),
            P::obeys_eq_spec() ==> spec_wins_for(results@, *p) == spec_wins_for(
                results@.skip(i as int),
                *p,
            ),
        decreases results@.len() - i,
    {
        proof {
            assert(results@.skip(i as int)[0] == results@[i as int]);
            assert(results@.skip(i as int).drop_first() =~= results@.skip(i as int + 1));
        }
        if results[i].0 == *p {
            proof {
                lemma_count_le_sum(results@, i as int);
            }
            return results[i].1;
        }
        i = i + 1;
    }
    proof {
        assert(results@.skip(results@.len() as int) =~= Seq::<(P, u32)>::empty());
    }
    0
}

/// A node after its share of one playout batch is credited: `num` more
/// games.
pub open spec fn bump_parent<G: Game>(n: MoveTreeNode<G>, num: u32) -> MoveTreeNode<G> {
    MoveTreeNode { games: sat_add32(n.games, num), ..n }
}

/// A selected child after one playout batch is credited: `num` more
/// games, one more selection, and the batch wins of its player.
pub open spec fn bump_child<G: Game>(n: MoveTreeNode<G>, num: u32, w: u32) -> MoveTreeNode<G> {
    MoveTreeNode {
        games: sat_add32(n.games, num),
        simulations: sat_add32(n.simulations, 1),
        wins: sat_add32(n.wins, w),
        ..n
    }
}

/// The arena after the counters of one recorded edge are credited: the
/// parent gains the batch; the child, when still stored, gains the
/// batch, one selection and `w` wins. A child link that loops back to
/// the parent is credited once, as the parent.
pub open spec fn counters_after<G: Game>(
    m: Map<NodeID, MoveTreeNode<G>>,
    parent: NodeID,
    child: NodeID,
    num: u32,
    w: u32,
) -> Map<NodeID, MoveTreeNode<G>> {
    let m1 = m.insert(parent, bump_parent(m[parent], num));
    if m.contains_key(child) && child != parent {
        m1.insert(child, bump_child(m[child], num, w))
    } else {
        m1
    }
}

/// What rescoring leaves behind, as a relation between the arena before
/// and after: nothing enters or leaves, nodes that are not children of
/// `parent` are untouched, and every child is scored per [`rescored_at`].
pub open spec fn rescore_post<G: Game>(
    m0: Map<NodeID, MoveTreeNode<G>>,
    m1: Map<NodeID, MoveTreeNode<G>>,
    parent: NodeID,
    c_fp: u64,
) -> bool {
    &&& forall|id: NodeID| m1.contains_key(id) == m0.contains_key(id)
    &&& forall|id: NodeID|
        m0.contains_key(id) && (id == parent || !is_child_of(m0[parent], id)) ==> m1[id] == m0[id]
    &&& forall|i: int|
        0 <= i < m0[parent].children@.len() ==> rescored_at(
            m0,
            m1,
            parent,
            #[trigger] m0[parent].children@[i].1,
            c_fp,
        )
}

/// The arena the rescoring pass leaves behind, as a function: each
/// child of a decision `parent` with recorded games carries the UCT
/// value of its counters against the parent's games; everything else is
/// untouched.
pub open spec fn rescored_map<G: Game>(
    m: Map<NodeID, MoveTreeNode<G>>,
    parent: NodeID,
    c_fp: u64,
) -> Map<NodeID, MoveTreeNode<G>> {
    Map::new(
        |id: NodeID| m.contains_key(id),
        |id: NodeID|
            if id != parent && is_child_of(m[parent], id) && m[id].games > 0 {
                MoveTreeNode {
                    score: Score::Finite(
                        spec_uct(
                            m[id].wins as nat,
                            m[id].games as nat,
                            m[parent].games as nat,
                            c_fp as nat,
                        ) as u64,
                    ),
                    ..m[id]
                }
            } else {
                m[id]
            },
    )
}

/// Rescoring is a function: any arena related to `m` by
/// [`rescore_post`] is exactly [`rescored_map`] of `m`.
pub proof fn lemma_rescore_post_is_map<G: Game>(
    m: Map<NodeID, MoveTreeNode<G>>,
    m1: Map<NodeID, MoveTreeNode<G>>,
    parent: NodeID,
    c_fp: u64,
)
    requires
        rescore_post(m, m1, parent, c_fp),
        m.contains_key(parent),
    ensures
        m1 == rescored_map(m, parent, c_fp),
{
    let r = rescored_map(m, parent, c_fp);
    assert forall|id: NodeID| #[trigger] m1.contains_key(id) == r.contains_key(id) by {
        assert(m1.contains_key(id) == m.contains_key(id));
    }
    assert forall|id: NodeID| m1.contains_key(id) implies #[trigger] m1[id] == r[id] by {
        if id == parent || !is_child_of(m[parent], id) {
            assert(m1[id] == m[id]);
        } else {
            let j = choose|j: int|
                0 <= j < m[parent].children@.len() && (#[trigger] m[parent].children@[j]).1 == id;
            assert(rescored_at(m, m1, parent, m[parent].children@[j].1, c_fp));
            assert(same_but_score(m[id], m1[id]));
            if m[id].games > 0 {
                assert(m1[id].score == r[id].score);
            } else {
                assert(m1[id].score == m[id].score);
            }
        }
    }
    assert(m1 =~= r);
}

/// The UCT value of a 32-bit counter profile fits comfortably in 64
/// bits, so storing it in a score never clips.
pub proof fn lemma_spec_uct_fits(wins: u32, games: u32, parent_games: u32, c_fp: u64)
    requires
        games >= 1,
        c_fp <= 100_000_000,
    ensures
        spec_uct(wins as nat, games as nat, parent_games as nat, c_fp as nat)
            < 0x1_0000_0000_0000_0000,
{
    let s = crate::SCALE as nat;
    let w = wins as nat;
    let g = games as nat;
    let ln = crate::score::spec_ln_fp(parent_games as nat);
    crate::score::lemma_ln_fp_bound(parent_games as nat);
    assert(w * s <= 0xFFFF_FFFF * 1_000_000) by (nonlinear_arith)
        requires
            w <= 0xFFFF_FFFF,
            s == 1_000_000,
    ;
    assert((w * s) / g <= w * s) by (nonlinear_arith)
        requires
            g >= 1,
    ;
    assert(ln * s <= 25_000_000 * 1_000_000) by (nonlinear_arith)
        requires
            ln <= 25_000_000,
            s == 1_000_000,
    ;
    let ratio = (ln * s) / g;
    assert(ratio <= ln * s) by (nonlinear_arith)
        requires
            ratio == (ln * s) / g,
            g >= 1,
    ;
    let ex = crate::score::spec_isqrt(ratio);
    crate::score::lemma_isqrt_bounds(ratio);
    assert(ex <= 5_000_000) by (nonlinear_arith)
        requires
            ex * ex <= ratio,
            ratio <= 25_000_000_000_000,
    ;
    assert((c_fp as nat) * ex <= 100_000_000 * 5_000_000) by (nonlinear_arith)
        requires
            c_fp <= 100_000_000,
            ex <= 5_000_000,
    ;
    assert(((c_fp as nat) * ex) / s <= (c_fp as nat) * ex) by (nonlinear_arith)
        requires
            s >= 1,
    ;
}

/// Score monotonicity where the engine writes scores: after a
/// rescoring pass over a decision parent, of two children with equal
/// positive game counts the one with strictly more wins never ranks
/// below the other — the exploration terms are equal and the win rate
/// decides.
pub proof fn lemma_rescored_monotone<G: Game>(
    m: Map<NodeID, MoveTreeNode<G>>,
    parent: NodeID,
    c_fp: u64,
    a: NodeID,
    b: NodeID,
)
    requires
        m.contains_key(parent),
        m.contains_key(a),
        m.contains_key(b),
        a != parent,
        b != parent,
        is_child_of(m[parent], a),
        is_child_of(m[parent], b),
        m[a].games == m[b].games,
        m[a].games > 0,
        m[a].wins > m[b].wins,
        c_fp <= 100_000_000,
    ensures
        score_le(
            rescored_map(m, parent, c_fp)[b].score,
            rescored_map(m, parent, c_fp)[a].score,
        ),
{
    let ua = spec_uct(
        m[a].wins as nat,
        m[a].games as nat,
        m[parent].games as nat,
        c_fp as nat,
    );
    let ub = spec_uct(
        m[b].wins as nat,
        m[b].games as nat,
        m[parent].games as nat,
        c_fp as nat,
    );
    crate::score::lemma_uct_monotone_in_wins(
        m[a].wins as nat,
        m[b].wins as nat,
        m[a].games as nat,
        m[parent].games as nat,
        c_fp as nat,
    );
    lemma_spec_uct_fits(m[a].wins, m[a].games, m[parent].games, c_fp);
    lemma_spec_uct_fits(m[b].wins, m[b].games, m[parent].games, c_fp);
    assert(rescored_map(m, parent, c_fp)[a].score == Score::Finite(ua as u64));
    assert(rescored_map(m, parent, c_fp)[b].score == Score::Finite(ub as u64));
}

/// Counter conservation where the engine credits counters: one
/// credited edge grows its parent's game counter by exactly the batch,
/// up to the counter's ceiling; [`lemma_counter_conservation`] then
/// sums any sequence of such passes.
pub proof fn lemma_credited_parent_games<G: Game>(
    m: Map<NodeID, MoveTreeNode<G>>,
    p: NodeID,
    c: NodeID,
    num: u32,
    results: Seq<(G::Player, u32)>,
    c_fp: u64,
)
    requires
        m.contains_key(p),
    ensures
        credited(m, seq![(p, c)], num, results, c_fp).contains_key(p),
        credited(m, seq![(p, c)], num, results, c_fp)[p].games == sat_add32(m[p].games, num),
{
    let one = seq![(p, c)];
    assert(one.last() == (p, c));
    assert(one.drop_last() =~= Seq::<(NodeID, NodeID)>::empty());
    let stepped = step_map(m, p, c, num, results, c_fp);
    assert(credited(m, one, num, results, c_fp) == credited(stepped, one.drop_last(), num, results, c_fp));
    assert(credited(stepped, one.drop_last(), num, results, c_fp) == stepped);
    let w = spec_wins_for(results, m[c].player);
    let mid = counters_after(m, p, c, num, w);
    assert(mid.contains_key(p));
    assert(mid[p].games == sat_add32(m[p].games, num));
    if m[p].weights is None {
        assert(stepped == rescored_map(mid, p, c_fp));
        assert(stepped.contains_key(p));
        assert(rescored_map(mid, p, c_fp)[p] == mid[p]);
    } else {
        assert(stepped == mid);
    }
}

/// The arena after one recorded edge of the path is credited: the
/// counters of [`counters_after`], with the child's player looked up in
/// the tally, then the parent's children rescored when it is a decision
/// node.
pub open spec fn step_map<G: Game>(
    m: Map<NodeID, MoveTreeNode<G>>,
    parent: NodeID,
    child: NodeID,
    num: u32,
    results: Seq<(G::Player, u32)>,
    c_fp: u64,
) -> Map<NodeID, MoveTreeNode<G>> {
    let w = spec_wins_for(results, m[child].player);
    let mid = counters_after(m, parent, child, num, w);
    if m[parent].weights is None {
        rescored_map(mid, parent, c_fp)
    } else {
        mid
    }
}

/// The arena after a whole recorded path is credited, edge by edge from
/// the leaf end back to the root end.
pub open spec fn credited<G: Game>(
    m: Map<NodeID, MoveTreeNode<G>>,
    path: Seq<(NodeID, NodeID)>,
    num: u32,
    results: Seq<(G::Player, u32)>,
    c_fp: u64,
) -> Map<NodeID, MoveTreeNode<G>>
    decreases path.len(),
{
    if path.len() == 0 {
        m
    } else {
        credited(
            step_map(m, path.last().0, path.last().1, num, results, c_fp),
            path.drop_last(),
            num,
            results,
            c_fp,
        )
    }
}

/// Crediting one more edge at the far end of the remaining path folds
/// into [`credited`].
pub proof fn lemma_credited_step<G: Game>(
    mpre: Map<NodeID, MoveTreeNode<G>>,
    mpost: Map<NodeID, MoveTreeNode<G>>,
    p: NodeID,
    c: NodeID,
    num: u32,
    results: Seq<(G::Player, u32)>,
    c_fp: u64,
    rest: Seq<(NodeID, NodeID)>,
)
    requires
        mpost == step_map(mpre, p, c, num, results, c_fp),
    ensures
        credited(mpost, rest, num, results, c_fp) == credited(
            mpre,
            rest.push((p, c)),
            num,
            results,
            c_fp,
        ),
{
    let whole = rest.push((p, c));
    assert(whole.last() == (p, c));
    assert(whole.drop_last() =~= rest);
}

/// Credits one recorded edge of the backpropagation path and rescores.
///
/// The parent's game counter grows by the batch; if the edge's child is
/// still stored — it may have been evicted by an intervening root change,
/// a benign miss reported in the first result — its counters grow too,
/// with the batch wins of its player. A decision parent then has all its
/// children rescored by UCT; a chance parent skips rescoring, since its
/// children are sampled by weight, never by score.
pub fn backprop_step<G: Game>(
    nodes: &mut NodeList<G>,
    parent: NodeID,
    child: NodeID,
    num: u32,
    results: &Vec<(G::Player, u32)>,
    c_fp: u64,
) -> (r: (bool, u32))
    requires
        old(nodes).wf(),
        all_wf(old(nodes)@),
        closed(old(nodes)@),
        old(nodes)@.contains_key(parent),
        sum_counts(results@) <= num,
        num >= 1,
        c_fp <= 100_000_000,
    ensures
        final(nodes).wf(),
        all_wf(final(nodes)@),
        closed(final(nodes)@),
        forall|id: NodeID| final(nodes)@.contains_key(id) == old(nodes)@.contains_key(id),
        r.0 == !old(nodes)@.contains_key(child),
        r.1 <= num,
        old(nodes)@.contains_key(child) && child != parent
            && G::Player::obeys_eq_spec() ==> r.1 == spec_wins_for(
            results@,
            old(nodes)@[child].player,
        ),
        ({
            let mid = counters_after(old(nodes)@, parent, child, num, r.1);
            if old(nodes)@[parent].weights is None {
                rescore_post(mid, final(nodes)@, parent, c_fp)
            } else {
                final(nodes)@ =~= mid
            }
        }),
{
    let ghost m0 = nodes@;
    let miss = !nodes.contains(child);
    let mut pnode = nodes.take(parent);
    pnode.games = saturating_add32(pnode.games, num);
    let ghost pbumped = pnode;
    nodes.restore(parent, pnode);
    proof {
        assert(nodes@ =~= m0.insert(parent, bump_parent(m0[parent], num)));
    }
    let mut credited: u32 = 0;
    if !miss && child != parent {
        let ghost m1 = nodes@;
        let mut cnode = nodes.take(child);
        let w = wins_for(results, &cnode.player);
        credited = w;
        cnode.games = saturating_add32(cnode.games, num);
        cnode.simulations = saturating_add32(cnode.simulations, 1);
        cnode.wins = saturating_add32(cnode.wins, w);
        nodes.restore(child, cnode);
        proof {
            assert(m1[child] == m0[child]);
            assert(nodes@ =~= m1.insert(child, bump_child(m0[child], num, w)));
        }
    }
    proof {
        let mid = counters_after(m0, parent, child, num, credited);
        assert(nodes@ =~= mid);
        assert forall|id: NodeID, cc: NodeID|
            nodes@.contains_key(id) && #[trigger] is_child_of(nodes@[id], cc) implies
            nodes@.contains_key(cc) by {
            assert(nodes@[id].children == m0[id].children);
            assert(is_child_of(m0[id], cc));
        }
        assert forall|id: NodeID| nodes@.contains_key(id) implies nodes@[id].wf() by {
            assert(m0[id].wf());
        }
        assert(nodes@[parent].games >= 1);
    }
    let rescore = match &nodes.get(parent).weights {
        Some(_) => false,
        None => true,
    };
    if rescore {
        rescore_children(nodes, parent, c_fp);
    }
    (miss, credited)
}

/// How many recorded edges of a path point at a child that is no longer
/// stored.
pub open spec fn miss_count<G: Game>(
    m: Map<NodeID, MoveTreeNode<G>>,
    path: Seq<(NodeID, NodeID)>,
) -> nat
    decreases path.len(),
{
    if path.len() == 0 {
        0
    } else {
        ((if !m.contains_key(path[0].1) {
            1int
        } else {
            0int
        }) + miss_count(m, path.drop_first())) as nat
    }
}

/// Whether backpropagating along `path` may write to the node under
/// `id`: it appears as a recorded parent, as a recorded child, or as a
/// child link of a recorded parent (rescoring reaches those).
pub open spec fn touched<G: Game>(
    m: Map<NodeID, MoveTreeNode<G>>,
    path: Seq<(NodeID, NodeID)>,
    id: NodeID,
) -> bool {
    exists|k: int|
        0 <= k < path.len() && (#[trigger] path[k].0 == id || path[k].1 == id || is_child_of(
            m[path[k].0],
            id,
        ))
}

/// Walks the recorded path from the leaf back toward the root, crediting
/// the playout batch at every edge (see [`backprop_step`]). Returns how
/// many edges found their child evicted — the benign misses. Nodes the
/// path never touches are left exactly as they were, and no node enters
/// or leaves the arena.
pub fn backpropagate<G: Game>(
    nodes: &mut NodeList<G>,
    path: &Vec<(NodeID, NodeID)>,
    num: u32,
    results: &Vec<(G::Player, u32)>,
    c_fp: u64,
) -> (r: usize)
    requires
        old(nodes).wf(),
        all_wf(old(nodes)@),
        closed(old(nodes)@),
        forall|i: int| 0 <= i < path@.len() ==> old(nodes)@.contains_key(#[trigger] path@[i].0),
        sum_counts(results@) <= num,
        num >= 1,
        c_fp <= 100_000_000,
    ensures
        final(nodes).wf(),
        all_wf(final(nodes)@),
        closed(final(nodes)@),
        forall|id: NodeID| final(nodes)@.contains_key(id) == old(nodes)@.contains_key(id),
        forall|id: NodeID|
            old(nodes)@.contains_key(id) ==> final(nodes)@[id].children
                == old(nodes)@[id].children && final(nodes)@[id].weights
                == old(nodes)@[id].weights,
        forall|id: NodeID|
            old(nodes)@.contains_key(id) && !touched(old(nodes)@, path@, id) ==> final(nodes)@[id]
                == old(nodes)@[id],
        r == miss_count(old(nodes)@, path@),
        G::Player::obeys_eq_spec() ==> final(nodes)@ == credited(
            old(nodes)@,
            path@,
            num,
            results@,
            c_fp,
        ),
{
    let ghost m0 = nodes@;
    proof {
        assert(path@.skip(path@.len() as int) =~= Seq::<(NodeID, NodeID)>::empty());
        assert(path@.take(path@.len() as int) =~= path@);
    }
    let mut k: usize = path.len();
    let mut misses: usize = 0;
    while k > 0
        invariant
            nodes.wf(),
            all_wf(nodes@),
            closed(nodes@),
            k <= path@.len(),
            path@.len() <= usize::MAX,
            misses <= path@.len() - k,
            misses == miss_count(m0, path@.skip(k as int)),
            sum_counts(results@) <= num,
            num >= 1,
            c_fp <= 100_000_000,
            forall|i: int| 0 <= i < path@.len() ==> m0.contains_key(#[trigger] path@[i].0),
            forall|id: NodeID| nodes@.contains_key(id) == m0.contains_key(id),
            forall|id: NodeID|
                m0.contains_key(id) ==> nodes@[id].children == m0[id].children
                    && nodes@[id].weights == m0[id].weights,
            forall|id: NodeID|
                m0.contains_key(id) && !touched(m0, path@, id) ==> nodes@[id] == m0[id],
            G::Player::obeys_eq_spec() ==> credited(nodes@, path@.take(k as int), num, results@, c_fp)
                == credited(m0, path@, num, results@, c_fp),
        decreases k,
    {
        k = k - 1;
        let parent = path[k].0;
        let child = path[k].1;
        let ghost mpre = nodes@;
        let step = backprop_step(nodes, parent, child, num, results, c_fp);
        if step.0 {
            misses = misses + 1;
        }
        proof {
            assert(path@.skip(k as int)[0] == path@[k as int]);
            assert(path@.skip(k as int).drop_first() =~= path@.skip(k as int + 1));
            let mid = counters_after(mpre, parent, child, num, step.1);
            if G::Player::obeys_eq_spec() {
                let w = spec_wins_for(results@, mpre[child].player);
                let mid_s = counters_after(mpre, parent, child, num, w);
                if mpre.contains_key(child) && child != parent {
                    assert(step.1 == w);
                    assert(mid_s == mid);
                } else {
                    assert(mid_s == mid);
                }
                if mpre[parent].weights is None {
                    lemma_rescore_post_is_map(mid, nodes@, parent, c_fp);
                    assert(nodes@ == rescored_map(mid_s, parent, c_fp));
                } else {
                    assert(nodes@ =~= mid);
                }
                assert(nodes@ == step_map(mpre, parent, child, num, results@, c_fp));
                lemma_credited_step(
                    mpre,
                    nodes@,
                    parent,
                    child,
                    num,
                    results@,
                    c_fp,
                    path@.take(k as int),
                );
                assert(path@.take(k as int).push((parent, child)) =~= path@.take(k as int + 1));
                assert(credited(nodes@, path@.take(k as int), num, results@, c_fp) == credited(
                    mpre,
                    path@.take(k as int + 1),
                    num,
                    results@,
                    c_fp,
                ));
            }
            assert(mid[parent].children == mpre[parent].children && mid[parent].weights
                == mpre[parent].weights);
            if mpre.contains_key(child) && child != parent {
                assert(mid[child].children == mpre[child].children && mid[child].weights
                    == mpre[child].weights);
            }
            assert forall|id: NodeID| m0.contains_key(id) implies nodes@[id].children
                == m0[id].children && nodes@[id].weights == m0[id].weights by {
                if mpre[parent].weights is None {
                    if id != parent && is_child_of(mid[parent], id) {
                        let j = choose|j: int|
                            0 <= j < mid[parent].children@.len() && #[trigger] mid[parent].children@[j].1
                                == id;
                        assert(rescored_at(mid, nodes@, parent, mid[parent].children@[j].1, c_fp));
                        assert(same_but_score(mid[id], nodes@[id]));
                    } else {
                        assert(nodes@[id] == mid[id]);
                    }
                }
            }
            assert forall|id: NodeID|
                m0.contains_key(id) && !touched(m0, path@, id) implies nodes@[id] == m0[id] by {
                assert(path@[k as int].0 != id && path@[k as int].1 != id && !is_child_of(
                    m0[path@[k as int].0],
                    id,
                ));
                assert(mpre[id] == m0[id]);
                assert(mpre[parent].children == m0[parent].children);
                assert(!is_child_of(mpre[parent], id));
                assert(mid[id] == mpre[id]);
                if mpre[parent].weights is None {
                    assert(mid[parent].children == m0[parent].children);
                    assert(!is_child_of(mid[parent], id));
                    assert(nodes@[id] == mid[id]);
                }
            }
        }
    }
    proof {
        assert(path@.skip(0) =~= path@);
        if G::Player::obeys_eq_spec() {
            assert(path@.take(0) =~= Seq::<(NodeID, NodeID)>::empty());
            assert(credited(nodes@, path@.take(0), num, results@, c_fp) == nodes@);
        }
    }
    misses
}

/// How many selection hops one search step may make before treating the
/// position it stands on as the leaf to evaluate.
pub const SELECT_STEP_LIMIT: u64 = 1_000_000_000;

/// Nodes keep identity and accounting through the select and expand
/// phases: the state snapshot, player, counters and score are untouched,
/// recorded children may only be extended, and recorded weights never
/// change once present.
pub open spec fn grew_from<G: Game>(a: MoveTreeNode<G>, b: MoveTreeNode<G>) -> bool {
    &&& b.game == a.game
    &&& b.player == a.player
    &&& b.games == a.games
    &&& b.wins == a.wins
    &&& b.simulations == a.simulations
    &&& b.score == a.score
    &&& a.children@.len() <= b.children@.len()
    &&& forall|i: int| 0 <= i < a.children@.len() ==> #[trigger] b.children@[i] == a.children@[i]
    &&& (a.weights is Some ==> b.weights == a.weights)
}

/// Whether `id` stands as a recorded parent on the path.
pub open spec fn on_path(path: Seq<(NodeID, NodeID)>, id: NodeID) -> bool {
    exists|k: int| 0 <= k < path.len() && (#[trigger] path[k]).0 == id
}

/// A node that no playout batch has ever been credited to.
pub open spec fn fresh_counters<G: Game>(n: MoveTreeNode<G>) -> bool {
    &&& n.games == 0
    &&& n.wins == 0
    &&& n.simulations == 0
    &&& n.score == Score::Unbounded
}

/// A fresh, never-expanded node: no counters, no links, no weights.
pub open spec fn fresh_node<G: Game>(n: MoveTreeNode<G>) -> bool {
    &&& fresh_counters(n)
    &&& n.children@.len() == 0
    &&& n.weights is None
}

/// Every node of `m0` survives into `m` and only grows
/// ([`grew_from`]), and every node `m` adds carries no counters.
#[verifier::opaque]
pub open spec fn arena_grew<G: Game>(
    m0: Map<NodeID, MoveTreeNode<G>>,
    m: Map<NodeID, MoveTreeNode<G>>,
) -> bool {
    &&& forall|id: NodeID|
        #[trigger] m0.contains_key(id) ==> m.contains_key(id) && grew_from(m0[id], m[id])
    &&& forall|id: NodeID|
        #[trigger] m.contains_key(id) && !m0.contains_key(id) ==> fresh_counters(m[id])
}

/// Nodes neither stood on nor walked are untouched, and added nodes off
/// the walk are entirely fresh.
#[verifier::opaque]
pub open spec fn walk_frame<G: Game>(
    m0: Map<NodeID, MoveTreeNode<G>>,
    m: Map<NodeID, MoveTreeNode<G>>,
    cur: NodeID,
    path: Seq<(NodeID, NodeID)>,
) -> bool {
    &&& forall|id: NodeID|
        m.contains_key(id) && !m0.contains_key(id) && id != cur && !on_path(path, id)
            ==> fresh_node(#[trigger] m[id])
    &&& forall|id: NodeID|
        m0.contains_key(id) && id != cur && !on_path(path, id) ==> #[trigger] m[id] == m0[id]
}

/// The path is a root-to-`cur` chain of recorded child links of stored
/// nodes.
#[verifier::opaque]
pub open spec fn path_chain<G: Game>(
    m: Map<NodeID, MoveTreeNode<G>>,
    root: NodeID,
    cur: NodeID,
    path: Seq<(NodeID, NodeID)>,
) -> bool {
    &&& (path.len() == 0 ==> cur == root)
    &&& (path.len() > 0 ==> path[0].0 == root && path[path.len() - 1].1 == cur)
    &&& forall|k: int| 0 <= k < path.len() - 1 ==> (#[trigger] path[k]).1 == path[k + 1].0
    &&& forall|k: int|
        0 <= k < path.len() ==> m.contains_key((#[trigger] path[k]).0) && is_child_of(
            m[path[k].0],
            path[k].1,
        )
}

/// The running shape of a select/expand walk, relating the arena
/// before (`m0`) and during (`m`) to the root, the position stood on
/// (`cur`) and the recorded path.
pub open spec fn walk_inv<G: Game>(
    m0: Map<NodeID, MoveTreeNode<G>>,
    m: Map<NodeID, MoveTreeNode<G>>,
    root: NodeID,
    cur: NodeID,
    path: Seq<(NodeID, NodeID)>,
) -> bool {
    &&& m.contains_key(cur)
    &&& arena_grew(m0, m)
    &&& walk_frame(m0, m, cur, path)
    &&& path_chain(m, root, cur, path)
}

/// What the select and expand phases promise, relating the arena before
/// (`m0`) and after (`m1`) to the root, the returned leaf and the
/// recorded path: the walk shape of [`walk_inv`], ending at the leaf,
/// and a root with children always yields a walk.
pub open spec fn select_post<G: Game>(
    m0: Map<NodeID, MoveTreeNode<G>>,
    m1: Map<NodeID, MoveTreeNode<G>>,
    root: NodeID,
    leaf: NodeID,
    path: Seq<(NodeID, NodeID)>,
) -> bool {
    &&& walk_inv(m0, m1, root, leaf, path)
    &&& (m0.contains_key(root) && m0[root].children@.len() > 0 ==> path.len() > 0)
}

/// Whether some recorded child already carries this move.
fn contains_move_key<M: PartialEq + Eq>(children: &Vec<(M, NodeID)>, mv: &M) -> (r: bool)
    ensures
        M::obeys_eq_spec() ==> (r <==> exists|k: int|
            0 <= k < children@.len() && (#[trigger] children@[k]).0.eq_spec(mv)),
{
    let mut i: usize = 0;
    while i < children.len()
        invariant
            i <= children@.len(),
            M::obeys_eq_spec() ==> forall|k: int|
                0 <= k < i ==> !(#[trigger] children@[k]).0.eq_spec(mv),
        decreases children@.len() - i,
    {
        if children[i].0 == *mv {
            return true;
        }
        i = i + 1;
    }
    false
}

/// Extending a recorded root-to-`cur0` chain by one recorded child
/// link gives a recorded root-to-`c` chain, and everything newly on the
/// path is exactly `cur0`.
pub proof fn lemma_path_extend<G: Game>(
    m: Map<NodeID, MoveTreeNode<G>>,
    path0: Seq<(NodeID, NodeID)>,
    root: NodeID,
    cur0: NodeID,
    c: NodeID,
)
    requires
        path0.len() == 0 ==> cur0 == root,
        path0.len() > 0 ==> path0[0].0 == root && path0[path0.len() - 1].1 == cur0,
        forall|k: int| 0 <= k < path0.len() - 1 ==> (#[trigger] path0[k]).1 == path0[k + 1].0,
        forall|k: int|
            0 <= k < path0.len() ==> m.contains_key((#[trigger] path0[k]).0) && is_child_of(
                m[path0[k].0],
                path0[k].1,
            ),
        m.contains_key(cur0),
        is_child_of(m[cur0], c),
    ensures
        path0.push((cur0, c))[0].0 == root,
        path0.push((cur0, c))[path0.push((cur0, c)).len() - 1].1 == c,
        forall|k: int|
            0 <= k < path0.push((cur0, c)).len() - 1 ==> (#[trigger] path0.push((cur0, c))[k]).1
                == path0.push((cur0, c))[k + 1].0,
        forall|k: int|
            0 <= k < path0.push((cur0, c)).len() ==> m.contains_key(
                (#[trigger] path0.push((cur0, c))[k]).0,
            ) && is_child_of(m[path0.push((cur0, c))[k].0], path0.push((cur0, c))[k].1),
        forall|id: NodeID|
            !on_path(path0.push((cur0, c)), id) ==> !on_path(path0, id) && id != cur0,
{
    let path1 = path0.push((cur0, c));
    assert(path1[path1.len() - 1] == (cur0, c));
    assert forall|k: int| 0 <= k < path1.len() - 1 implies (#[trigger] path1[k]).1 == path1[k
        + 1].0 by {
        if k < path0.len() - 1 {
            assert(path1[k] == path0[k] && path1[k + 1] == path0[k + 1]);
        } else {
            assert(path1[k] == path0[path0.len() - 1]);
        }
    }
    assert forall|k: int| 0 <= k < path1.len() implies m.contains_key((#[trigger] path1[k]).0)
        && is_child_of(m[path1[k].0], path1[k].1) by {
        if k < path0.len() {
            assert(path1[k] == path0[k]);
        }
    }
    assert forall|id: NodeID| !on_path(path1, id) implies !on_path(path0, id) && id != cur0 by {
        assert(path1[path1.len() - 1].0 == cur0);
        if on_path(path0, id) {
            let k = choose|k: int| 0 <= k < path0.len() && (#[trigger] path0[k]).0 == id;
            assert(path1[k].0 == id);
        }
    }
}

/// Inserting a fresh node at an absent key (or reusing a present one)
/// keeps every node a hole-frame knew about and makes any new entry the
/// fresh node.
pub proof fn lemma_add_if_absent_frame<G: Game>(
    mhole: Map<NodeID, MoveTreeNode<G>>,
    mpre: Map<NodeID, MoveTreeNode<G>>,
    mpost: Map<NodeID, MoveTreeNode<G>>,
    cid: NodeID,
    gfresh: MoveTreeNode<G>,
)
    requires
        forall|id: NodeID|
            #[trigger] mhole.contains_key(id) ==> mpre.contains_key(id) && mpre[id] == mhole[id],
        forall|id: NodeID|
            #[trigger] mpre.contains_key(id) && !mhole.contains_key(id) ==> fresh_node(mpre[id]),
        mpre.contains_key(cid) ==> mpost == mpre,
        !mpre.contains_key(cid) ==> mpost == mpre.insert(cid, gfresh),
        fresh_node(gfresh),
    ensures
        forall|id: NodeID|
            #[trigger] mhole.contains_key(id) ==> mpost.contains_key(id) && mpost[id]
                == mhole[id],
        forall|id: NodeID|
            #[trigger] mpost.contains_key(id) && !mhole.contains_key(id) ==> fresh_node(
                mpost[id],
            ),
        mpost.contains_key(cid),
{
    assert forall|id: NodeID|
        mhole.contains_key(id) implies mpost.contains_key(id) && #[trigger] mpost[id]
        == mhole[id] by {
        assert(mpre.contains_key(id) && mpre[id] == mhole[id]);
    }
    assert forall|id: NodeID|
        #[trigger] mpost.contains_key(id) && !mhole.contains_key(id) implies fresh_node(
        mpost[id],
    ) by {
        if mpre.contains_key(id) {
            assert(fresh_node(mpre[id]));
        }
    }
}

/// Growth is reflexive.
pub proof fn lemma_grew_refl<G: Game>(a: MoveTreeNode<G>)
    ensures
        grew_from(a, a),
{
}

/// Growth composes: a node that grew twice grew once.
pub proof fn lemma_grew_trans<G: Game>(a: MoveTreeNode<G>, b: MoveTreeNode<G>, c: MoveTreeNode<G>)
    requires
        grew_from(a, b),
        grew_from(b, c),
    ensures
        grew_from(a, c),
{
    assert forall|i: int| 0 <= i < a.children@.len() implies #[trigger] c.children@[i]
        == a.children@[i] by {
        assert(b.children@[i] == a.children@[i]);
        assert(c.children@[i] == b.children@[i]);
    }
}

/// Growth never touches the counters or the score.
pub proof fn lemma_grew_keeps_counters<G: Game>(a: MoveTreeNode<G>, b: MoveTreeNode<G>)
    requires
        grew_from(a, b),
    ensures
        b.games == a.games,
        b.wins == a.wins,
        b.simulations == a.simulations,
        b.score == a.score,
{
}

/// Expands a childless node: checks it out, links one child per legal
/// continuation of its position — a repeated move is dropped, and a
/// continuation whose state is already stored (a transposition) reuses
/// that node with its statistics — records the raw chance weights when
/// they carry a positive total, and returns it. Every other stored node
/// is untouched, every node stored fresh is an unexpanded zero-counter
/// node, and the expanded node itself only grows. Returns whether any
/// child was linked.
fn expand_leaf<G: Game>(nodes: &mut NodeList<G>, cur: NodeID) -> (expanded: bool)
    requires
        old(nodes).wf(),
        all_wf(old(nodes)@),
        closed(old(nodes)@),
        old(nodes)@.contains_key(cur),
        old(nodes)@[cur].children@.len() == 0,
    ensures
        final(nodes).wf(),
        all_wf(final(nodes)@),
        closed(final(nodes)@),
        forall|id: NodeID|
            old(nodes)@.contains_key(id) ==> #[trigger] final(nodes)@.contains_key(id),
        forall|id: NodeID|
            old(nodes)@.contains_key(id) && id != cur ==> #[trigger] final(nodes)@[id] == old(
                nodes,
            )@[id],
        final(nodes)@.contains_key(cur),
        grew_from(old(nodes)@[cur], final(nodes)@[cur]),
        forall|id: NodeID|
            #[trigger] final(nodes)@.contains_key(id) && !old(nodes)@.contains_key(id)
                ==> fresh_node(final(nodes)@[id]),
        expanded == (final(nodes)@[cur].children@.len() > 0),
{
    let ghost mentry = nodes@;
    let mut node = nodes.take(cur);
    let ghost node0 = node;
    let ghost mhole = nodes@;
    proof {
        assert(node0 == mentry[cur]);
        assert(node0.children@.len() == 0);
    }
    match node.game.available_moves() {
        MoveList::Choice(mvs) => {
            let mut rest = mvs;
            while rest.len() > 0
                invariant
                    nodes.wf(),
                    closed_except(nodes@, cur),
                    forall|id: NodeID|
                        #[trigger] mhole.contains_key(id) ==> nodes@.contains_key(id)
                            && nodes@[id] == mhole[id],
                    forall|id: NodeID|
                        #[trigger] nodes@.contains_key(id) && !mhole.contains_key(id)
                            ==> fresh_node(nodes@[id]),
                    node.game == node0.game,
                    node.player == node0.player,
                    node.games == node0.games,
                    node.wins == node0.wins,
                    node.simulations == node0.simulations,
                    node.score == node0.score,
                    node.weights is None,
                    forall|j: int|
                        0 <= j < node.children@.len() ==> nodes@.contains_key(
                            (#[trigger] node.children@[j]).1,
                        ) || node.children@[j].1 == cur,
                    G::Move::obeys_eq_spec() ==> forall|i: int, j: int|
                        0 <= i < j < node.children@.len() ==> !(
                        #[trigger] node.children@[i].0.eq_spec(&node.children@[j].0)),
                decreases rest@.len(),
            {
                let mv = rest.remove(0);
                if !contains_move_key(&node.children, &mv) {
                    let ghost kids0 = node.children@;
                    let ghost mpre = nodes@;
                    let mut g2 = node.game.clone();
                    g2.make_move(&mv);
                    let fresh = MoveTreeNode::new(g2);
                    let ghost gfresh = fresh;
                    let cid = nodes.add_if_absent(fresh);
                    node.children.push((mv, cid));
                    proof {
                        lemma_add_if_absent_frame(mhole, mpre, nodes@, cid, gfresh);
                        if G::Move::obeys_eq_spec() {
                            assert forall|i: int, j: int|
                                0 <= i < j < node.children@.len() implies !(
                            #[trigger] node.children@[i].0.eq_spec(&node.children@[j].0)) by {
                                if j < kids0.len() {
                                    assert(node.children@[i] == kids0[i] && node.children@[j]
                                        == kids0[j]);
                                } else {
                                    assert(node.children@[i] == kids0[i]);
                                }
                            }
                        }
                    }
                }
            }
        },
        MoveList::Random(mvs) => {
            let mut weights: Vec<u64> = Vec::new();
            let mut rest = mvs;
            while rest.len() > 0
                invariant
                    nodes.wf(),
                    closed_except(nodes@, cur),
                    forall|id: NodeID|
                        #[trigger] mhole.contains_key(id) ==> nodes@.contains_key(id)
                            && nodes@[id] == mhole[id],
                    forall|id: NodeID|
                        #[trigger] nodes@.contains_key(id) && !mhole.contains_key(id)
                            ==> fresh_node(nodes@[id]),
                    node.game == node0.game,
                    node.player == node0.player,
                    node.games == node0.games,
                    node.wins == node0.wins,
                    node.simulations == node0.simulations,
                    node.score == node0.score,
                    node.weights is None,
                    weights@.len() == node.children@.len(),
                    forall|j: int|
                        0 <= j < node.children@.len() ==> nodes@.contains_key(
                            (#[trigger] node.children@[j]).1,
                        ) || node.children@[j].1 == cur,
                    G::Move::obeys_eq_spec() ==> forall|i: int, j: int|
                        0 <= i < j < node.children@.len() ==> !(
                        #[trigger] node.children@[i].0.eq_spec(&node.children@[j].0)),
                decreases rest@.len(),
            {
                let pair = rest.remove(0);
                let mv = pair.0;
                if !contains_move_key(&node.children, &mv) {
                    let ghost kids0 = node.children@;
                    let ghost mpre = nodes@;
                    let mut g2 = node.game.clone();
                    g2.make_move(&mv);
                    let fresh = MoveTreeNode::new(g2);
                    let ghost gfresh = fresh;
                    let cid = nodes.add_if_absent(fresh);
                    node.children.push((mv, cid));
                    weights.push(pair.1);
                    proof {
                        lemma_add_if_absent_frame(mhole, mpre, nodes@, cid, gfresh);
                        if G::Move::obeys_eq_spec() {
                            assert forall|i: int, j: int|
                                0 <= i < j < node.children@.len() implies !(
                            #[trigger] node.children@[i].0.eq_spec(&node.children@[j].0)) by {
                                if j < kids0.len() {
                                    assert(node.children@[i] == kids0[i] && node.children@[j]
                                        == kids0[j]);
                                } else {
                                    assert(node.children@[i] == kids0[i]);
                                }
                            }
                        }
                    }
                }
            }
            let total = sum_u128(&weights);
            if total > 0 {
                node.weights = Some(weights);
            }
        },
    }
    let expanded = node.children.len() > 0;
    let ghost mdone = nodes@;
    let ghost placed = node;
    nodes.restore(cur, node);
    proof {
        assert(placed.wf());
        assert forall|id: NodeID, cc: NodeID|
            nodes@.contains_key(id) && #[trigger] is_child_of(nodes@[id], cc) implies
            nodes@.contains_key(cc) by {
            if id == cur {
                let j = choose|j: int|
                    0 <= j < placed.children@.len() && #[trigger] placed.children@[j].1 == cc;
                assert(mdone.contains_key(cc) || cc == cur);
            } else {
                assert(nodes@[id] == mdone[id]);
                assert(is_child_of(mdone[id], cc));
                assert(mdone.contains_key(cc) || cc == cur);
            }
        }
        assert forall|id: NodeID| nodes@.contains_key(id) implies nodes@[id].wf() by {
            if id != cur {
                assert(nodes@[id] == mdone[id]);
                if mhole.contains_key(id) {
                    assert(mdone[id] == mhole[id]);
                    assert(mentry[id] == mhole[id]);
                    assert(mentry[id].wf());
                } else {
                    assert(fresh_node(mdone[id]));
                }
            }
        }
        if mentry[cur].weights is Some {
            assert(mentry[cur].wf());
            assert(false);
        }
        assert(grew_from(mentry[cur], placed)) by {
                }
        assert forall|id: NodeID|
            mentry.contains_key(id) && id != cur implies #[trigger] nodes@[id] == mentry[id] by {
            assert(mhole.contains_key(id));
            assert(mhole[id] == mentry[id]);
            assert(nodes@[id] == mdone[id] && mdone[id] == mhole[id]);
        }
        assert forall|id: NodeID|
            mentry.contains_key(id) implies #[trigger] nodes@.contains_key(id) by {
            if id != cur {
                assert(mhole.contains_key(id));
            }
        }
        assert forall|id: NodeID|
            #[trigger] nodes@.contains_key(id) && !mentry.contains_key(id) implies fresh_node(
            nodes@[id],
        ) by {
            assert(nodes@[id] == mdone[id]);
            assert(!mhole.contains_key(id));
            assert(fresh_node(mdone[id]));
        }
    }
    expanded
}

/// One selection hop preserves the walk shape: descending from `cur0`
/// into its recorded child `c` extends the path by that edge.
#[verifier::rlimit(100)]
pub proof fn lemma_walk_step_select<G: Game>(
    m0: Map<NodeID, MoveTreeNode<G>>,
    m: Map<NodeID, MoveTreeNode<G>>,
    root: NodeID,
    cur0: NodeID,
    c: NodeID,
    path0: Seq<(NodeID, NodeID)>,
)
    requires
        walk_inv(m0, m, root, cur0, path0),
        m.contains_key(cur0),
        is_child_of(m[cur0], c),
        m.contains_key(c),
    ensures
        walk_inv(m0, m, root, c, path0.push((cur0, c))),
{
    reveal(walk_frame);
    reveal(path_chain);
    let path1 = path0.push((cur0, c));
    lemma_path_extend(m, path0, root, cur0, c);
    assert(path_chain(m, root, c, path1));
    assert(path1[path1.len() - 1].0 == cur0);
    assert forall|id: NodeID| !on_path(path1, id) implies !on_path(path0, id) && id != cur0 by {
        if on_path(path0, id) {
            let k = choose|k: int| 0 <= k < path0.len() && (#[trigger] path0[k]).0 == id;
            assert(path1[k].0 == id);
        }
    }
    assert forall|id: NodeID|
        m.contains_key(id) && !m0.contains_key(id) && id != c && !on_path(path1, id) implies
        fresh_node(#[trigger] m[id]) by {
        assert(!on_path(path0, id) && id != cur0);
        let seed = m[id];
        assert(fresh_node(m[id]));
    }
    assert forall|id: NodeID|
        m0.contains_key(id) && id != c && !on_path(path1, id) implies #[trigger] m[id]
        == m0[id] by {
        assert(!on_path(path0, id) && id != cur0);
        let seed = m[id];
        assert(m[id] == m0[id]);
    }
    assert(walk_frame(m0, m, c, path1));
}

/// Expanding the stood-on node preserves the walk shape: the expansion
/// leaves every other node alone, only grows the stood-on node, and
/// inserts only fresh nodes.
#[verifier::rlimit(100)]
pub proof fn lemma_walk_step_expand<G: Game>(
    m0: Map<NodeID, MoveTreeNode<G>>,
    mentry: Map<NodeID, MoveTreeNode<G>>,
    mpost: Map<NodeID, MoveTreeNode<G>>,
    root: NodeID,
    cur: NodeID,
    path: Seq<(NodeID, NodeID)>,
)
    requires
        walk_inv(m0, mentry, root, cur, path),
        mentry.contains_key(cur),
        mentry[cur].children@.len() == 0,
        forall|id: NodeID| mentry.contains_key(id) ==> #[trigger] mpost.contains_key(id),
        forall|id: NodeID|
            mentry.contains_key(id) && id != cur ==> #[trigger] mpost[id] == mentry[id],
        mpost.contains_key(cur),
        grew_from(mentry[cur], mpost[cur]),
        forall|id: NodeID|
            #[trigger] mpost.contains_key(id) && !mentry.contains_key(id) ==> fresh_node(
                mpost[id],
            ),
    ensures
        walk_inv(m0, mpost, root, cur, path),
{
    reveal(arena_grew);
    reveal(walk_frame);
    reveal(path_chain);
    assert forall|id: NodeID|
        #[trigger] m0.contains_key(id) implies mpost.contains_key(id) && grew_from(
        m0[id],
        mpost[id],
    ) by {
        let seed = grew_from(m0[id], mentry[id]);
        assert(mentry.contains_key(id) && grew_from(m0[id], mentry[id]));
        if id != cur {
            let seed2 = mpost[id];
            assert(mpost[id] == mentry[id]);
        } else {
            lemma_grew_trans(m0[id], mentry[id], mpost[id]);
        }
    }
    assert forall|id: NodeID|
        #[trigger] mpost.contains_key(id) && !m0.contains_key(id) implies fresh_counters(
        mpost[id],
    ) by {
        if mentry.contains_key(id) {
            let seed1 = mentry[id];
            assert(fresh_counters(mentry[id]));
            if id != cur {
                let seed2 = mpost[id];
                assert(mpost[id] == mentry[id]);
            } else {
                lemma_grew_keeps_counters(mentry[cur], mpost[cur]);
            }
        } else {
            let seed3 = mpost[id];
            assert(fresh_node(mpost[id]));
        }
    }
    assert forall|id: NodeID|
        mpost.contains_key(id) && !m0.contains_key(id) && id != cur && !on_path(path, id)
        implies fresh_node(#[trigger] mpost[id]) by {
        if mentry.contains_key(id) {
            let seed1 = mentry[id];
            let seed2 = mpost[id];
            assert(fresh_node(mentry[id]));
            assert(mpost[id] == mentry[id]);
        } else {
            let seed3 = mpost[id];
            assert(fresh_node(mpost[id]));
        }
    }
    assert forall|id: NodeID|
        m0.contains_key(id) && id != cur && !on_path(path, id) implies #[trigger] mpost[id]
        == m0[id] by {
        let seed1 = grew_from(m0[id], mentry[id]);
        assert(mentry.contains_key(id));
        let seed2 = mentry[id];
        assert(mentry[id] == m0[id]);
        let seed3 = mpost[id];
        assert(mpost[id] == mentry[id]);
    }
    assert forall|k: int|
        0 <= k < path.len() implies mpost.contains_key((#[trigger] path[k]).0) && is_child_of(
        mpost[path[k].0],
        path[k].1,
    ) by {
        let seed1 = is_child_of(mentry[path[k].0], path[k].1);
        assert(mentry.contains_key(path[k].0) && is_child_of(mentry[path[k].0], path[k].1));
        if path[k].0 == cur {
            assert(is_child_of(mentry[cur], path[k].1));
            assert(false);
        }
        let seed2 = mpost[path[k].0];
        assert(mpost[path[k].0] == mentry[path[k].0]);
    }
    assert(arena_grew(m0, mpost));
    assert(walk_frame(m0, mpost, cur, path));
    assert(path_chain(mpost, root, cur, path));
}

/// A walked-over arena never loses recorded children: any node of the
/// starting arena keeps at least its child count.
pub proof fn lemma_walk_inv_children_grew<G: Game>(
    m0: Map<NodeID, MoveTreeNode<G>>,
    m: Map<NodeID, MoveTreeNode<G>>,
    root: NodeID,
    cur: NodeID,
    path: Seq<(NodeID, NodeID)>,
)
    requires
        walk_inv(m0, m, root, cur, path),
        m0.contains_key(root),
    ensures
        m.contains_key(root),
        m[root].children@.len() >= m0[root].children@.len(),
{
    reveal(arena_grew);
    let seed = grew_from(m0[root], m[root]);
    assert(m.contains_key(root) && grew_from(m0[root], m[root]));
}

/// The plain consequences of a finished walk that callers need without
/// opening the shape: the leaf and every pre-existing node and path
/// parent are stored.
#[verifier::rlimit(100)]
pub proof fn lemma_select_post_facts<G: Game>(
    m0: Map<NodeID, MoveTreeNode<G>>,
    m1: Map<NodeID, MoveTreeNode<G>>,
    root: NodeID,
    leaf: NodeID,
    path: Seq<(NodeID, NodeID)>,
)
    requires
        select_post(m0, m1, root, leaf, path),
    ensures
        m1.contains_key(leaf),
        forall|id: NodeID| m0.contains_key(id) ==> #[trigger] m1.contains_key(id),
        forall|k: int| 0 <= k < path.len() ==> m1.contains_key((#[trigger] path[k]).0),
{
    reveal(arena_grew);
    reveal(path_chain);
    assert forall|id: NodeID| m0.contains_key(id) implies #[trigger] m1.contains_key(id) by {
        let seed = grew_from(m0[id], m1[id]);
        assert(m1.contains_key(id) && grew_from(m0[id], m1[id]));
    }
    assert forall|k: int|
        0 <= k < path.len() implies m1.contains_key((#[trigger] path[k]).0) by {
        let seed = is_child_of(m1[path[k].0], path[k].1);
        assert(m1.contains_key(path[k].0) && is_child_of(m1[path[k].0], path[k].1));
    }
}

/// Chooses the child to descend into from a node with children: at a
/// chance node one child sampled by weight, at a decision node one of
/// the children tied for the greatest UCT score, drawn uniformly. The
/// second result says the walk must stop there: a decision node just
/// handed out an untried, sentinel-scored child.
fn select_child<G: Game>(nodes: &NodeList<G>, cur: NodeID) -> (r: (NodeID, bool))
    requires
        nodes.wf(),
        all_wf(nodes@),
        closed(nodes@),
        nodes@.contains_key(cur),
        nodes@[cur].children@.len() > 0,
    ensures
        is_child_of(nodes@[cur], r.0),
        nodes@.contains_key(r.0),
        r.1 ==> nodes@[r.0].score == Score::Unbounded,
{
    let is_chance = match &nodes.get(cur).weights {
        Some(_) => true,
        None => false,
    };
    let c: NodeID;
    let mut stop = false;
    if is_chance {
        let node = nodes.get(cur);
        let j = match &node.weights {
            Some(w) => sample_weighted(w),
            None => 0,
        };
        c = node.children[j].1;
    } else {
        let node = nodes.get(cur);
        proof {
            assert forall|i: int| 0 <= i < node.children@.len() implies nodes@.contains_key(
                #[trigger] node.children@[i].1,
            ) by {
                assert(is_child_of(nodes@[cur], node.children@[i].1));
            }
        }
        let picked = all_max(nodes, &node.children);
        let d = draw_below(picked.1.len() as u128);
        let j = picked.1[d as usize];
        c = node.children[j].1;
        stop = match picked.0 {
            Score::Unbounded => true,
            Score::Finite(_) => false,
        };
        proof {
            assert(child_score(nodes@, node.children@, j as int) == picked.0);
        }
    }
    proof {
        assert(is_child_of(nodes@[cur], c));
    }
    (c, stop)
}

/// Walks from the root to a leaf, expanding the leaf when it has never
/// been expanded: the select and expand phases of one search step.
///
/// At a chance node one child is sampled by weight and the walk goes on.
/// At a decision node the children tied for the greatest UCT score are
/// collected, one of them is chosen uniformly at random, and the walk
/// goes on — unless the greatest score was the unbounded sentinel, in
/// which case the freshly chosen untried child is the leaf. A node with
/// no children is expanded: one new node per legal continuation (a
/// repeated move or a transposed state reuses its node), linked under
/// it, with the raw weights recorded when the continuations are a
/// chance set carrying a positive total; if nothing can be expanded (a
/// terminal position), the node itself is the leaf. Returns the leaf
/// and the recorded (parent, child) edges from the root down to it,
/// per [`select_post`].
#[verifier::rlimit(100)]
pub fn select_and_expand<G: Game>(
    nodes: &mut NodeList<G>,
    root: NodeID,
    config: &SearchConfig,
) -> (r: (NodeID, Vec<(NodeID, NodeID)>))
    requires
        old(nodes).wf(),
        all_wf(old(nodes)@),
        closed(old(nodes)@),
        old(nodes)@.contains_key(root),
        config.wf(),
    ensures
        final(nodes).wf(),
        all_wf(final(nodes)@),
        closed(final(nodes)@),
        select_post(old(nodes)@, final(nodes)@, root, r.0, r.1@),
        2 * r.1@.len() + 1 < SELECT_STEP_LIMIT ==> final(nodes)@[r.0].score == Score::Unbounded
            || final(nodes)@[r.0].children@.len() == 0,
{
    let ghost m0 = nodes@;
    let mut cur: NodeID = root;
    let mut path: Vec<(NodeID, NodeID)> = Vec::new();
    let mut steps: u64 = 0;
    let mut done = false;
    proof {
        assert(arena_grew(m0, m0)) by {
            reveal(arena_grew);
            assert forall|id: NodeID|
                #[trigger] m0.contains_key(id) implies m0.contains_key(id) && grew_from(
                m0[id],
                m0[id],
            ) by {
                lemma_grew_refl(m0[id]);
            }
        }
        assert(walk_frame(m0, m0, root, path@)) by {
            reveal(walk_frame);
        }
        assert(path_chain(m0, root, root, path@)) by {
            reveal(path_chain);
        }
    }
    while !done && steps < SELECT_STEP_LIMIT
        invariant
            nodes.wf(),
            all_wf(nodes@),
            closed(nodes@),
            config.wf(),
            m0.contains_key(root),
            nodes@.contains_key(cur),
            steps <= SELECT_STEP_LIMIT,
            steps == 0 ==> !done && path@.len() == 0 && cur == root,
            walk_inv(m0, nodes@, root, cur, path@),
            m0[root].children@.len() > 0 && steps > 0 ==> path@.len() > 0,
            steps <= 2 * path@.len() + 1,
            done || nodes@[cur].children@.len() > 0 || steps <= 2 * path@.len(),
            done ==> nodes@[cur].score == Score::Unbounded || nodes@[cur].children@.len() == 0,
        decreases SELECT_STEP_LIMIT - steps,
    {
        steps = steps + 1;
        proof {
            if m0[root].children@.len() > 0 && path@.len() == 0 {
                lemma_walk_inv_children_grew(m0, nodes@, root, cur, path@);
            }
        }
        let has_children = nodes.get(cur).children.len() > 0;
        if has_children {
            let picked = select_child(nodes, cur);
            let c = picked.0;
            proof {
                lemma_walk_step_select(m0, nodes@, root, cur, c, path@);
            }
            let ghost path0 = path@;
            let ghost cur0 = cur;
            path.push((cur, c));
            cur = c;
            proof {
                assert(path@ == path0.push((cur0, c)));
            }
            if picked.1 {
                done = true;
            }
        } else {
            let ghost mentry = nodes@;
            let expanded = expand_leaf(nodes, cur);
            proof {
                lemma_walk_step_expand(m0, mentry, nodes@, root, cur, path@);
            }
            if !expanded {
                done = true;
            }
        }
    }
    proof {
        assert(steps >= 1);
        assert(select_post(m0, nodes@, root, cur, path@));
    }
    (cur, path)
}

/// Every child link of a stored node leads to a stored node or to the
/// one checked-out key.
pub open spec fn closed_except<G: Game>(m: Map<NodeID, MoveTreeNode<G>>, hole: NodeID) -> bool {
    forall|id: NodeID, c: NodeID|
        m.contains_key(id) && #[trigger] is_child_of(m[id], c) ==> m.contains_key(c) || c == hole
}

/// What one search step does to the arena: there exist a walked leaf,
/// a recorded path and a playout tally such that the arena first grew
/// by the walk ([`select_post`]) and — with well-behaved player
/// equality — then became exactly the walked arena credited along the
/// path ([`credited`]).
pub open spec fn step_post<G: Game>(
    m0: Map<NodeID, MoveTreeNode<G>>,
    m1: Map<NodeID, MoveTreeNode<G>>,
    root: NodeID,
    batch: u32,
    c_fp: u64,
) -> bool {
    exists|leaf: NodeID, path: Seq<(NodeID, NodeID)>, mid: Map<NodeID, MoveTreeNode<G>>, results: Seq<(G::Player, u32)>|
        {
            &&& #[trigger] select_post(m0, mid, root, leaf, path)
            &&& #[trigger] sum_counts(results) <= batch
            &&& (G::Player::obeys_eq_spec() ==> m1 == credited(mid, path, batch, results, c_fp))
        }
}

/// One full search step rooted at `root`: walks to a leaf (expanding it
/// if needed), plays one batch of random playouts from the leaf's
/// position, and credits the outcome back along the walked path (see
/// [`step_post`]). Returns how many playouts the step contributed —
/// always exactly the configured batch.
pub fn montecarlo<G: Game>(nodes: &mut NodeList<G>, root: NodeID, config: &SearchConfig) -> (r:
    u32)
    requires
        old(nodes).wf(),
        all_wf(old(nodes)@),
        closed(old(nodes)@),
        old(nodes)@.contains_key(root),
        config.wf(),
    ensures
        final(nodes).wf(),
        all_wf(final(nodes)@),
        closed(final(nodes)@),
        forall|id: NodeID| old(nodes)@.contains_key(id) ==> final(nodes)@.contains_key(id),
        final(nodes)@.contains_key(root),
        step_post(old(nodes)@, final(nodes)@, root, config.batch_size, config.exploration_fp),
        r == config.batch_size,
{
    let ghost m0 = nodes@;
    let r = select_and_expand(nodes, root, config);
    let cur = r.0;
    let path = r.1;
    let ghost mid = nodes@;
    proof {
        lemma_select_post_facts(m0, nodes@, root, cur, path@);
    }
    let leaf_game = nodes.get(cur).game.clone();
    let sim = simulate_batch(&leaf_game, config.batch_size);
    let _misses = backpropagate(nodes, &path, sim.0, &sim.1, config.exploration_fp);
    proof {
        assert(select_post(m0, mid, root, cur, path@));
        assert(sum_counts(sim.1@) <= config.batch_size);
        if G::Player::obeys_eq_spec() {
            assert(nodes@ == credited(mid, path@, config.batch_size, sim.1@, config.exploration_fp));
        }
        assert(step_post(m0, nodes@, root, config.batch_size, config.exploration_fp));
    }
    sim.0
}

/// Untried-child priority: a child with no recorded games still carries
/// the unbounded sentinel, so whenever such a child exists the greatest
/// score over the children is unbounded, only sentinel-scored children
/// can be picked for selection, and no finite-scored sibling — however
/// many games it has — is ever among them.
pub proof fn lemma_untried_child_priority<G: Game>(
    m: Map<NodeID, MoveTreeNode<G>>,
    children: Seq<(G::Move, NodeID)>,
    best: Score,
    picks: Seq<usize>,
    i: int,
)
    requires
        0 <= i < children.len(),
        m.contains_key(children[i].1),
        m[children[i].1].wf(),
        m[children[i].1].games == 0,
        forall|k: int| 0 <= k < children.len() ==> score_le(child_score(m, children, k), best),
        forall|j: int|
            0 <= j < picks.len() ==> picks[j] < children.len() && child_score(
                m,
                children,
                picks[j] as int,
            ) == best,
    ensures
        best == Score::Unbounded,
        forall|j: int|
            0 <= j < picks.len() ==> child_score(m, children, picks[j] as int)
                == Score::Unbounded,
        forall|j: int, k: int|
            0 <= j < picks.len() && 0 <= k < children.len() && picks[j] == k ==> !(child_score(
                m,
                children,
                k,
            ) is Finite),
{
    assert(child_score(m, children, i) == Score::Unbounded);
    assert(score_le(child_score(m, children, i), best));
}

/// How many playouts a sequence of backpropagation passes contributes.
pub open spec fn sum_batches(s: Seq<u32>) -> nat
    decreases s.len(),
{
    if s.len() == 0 {
        0
    } else {
        (s[0] + sum_batches(s.drop_first())) as nat
    }
}

/// A game counter after a sequence of passes, each crediting its batch.
pub open spec fn sat_fold32(g: u32, s: Seq<u32>) -> u32
    decreases s.len(),
{
    if s.len() == 0 {
        g
    } else {
        sat_fold32(sat_add32(g, s[0]), s.drop_first())
    }
}

/// Counter conservation: each backpropagation pass credits a node's game
/// counter with exactly its batch, so after any number of passes the
/// counter equals its starting value plus the sum of the batches that
/// touched it, as long as the counter's ceiling is never reached.
pub proof fn lemma_counter_conservation(g: u32, s: Seq<u32>)
    requires
        g + sum_batches(s) <= 0xFFFF_FFFF,
    ensures
        sat_fold32(g, s) == g + sum_batches(s),
    decreases s.len(),
{
    if s.len() > 0 {
        lemma_counter_conservation(sat_add32(g, s[0]), s.drop_first());
    }
}

} // verus!
