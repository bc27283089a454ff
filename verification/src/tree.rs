//! One visited position of the search tree.

use vstd::prelude::*;

verus! {

use crate::game::Game;
use crate::score::Score;
use vstd::std_specs::cmp::PartialEqSpec;

/// The arena key of a node: the content hash of the game state it holds.
pub type NodeID = u64;

/// The sum of a sequence of raw chance weights.
pub open spec fn sum_weights(s: Seq<u64>) -> nat
    decreases s.len(),
{
    if s.len() == 0 {
        0
    } else {
        (sum_weights(s.drop_last()) + s.last()) as nat
    }
}

/// One visited position: its state snapshot, aggregate playout counters,
/// selection score, and links to the positions one move away.
///
/// `children` pairs each legal move with the arena key of the resulting
/// position. `weights`, present exactly at chance nodes, holds one raw
/// weight per child, in child order; a child's probability is its weight's
/// share of the weight total.
pub struct MoveTreeNode<G: Game> {
    pub game: G,
    pub player: G::Player,
    pub score: Score,
    pub games: u32,
    pub wins: u32,
    pub simulations: u32,
    pub children: Vec<(G::Move, NodeID)>,
    pub weights: Option<Vec<u64>>,
}

impl<G: Game> MoveTreeNode<G> {
    /// The node's accounting invariant: wins never outrun games, a node
    /// with no recorded games still carries the unbounded sentinel score,
    /// chance weights, when present, pair up with the children and sum
    /// to a positive total, and — as far as move equality behaves — no
    /// move keys two children.
    pub open spec fn wf(self) -> bool {
        &&& self.wins <= self.games
        &&& self.games == 0 ==> self.score == Score::Unbounded
        &&& match self.weights {
            Some(w) => w.len() == self.children.len() && sum_weights(w@) > 0,
            None => true,
        }
        &&& G::Move::obeys_eq_spec() ==> forall|i: int, j: int|
            0 <= i < j < self.children@.len() ==> !(#[trigger] self.children@[i].0.eq_spec(
                &self.children@[j].0,
            ))
    }

    /// A fresh, unexpanded node for one game state.
    pub fn new(game: G) -> (r: Self)
        ensures
            r.game == game,
            r.score == Score::Unbounded,
            r.games == 0,
            r.wins == 0,
            r.simulations == 0,
            r.children@.len() == 0,
            r.weights is None,
            r.wf(),
    {
        let player = game.get_cur_player();
        MoveTreeNode {
            game,
            player,
            score: Score::Unbounded,
            games: 0,
            wins: 0,
            simulations: 0,
            children: Vec::new(),
            weights: None,
        }
    }
}

} // verus!
