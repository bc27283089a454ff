//! The abstract contract between the search engine and a rules collaborator.

use vstd::prelude::*;

verus! {

/// The legal continuations of one position: either a decision set the
/// searching player chooses from, or a chance set sampled by raw integer
/// weight (a weight's probability is its share of the weight total).
pub enum MoveList<T> {
    Random(Vec<(T, u64)>),
    Choice(Vec<T>),
}

/// A rules collaborator the engine can search.
///
/// The engine never inspects a state beyond these methods. Two states that
/// should share one tree node must return equal hashes; collisions between
/// genuinely different states are assumed not to occur.
pub trait Game: Sized + Clone {
    type Move: Clone + PartialEq + Eq;
    type Player: Clone + PartialEq + Eq;

    /// A stable content hash of this state, used as its node key.
    fn get_hash(&self) -> u64;

    /// The legal continuations of this state.
    fn available_moves(&self) -> MoveList<Self::Move>;

    /// Applies one continuation in place.
    fn make_move(&mut self, m: &Self::Move);

    /// The player to move at this state.
    fn get_cur_player(&self) -> Self::Player;

    /// The winner, if this state is terminal.
    fn get_winner(&self) -> Option<Self::Player>;

    /// A display form of this state, empty by default.
    fn to_str(&self) -> String {
        String::new()
    }
}

} // verus!
