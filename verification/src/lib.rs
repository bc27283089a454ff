//! A game-agnostic Monte Carlo Tree Search engine.
//!
//! The engine is generic over a rules collaborator (the [`Game`] trait):
//! any perfect-information or chance game that can enumerate its legal
//! continuations, apply one, and report a winner. A search actor owns an
//! arena of tree nodes keyed by game-state hash, repeatedly runs
//! select / expand / simulate / backpropagate steps, and answers
//! statistics or root-advance commands between steps.

use vstd::prelude::*;

pub mod game;
pub mod score;
pub mod tree;
pub mod node_list;
pub mod montecarlo;
pub mod actor;
pub mod hex_coord;
mod rng;

verus! {

/// Fixed-point scale used for selection scores and probabilities:
/// one unit is a millionth.
pub const SCALE: u64 = 1_000_000;

} // verus!
