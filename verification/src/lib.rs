//! Rules engine for a single-player number-placement puzzle: a fixed row of
//! slots is filled one value at a time from a pool of unique random draws,
//! under the constraint that the filled values, read in slot order, are
//! strictly ascending at every point of the game.

use vstd::prelude::*;

pub mod digits;
pub mod game;
pub mod pool;

pub use crate::game::{Game, GameView, Slot};

verus! {

/// Why a placement or a construction was rejected.
#[derive(Clone, Copy, Debug, PartialEq, Eq, Structural)]
pub enum GameError {
    /// The slot index is out of bounds.
    InvalidSlot,
    /// The slot is not currently a legal target for the next value.
    NotEnabled,
    /// The slot already holds a value.
    AlreadyFilled,
    /// The requested slot count cannot be served by unique draws in the bounds.
    UnsatisfiableBounds,
    /// A given draw pool repeats a value or leaves the bounds.
    InvalidPool,
}

} // verus!
