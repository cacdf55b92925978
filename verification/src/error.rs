use crate::game_state::GameState;
use crate::message::Tag;
use vstd::prelude::*;

verus! {

/// What can go wrong while a client plays.
#[derive(Debug, PartialEq, Eq, Clone, Copy, Structural)]
pub enum Error {
    /// A message of the given kind arrived in a state that does not accept
    /// it.
    GameState(GameState, Tag),
}

} // verus!
