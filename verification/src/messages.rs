//! Plain message payloads that a game server sends its clients about
//! other players.

use vstd::prelude::*;

verus! {

/// Sent when a requested nickname is already taken.
#[derive(Debug, Clone, PartialEq, Eq)]
pub struct NickAlreadyInUse {
    pub nick: String,
}

/// A change in another player's standing.
#[derive(Debug, Clone, PartialEq, Eq)]
pub enum PlayerStatus {
    /// The player has found this many words so far.
    FoundWords { nick: String, count: usize },
    /// The player has left the game.
    Disconnected { nick: String },
}

} // verus!
