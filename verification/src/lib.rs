//! A word-search ("Boggle") engine: a trie-backed dictionary with a compact
//! bitstream serialization, and a letter-grid search that finds every
//! dictionary word spelled by a path of adjacent, pairwise-distinct cells.

pub mod codec;
pub mod dict;
pub mod grid;
pub mod messages;
pub mod search;
pub mod trie;

pub use dict::Dict;
pub use grid::FromStrError;
pub use grid::Grid;
pub use messages::NickAlreadyInUse;
pub use messages::PlayerStatus;
pub use codec::DecodeError;
