//! The two parties of the protocol: the dealer and a player.
pub mod dealer;
pub mod player;
