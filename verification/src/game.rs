//! The betting state machine: configuration, actions, the per-hand ledger
//! and the lazily expanded tree of play, chance and terminal states.

pub mod action;
pub mod laws;
pub mod state;
pub mod state_chance;
pub mod state_data;
pub mod state_play;
pub mod state_terminal;
pub mod tree;
