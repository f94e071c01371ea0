//! A no-limit poker game-tree engine and the rating bookkeeping of a
//! self-play tournament, with every function proved against its contract.

pub mod agent;
pub mod game;
pub mod model;
