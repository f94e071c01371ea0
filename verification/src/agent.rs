//! Policies, which choose an action when it is a seat's turn, and the
//! tournament that rates them.

use vstd::prelude::*;
use crate::game::action::ActionConfig;
use crate::game::state_data::StateData;

pub mod agent_network;
pub mod agent_random;
pub mod locking;
pub mod matchmaking;
pub mod persistence;
mod random;
pub mod rating;
pub mod tournament;

verus! {

/// An agent could not choose.
#[derive(Clone, Copy, Debug, PartialEq, Eq, Structural)]
pub enum AgentError {
    /// The mask offered no legal action.
    NoLegalAction,
    /// The policy itself failed.
    PolicyFailed,
    /// The policy drew a slot that the mask does not offer.
    InvalidActionIndex,
}

/// A policy. It is shown the ledger, the legality mask, the street and the
/// configuration, and names the slot of the action it takes. Nothing is
/// assumed of the slot it names: the tree checks it against the mask.
pub trait Agent {
    fn choose_action(
        &self,
        state_data: &StateData,
        valid_actions_mask: &Vec<bool>,
        street: u8,
        action_config: &ActionConfig,
    ) -> Result<usize, AgentError>;
}

} // verus!
