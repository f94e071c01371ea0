//! The leaf of a hand.

use vstd::prelude::*;
use crate::game::state_data::StateData;

verus! {

/// A finished hand. It owns the final ledger; what each seat won is
/// computed by the showdown, outside this state.
pub struct StateTerminal {
    pub state_data: StateData,
}

impl StateTerminal {
    pub fn new(state_data: StateData) -> (r: StateTerminal)
        ensures
            r.state_data == state_data,
    {
        StateTerminal { state_data }
    }

    pub fn get_state_data(&self) -> (r: &StateData)
        ensures
            r == &self.state_data,
    {
        &self.state_data
    }
}

} // verus!
