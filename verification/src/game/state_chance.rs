//! The state between two betting rounds.

use vstd::prelude::*;
use crate::game::action::ActionConfig;
use crate::game::state::{GameState, Outcome, StateType};
use crate::game::state_data::{Ledger, StateData};
use crate::game::state_play::StatePlay;
use crate::game::state_terminal::StateTerminal;

verus! {

/// The ledger at the start of the street after that of `l`: the lowest seat
/// that can act moves first, the highest closes the round, and the minimum
/// raise is that of the configuration again.
pub open spec fn next_street_ledger(cfg: &ActionConfig, l: Ledger) -> Ledger {
    Ledger {
        street: l.street + 1,
        player_to_move: l.lowest_actor_from(0),
        last_player: l.highest_actor_upto(l.player_count),
        min_raise: cfg.min_raise as int,
        ..l
    }
}

/// The ledger of a hand in which no betting can follow: the remaining
/// streets are dealt out and the hand is over.
pub open spec fn run_out_ledger(l: Ledger) -> Ledger {
    Ledger { street: 4, ..l }
}

/// What follows a closed betting round: another round on the next street
/// while at least two seats can act, else the end of the hand.
pub open spec fn chance_outcome(cfg: &ActionConfig, l: Ledger) -> Outcome {
    if l.actors() >= 2 {
        Outcome { kind: StateType::Play, ledger: next_street_ledger(cfg, l) }
    } else {
        Outcome { kind: StateType::Terminal, ledger: run_out_ledger(l) }
    }
}

/// A closed betting round that another street follows.
pub struct StateChance<'a> {
    pub action_config: &'a ActionConfig,
    pub state_data: StateData,
    pub child: Option<Box<GameState<'a>>>,
}

impl<'a> StateChance<'a> {
    pub fn new(action_config: &'a ActionConfig, state_data: StateData) -> (r: StateChance<'a>)
        ensures
            r.action_config == action_config,
            r.state_data == state_data,
            r.child is None,
    {
        StateChance { action_config, state_data, child: None }
    }

    /// Whether the child is the state that follows the closed round.
    pub open spec fn is_expanded(&self) -> bool {
        let o = chance_outcome(self.action_config, self.state_data@);
        &&& self.child is Some
        &&& self.child->0.state_type() == o.kind
        &&& self.child->0.ledger() == o.ledger
        &&& self.child->0.is_fresh(self.action_config)
    }

    /// Builds the single child, once: a state that has its child is left as
    /// it is.
    pub fn create_children(&mut self)
        requires
            old(self).state_data@.wf(),
            1 <= old(self).state_data@.street <= 3,
        ensures
            final(self).action_config == old(self).action_config,
            final(self).state_data == old(self).state_data,
            old(self).child is Some ==> *final(self) == *old(self),
            old(self).child is None ==> final(self).is_expanded(),
    {
        if self.child.is_some() {
            return ;
        }
        let mut new_state_data = self.state_data.clone();
        if self.state_data.count_actors() >= 2 {
            new_state_data.street = self.state_data.street + 1;
            new_state_data.player_to_move = self.state_data.lowest_actor();
            new_state_data.last_player = self.state_data.highest_actor();
            new_state_data.min_raise = self.action_config.min_raise;
            assert(new_state_data@ =~= next_street_ledger(self.action_config, self.state_data@));
            self.child = Some(
                Box::new(GameState::Play(StatePlay::new(self.action_config, new_state_data))),
            );
        } else {
            new_state_data.street = 4;
            assert(new_state_data@ =~= run_out_ledger(self.state_data@));
            self.child = Some(Box::new(GameState::Terminal(StateTerminal::new(new_state_data))));
        }
    }
}

} // verus!
