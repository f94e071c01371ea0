//! The three kinds of state of the game tree.

use vstd::prelude::*;
use crate::game::action::ActionConfig;
use crate::game::state_chance::StateChance;
use crate::game::state_data::{Ledger, StateData};
use crate::game::state_play::StatePlay;
use crate::game::state_terminal::StateTerminal;

verus! {

#[derive(Clone, Copy, Debug, PartialEq, Eq, Structural)]
pub enum StateType {
    Play,
    Chance,
    Terminal,
}

/// Why a hand could not go on. A broken invariant of the tree comes with
/// the ledger of the state it was found at: its street, its history, its
/// bets and stacks.
#[derive(Debug, PartialEq, Eq)]
pub enum TreeError {
    /// An agent chose a slot that is out of range or masked out.
    IllegalAction,
    /// An agent failed to choose at all.
    AgentFailed,
    /// The showdown did not hand back one reward per seat.
    ShowdownFailed,
    /// A state offered no legal action: a broken invariant of the tree.
    NoLegalAction { state_data: StateData },
    /// A legal raise left no seat to act after it: a broken invariant of
    /// the tree.
    RaiseWithoutNextActor { state_data: StateData },
}

impl TreeError {
    /// The ledger at which a broken invariant was found; none for the
    /// other errors.
    pub open spec fn context(&self) -> Option<Ledger> {
        match self {
            TreeError::NoLegalAction { state_data } => Some(state_data@),
            TreeError::RaiseWithoutNextActor { state_data } => Some(state_data@),
            _ => None,
        }
    }

    /// The ledger that came with a broken invariant.
    pub fn get_state_data(&self) -> (r: Option<&StateData>)
        ensures
            r is Some <==> self.context() is Some,
            r matches Some(state_data) ==> Some(state_data@) == self.context(),
    {
        match self {
            TreeError::NoLegalAction { state_data } => Some(state_data),
            TreeError::RaiseWithoutNextActor { state_data } => Some(state_data),
            _ => None,
        }
    }
}

/// A state of the tree together with its kind.
pub enum GameState<'a> {
    Play(StatePlay<'a>),
    Chance(StateChance<'a>),
    Terminal(StateTerminal),
}

/// A kind of state together with its ledger: what an action leads to.
pub ghost struct Outcome {
    pub kind: StateType,
    pub ledger: Ledger,
}

impl<'a> GameState<'a> {
    pub open spec fn state_type(&self) -> StateType {
        match self {
            GameState::Play(_) => StateType::Play,
            GameState::Chance(_) => StateType::Chance,
            GameState::Terminal(_) => StateType::Terminal,
        }
    }

    pub open spec fn ledger(&self) -> Ledger {
        match self {
            GameState::Play(s) => s.state_data@,
            GameState::Chance(s) => s.state_data@,
            GameState::Terminal(s) => s.state_data@,
        }
    }

    /// A state of which no child was built yet, under configuration `cfg`.
    pub open spec fn is_fresh(&self, cfg: &ActionConfig) -> bool {
        match self {
            GameState::Play(s) => s.action_config == cfg && s.children@.len() == 0
                && s.valid_actions_mask@.len() == 0,
            GameState::Chance(s) => s.action_config == cfg && s.child is None,
            GameState::Terminal(_) => true,
        }
    }

    pub fn get_type(&self) -> (r: StateType)
        ensures
            r == self.state_type(),
    {
        match self {
            GameState::Play(_) => StateType::Play,
            GameState::Chance(_) => StateType::Chance,
            GameState::Terminal(_) => StateType::Terminal,
        }
    }

    pub fn get_state_data(&self) -> (r: &StateData)
        ensures
            r@ == self.ledger(),
    {
        match self {
            GameState::Play(s) => &s.state_data,
            GameState::Chance(s) => &s.state_data,
            GameState::Terminal(s) => &s.state_data,
        }
    }
}

/// Whether `child` is what a slot with outcome `outcome` holds: nothing where
/// the action is illegal, else a fresh state of the outcome's kind and ledger.
pub open spec fn child_is(
    child: Option<GameState>,
    cfg: &ActionConfig,
    outcome: Option<Outcome>,
) -> bool {
    match outcome {
        None => child is None,
        Some(o) => child is Some && child->0.state_type() == o.kind && child->0.ledger()
            == o.ledger && child->0.is_fresh(cfg),
    }
}

} // verus!
