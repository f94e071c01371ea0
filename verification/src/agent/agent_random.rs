//! The policy that picks a legal action at random.

use vstd::prelude::*;
use crate::agent::random::random_below;
use crate::agent::{Agent, AgentError};
use crate::game::action::ActionConfig;
use crate::game::state_data::StateData;

verus! {

/// How many of the first `k` entries of `mask` are set.
pub open spec fn legal_upto(mask: Seq<bool>, k: int) -> int
    decreases k,
{
    if k <= 0 {
        0
    } else if mask[k - 1] {
        legal_upto(mask, k - 1) + 1
    } else {
        legal_upto(mask, k - 1)
    }
}

/// The number of legal actions of `mask`.
pub open spec fn legal_count(mask: Seq<bool>) -> int {
    legal_upto(mask, mask.len() as int)
}

/// Whether `index` is the slot of the legal action number `rank`, counted
/// from zero in slot order.
pub open spec fn is_nth_legal(mask: Seq<bool>, rank: int, index: int) -> bool {
    0 <= index < mask.len() && mask[index] && legal_upto(mask, index) == rank
}

/// A mask with a set entry counts at least one.
pub proof fn lemma_legal_upto_positive(mask: Seq<bool>, i: int, k: int)
    requires
        0 <= i < k <= mask.len(),
        mask[i],
    ensures
        legal_upto(mask, k) >= 1,
    decreases k,
{
    if i < k - 1 {
        lemma_legal_upto_positive(mask, i, k - 1);
    } else {
        lemma_legal_upto_nonnegative(mask, k - 1);
    }
}

pub proof fn lemma_legal_upto_nonnegative(mask: Seq<bool>, k: int)
    ensures
        legal_upto(mask, k) >= 0,
    decreases k,
{
    if k > 0 {
        lemma_legal_upto_nonnegative(mask, k - 1);
    }
}

/// A policy that takes each legal action with the same probability.
pub struct AgentRandom {}

impl AgentRandom {
    pub fn new() -> AgentRandom {
        AgentRandom {  }
    }

    /// The number of legal actions of `mask`.
    pub fn count_legal(valid_actions_mask: &Vec<bool>) -> (r: usize)
        ensures
            r == legal_count(valid_actions_mask@),
    {
        let mut count: usize = 0;
        let mut i: usize = 0;
        while i < valid_actions_mask.len()
            invariant
                i <= valid_actions_mask@.len(),
                count <= i,
                count == legal_upto(valid_actions_mask@, i as int),
            decreases valid_actions_mask@.len() - i,
        {
            if valid_actions_mask[i] {
                count += 1;
            }
            i += 1;
        }
        count
    }

    /// The slot of the legal action number `rank`.
    pub fn nth_legal(valid_actions_mask: &Vec<bool>, rank: usize) -> (index: usize)
        requires
            rank < legal_count(valid_actions_mask@),
        ensures
            is_nth_legal(valid_actions_mask@, rank as int, index as int),
    {
        let mut seen: usize = 0;
        let mut i: usize = 0;
        while i < valid_actions_mask.len()
            invariant
                i <= valid_actions_mask@.len(),
                seen <= rank,
                seen == legal_upto(valid_actions_mask@, i as int),
                rank < legal_count(valid_actions_mask@),
            decreases valid_actions_mask@.len() - i,
        {
            if valid_actions_mask[i] {
                if seen == rank {
                    return i;
                }
                seen += 1;
            }
            i += 1;
        }
        proof {
            assert(false);
        }
        0
    }
}

impl Agent for AgentRandom {
    /// Draws one of the legal actions. Fails exactly when the mask offers
    /// none; whatever the draw, the slot it names is legal.
    fn choose_action(
        &self,
        _state_data: &StateData,
        valid_actions_mask: &Vec<bool>,
        _street: u8,
        _action_config: &ActionConfig,
    ) -> (res: Result<usize, AgentError>)
        ensures
            res is Err <==> legal_count(valid_actions_mask@) == 0,
            res is Err ==> res == Err::<usize, AgentError>(AgentError::NoLegalAction),
            res matches Ok(index) ==> index < valid_actions_mask@.len()
                && valid_actions_mask@[index as int],
    {
        let legal: usize = Self::count_legal(valid_actions_mask);
        if legal == 0 {
            return Err(AgentError::NoLegalAction);
        }
        let rank: usize = random_below(legal as u64) as usize;
        Ok(Self::nth_legal(valid_actions_mask, rank))
    }
}

} // verus!
