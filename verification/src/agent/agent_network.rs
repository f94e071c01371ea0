//! The choice of a policy that weighs the actions: a draw from the weights
//! it gives to the slots.
//!
//! A weight is a probability in whatever unit the policy has: only the
//! proportions count.

use vstd::prelude::*;
use crate::agent::agent_random::{legal_count, legal_upto, AgentRandom};
use crate::agent::random::random_below;
use crate::agent::AgentError;
use crate::game::state_data::sum_upto;

verus! {

/// Whether slot `i` is offered by the mask.
pub open spec fn is_valid_slot(mask: Seq<bool>, i: int) -> bool {
    0 <= i < mask.len() && mask[i]
}

/// The weights that count: where `no_invalid` is set, the weight of a slot
/// that the mask does not offer is zero.
pub open spec fn masked_weights(weights: Seq<u32>, mask: Seq<bool>, no_invalid: bool) -> Seq<int> {
    Seq::new(
        weights.len(),
        |i: int|
            if no_invalid && !is_valid_slot(mask, i) {
                0
            } else {
                weights[i] as int
            },
    )
}

/// The weights used where every weight that counts is zero: one on every
/// slot that the mask offers.
pub open spec fn uniform_weights(len: nat, mask: Seq<bool>) -> Seq<int> {
    Seq::new(
        len,
        |i: int|
            if is_valid_slot(mask, i) {
                1
            } else {
                0
            },
    )
}

pub open spec fn total(w: Seq<int>) -> int {
    sum_upto(w, w.len() as int)
}

/// The first slot from `from` on at which the running total of the weights
/// exceeds `draw`, and slot 0 if there is none.
pub open spec fn pick(w: Seq<int>, draw: int, from: int) -> int
    decreases w.len() - from,
{
    if from >= w.len() || from < 0 {
        0
    } else if sum_upto(w, from + 1) > draw {
        from
    } else {
        pick(w, draw, from + 1)
    }
}

/// The weights that the draw is made from, and the number that the draw
/// must stay below: the weights that count and their total; or, where that
/// total is zero, one on every slot offered and the number of slots offered
/// by the whole mask (of all slots, where `no_invalid` is not set).
pub open spec fn draw_weights(weights: Seq<u32>, mask: Seq<bool>, no_invalid: bool) -> Seq<int> {
    if total(masked_weights(weights, mask, no_invalid)) > 0 {
        masked_weights(weights, mask, no_invalid)
    } else {
        uniform_weights(weights.len(), mask)
    }
}

pub open spec fn draw_bound(weights: Seq<u32>, mask: Seq<bool>, no_invalid: bool) -> int {
    if total(masked_weights(weights, mask, no_invalid)) > 0 {
        total(masked_weights(weights, mask, no_invalid))
    } else if no_invalid {
        legal_count(mask)
    } else {
        weights.len() as int
    }
}

/// The slot that `draw` picks.
pub open spec fn drawn_slot(
    weights: Seq<u32>,
    mask: Seq<bool>,
    no_invalid: bool,
    draw: int,
) -> int {
    pick(draw_weights(weights, mask, no_invalid), draw, 0)
}

/// What `draw` comes to: the slot it picks, or, where `no_invalid` is set
/// and the mask does not offer that slot, the failure of the draw.
pub open spec fn choice_of_draw(
    weights: Seq<u32>,
    mask: Seq<bool>,
    no_invalid: bool,
    draw: int,
) -> Result<usize, AgentError> {
    let slot = drawn_slot(weights, mask, no_invalid, draw);
    if no_invalid && !is_valid_slot(mask, slot) {
        Err(AgentError::InvalidActionIndex)
    } else {
        Ok(slot as usize)
    }
}

/// Whether `draw` is a number that can be drawn: below the bound of the
/// draw, and any number where there is nothing to draw from.
pub open spec fn is_draw(weights: Seq<u32>, mask: Seq<bool>, no_invalid: bool, draw: int) -> bool {
    0 <= draw && (draw < draw_bound(weights, mask, no_invalid) || draw_bound(
        weights,
        mask,
        no_invalid,
    ) <= 0)
}

/// A draw below the total picks a slot of positive weight, with the
/// running total up to it not above the draw.
pub proof fn lemma_pick(w: Seq<int>, draw: int, from: int)
    requires
        forall|i: int| 0 <= i < w.len() ==> 0 <= #[trigger] w[i],
        0 <= from <= w.len(),
        sum_upto(w, from) <= draw < total(w),
    ensures
        ({
            let r = pick(w, draw, from);
            &&& from <= r < w.len()
            &&& w[r] > 0
            &&& sum_upto(w, r) <= draw < sum_upto(w, r + 1)
        }),
    decreases w.len() - from,
{
    if from < w.len() && sum_upto(w, from + 1) <= draw {
        lemma_pick(w, draw, from + 1);
    }
}

/// The slot that a draw picks, whatever the draw, lies among the weights.
pub proof fn lemma_pick_in_range(w: Seq<int>, draw: int, from: int)
    requires
        0 <= from,
    ensures
        pick(w, draw, from) == 0 || from <= pick(w, draw, from) < w.len(),
    decreases w.len() - from,
{
    if from < w.len() && sum_upto(w, from + 1) <= draw {
        lemma_pick_in_range(w, draw, from + 1);
    }
}

/// The slot that `draw` picks from `weights`.
pub fn pick_action(weights: &Vec<u32>, draw: u64) -> (r: usize)
    requires
        weights@.len() <= u32::MAX,
    ensures
        r == pick(weights@.map_values(|w: u32| w as int), draw as int, 0),
{
    let ghost w = weights@.map_values(|w: u32| w as int);
    let mut sum: u64 = 0;
    let mut i: usize = 0;
    while i < weights.len()
        invariant
            i <= weights@.len() <= u32::MAX,
            w == weights@.map_values(|w: u32| w as int),
            sum == sum_upto(w, i as int),
            sum <= i * 0xffff_ffff,
            pick(w, draw as int, 0) == pick(w, draw as int, i as int),
        decreases weights@.len() - i,
    {
        assert(w[i as int] == weights@[i as int]);
        sum += weights[i] as u64;
        if sum > draw {
            return i;
        }
        i += 1;
    }
    0
}

/// The sum of `weights`.
pub fn total_weight(weights: &Vec<u32>) -> (r: u64)
    requires
        weights@.len() <= u32::MAX,
    ensures
        r == total(weights@.map_values(|w: u32| w as int)),
{
    let ghost w = weights@.map_values(|w: u32| w as int);
    let mut sum: u64 = 0;
    let mut i: usize = 0;
    while i < weights.len()
        invariant
            i <= weights@.len() <= u32::MAX,
            w == weights@.map_values(|w: u32| w as int),
            sum == sum_upto(w, i as int),
            sum <= i * 0xffff_ffff,
        decreases weights@.len() - i,
    {
        assert(w[i as int] == weights@[i as int]);
        sum += weights[i] as u64;
        i += 1;
    }
    sum
}

/// The weights that count: a copy of `probas` in which, where `no_invalid`
/// is set, the weight of every slot that the mask does not offer is zero.
pub fn apply_mask(probas: &Vec<u32>, valid_action_mask: &Vec<bool>, no_invalid: bool) -> (weights:
    Vec<u32>)
    ensures
        weights@.map_values(|w: u32| w as int) == masked_weights(
            probas@,
            valid_action_mask@,
            no_invalid,
        ),
{
    let mut weights: Vec<u32> = Vec::new();
    let mut i: usize = 0;
    while i < probas.len()
        invariant
            i <= probas@.len(),
            weights@.len() == i,
            forall|j: int|
                0 <= j < i ==> #[trigger] weights@[j] == masked_weights(
                    probas@,
                    valid_action_mask@,
                    no_invalid,
                )[j],
        decreases probas@.len() - i,
    {
        if no_invalid && (i >= valid_action_mask.len() || !valid_action_mask[i]) {
            weights.push(0);
        } else {
            weights.push(probas[i]);
        }
        i += 1;
    }
    assert(weights@.map_values(|w: u32| w as int) =~= masked_weights(
        probas@,
        valid_action_mask@,
        no_invalid,
    ));
    weights
}

/// The slot that `draw` picks from the weights `probas` under the mask,
/// checked against the mask where `no_invalid` is set.
pub fn choose_with_draw(
    probas: &Vec<u32>,
    valid_action_mask: &Vec<bool>,
    no_invalid: bool,
    draw: u64,
) -> (res: Result<usize, AgentError>)
    requires
        probas@.len() <= u32::MAX,
    ensures
        res == choice_of_draw(probas@, valid_action_mask@, no_invalid, draw as int),
{
    let weights = apply_mask(probas, valid_action_mask, no_invalid);
    let sum: u64 = total_weight(&weights);
    let action_index: usize = if sum > 0 {
        pick_action(&weights, draw)
    } else {
        // Every weight is zero: the slots offered share the draw evenly
        let mut uniform: Vec<u32> = Vec::new();
        let mut i: usize = 0;
        while i < probas.len()
            invariant
                i <= probas@.len(),
                uniform@.len() == i,
                forall|j: int|
                    0 <= j < i ==> #[trigger] uniform@[j] == uniform_weights(
                        probas@.len(),
                        valid_action_mask@,
                    )[j],
            decreases probas@.len() - i,
        {
            if i < valid_action_mask.len() && valid_action_mask[i] {
                uniform.push(1);
            } else {
                uniform.push(0);
            }
            i += 1;
        }
        assert(uniform@.map_values(|w: u32| w as int) =~= uniform_weights(
            probas@.len(),
            valid_action_mask@,
        ));
        pick_action(&uniform, draw)
    };
    if no_invalid && (action_index >= valid_action_mask.len() || !valid_action_mask[action_index]) {
        return Err(AgentError::InvalidActionIndex);
    }
    Ok(action_index)
}

/// Draws the action of a policy that gave the slots the weights `probas`:
/// a slot is drawn with the probability that its weight has in the total
/// of the weights that count, and evenly among the slots offered where
/// that total is zero.
///
/// The result is what some number that can be drawn comes to. Where
/// `no_invalid` is set, a slot that the mask does not offer is never
/// returned: the draw fails instead. With as many weights as mask entries
/// it fails exactly when the mask offers no slot.
pub fn choose_action_from_net(
    probas: &Vec<u32>,
    valid_action_mask: &Vec<bool>,
    no_invalid: bool,
) -> (res: Result<usize, AgentError>)
    requires
        probas@.len() <= u32::MAX,
    ensures
        exists|draw: int|
            is_draw(probas@, valid_action_mask@, no_invalid, draw) && res == #[trigger] choice_of_draw(
                probas@,
                valid_action_mask@,
                no_invalid,
                draw,
            ),
        res is Err ==> no_invalid && res == Err::<usize, AgentError>(AgentError::InvalidActionIndex),
        res matches Ok(slot) ==> slot == 0 || slot < probas@.len(),
        no_invalid ==> (res matches Ok(slot) ==> is_valid_slot(valid_action_mask@, slot as int)),
        no_invalid && probas@.len() == valid_action_mask@.len() ==> (res is Err <==> legal_count(
            valid_action_mask@,
        ) == 0),
{
    let sum: u64 = total_weight(&apply_mask(probas, valid_action_mask, no_invalid));
    let bound: u64 = if sum > 0 {
        sum
    } else if no_invalid {
        AgentRandom::count_legal(valid_action_mask) as u64
    } else {
        probas.len() as u64
    };
    let draw: u64 = if bound > 0 {
        random_below(bound)
    } else {
        0
    };
    proof {
        lemma_drawn_slot(probas@, valid_action_mask@, no_invalid, draw as int);
        assert(is_draw(probas@, valid_action_mask@, no_invalid, draw as int));
    }
    choose_with_draw(probas, valid_action_mask, no_invalid, draw)
}

/// The number of slots offered among the first `k` is the total of the
/// uniform weights up to `k`.
pub proof fn lemma_uniform_total(len: nat, mask: Seq<bool>, k: int)
    requires
        0 <= k <= len,
        k <= mask.len(),
    ensures
        sum_upto(uniform_weights(len, mask), k) == legal_upto(mask, k),
    decreases k,
{
    if k > 0 {
        lemma_uniform_total(len, mask, k - 1);
    }
}

/// What a draw below the bound picks: a slot among the weights, or slot 0;
/// a slot of positive weight where any weight counts; and, with as many
/// weights as mask entries and all of them zero, a slot that the mask
/// offers where it offers one.
pub proof fn lemma_drawn_slot(weights: Seq<u32>, mask: Seq<bool>, no_invalid: bool, draw: int)
    requires
        0 <= draw,
        draw < draw_bound(weights, mask, no_invalid) || draw_bound(weights, mask, no_invalid) <= 0,
    ensures
        ({
            let slot = drawn_slot(weights, mask, no_invalid, draw);
            &&& slot == 0 || 0 < slot < weights.len()
            &&& total(masked_weights(weights, mask, no_invalid)) > 0 ==> slot < weights.len()
                && masked_weights(weights, mask, no_invalid)[slot] > 0
            &&& no_invalid && weights.len() == mask.len() && legal_count(mask) > 0
                ==> is_valid_slot(mask, slot)
            &&& no_invalid && legal_count(mask) == 0 ==> !is_valid_slot(mask, slot)
        }),
{
    let w = draw_weights(weights, mask, no_invalid);
    let slot = drawn_slot(weights, mask, no_invalid, draw);
    lemma_pick_in_range(w, draw, 0);
    if total(masked_weights(weights, mask, no_invalid)) > 0 {
        lemma_pick(w, draw, 0);
    } else if no_invalid && weights.len() == mask.len() && legal_count(mask) > 0 {
        lemma_uniform_total(weights.len(), mask, mask.len() as int);
        lemma_pick(w, draw, 0);
    }
    if no_invalid && legal_count(mask) == 0 {
        if is_valid_slot(mask, slot) {
            crate::agent::agent_random::lemma_legal_upto_positive(mask, slot, mask.len() as int);
        }
    }
}

} // verus!
