use deep_poker::agent::agent_network::{
    choose_action_from_net, choose_with_draw, pick_action, total_weight,
};
use deep_poker::agent::agent_random::AgentRandom;
use deep_poker::agent::locking::{LockEvent, LockPlan, LockStep};
use deep_poker::agent::{Agent, AgentError};
use deep_poker::game::action::ActionConfig;
use deep_poker::game::state_data::StateData;

fn random_choice(mask: &Vec<bool>) -> Result<usize, AgentError> {
    let config = ActionConfig::new(3, 300, 20, 9);
    let data = StateData::new(&config);
    AgentRandom::new().choose_action(&data, mask, 1, &config)
}

#[test]
fn legal_actions_are_counted_and_found() {
    let mask = vec![false, true, true, false, true];
    assert_eq!(AgentRandom::count_legal(&mask), 3);
    assert_eq!(AgentRandom::nth_legal(&mask, 0), 1);
    assert_eq!(AgentRandom::nth_legal(&mask, 1), 2);
    assert_eq!(AgentRandom::nth_legal(&mask, 2), 4);
    assert_eq!(AgentRandom::count_legal(&Vec::new()), 0);
}

#[test]
fn random_agent_takes_legal_actions_only() {
    let mask = vec![false, true, false, false, true, false];
    let mut seen = vec![0; mask.len()];
    for _ in 0..400 {
        let slot = random_choice(&mask).unwrap();
        assert!(mask[slot]);
        seen[slot] += 1;
    }
    assert!(seen[1] > 100);
    assert!(seen[4] > 100);
    assert_eq!(random_choice(&vec![false, false, true]), Ok(2));
}

#[test]
fn random_agent_fails_without_a_legal_action() {
    assert_eq!(random_choice(&vec![false, false, false]), Err(AgentError::NoLegalAction));
    assert_eq!(random_choice(&Vec::new()), Err(AgentError::NoLegalAction));
}

#[test]
fn draw_picks_the_slot_whose_running_total_exceeds_it() {
    let weights = vec![10, 0, 30, 60];
    assert_eq!(total_weight(&weights), 100);
    assert_eq!(pick_action(&weights, 0), 0);
    assert_eq!(pick_action(&weights, 9), 0);
    assert_eq!(pick_action(&weights, 10), 2);
    assert_eq!(pick_action(&weights, 39), 2);
    assert_eq!(pick_action(&weights, 40), 3);
    assert_eq!(pick_action(&weights, 99), 3);
    // a draw that no running total exceeds falls back to the first slot
    assert_eq!(pick_action(&weights, 100), 0);
    assert_eq!(pick_action(&Vec::new(), 0), 0);
    assert_eq!(total_weight(&vec![u32::MAX, u32::MAX]), 2 * (u32::MAX as u64));
}

#[test]
fn masked_slots_do_not_count() {
    let weights = vec![10, 20, 30, 40];
    let mask = vec![true, false, true, false];
    assert_eq!(choose_with_draw(&weights, &mask, true, 0), Ok(0));
    assert_eq!(choose_with_draw(&weights, &mask, true, 9), Ok(0));
    assert_eq!(choose_with_draw(&weights, &mask, true, 10), Ok(2));
    assert_eq!(choose_with_draw(&weights, &mask, true, 39), Ok(2));
    // without the mask every weight counts
    assert_eq!(choose_with_draw(&weights, &mask, false, 10), Ok(1));
    assert_eq!(choose_with_draw(&weights, &mask, false, 99), Ok(3));
}

#[test]
fn zero_weights_fall_back_to_the_slots_offered() {
    let mask = vec![false, true, false, true];
    let zero = vec![0, 0, 0, 0];
    assert_eq!(choose_with_draw(&zero, &mask, true, 0), Ok(1));
    assert_eq!(choose_with_draw(&zero, &mask, true, 1), Ok(3));
    // all weight on slots that are masked out
    let wasted = vec![5, 0, 7, 0];
    assert_eq!(choose_with_draw(&wasted, &mask, true, 0), Ok(1));
    assert_eq!(choose_with_draw(&wasted, &mask, true, 1), Ok(3));
    // unchecked, a draw beyond the slots offered falls back to slot 0
    assert_eq!(choose_with_draw(&zero, &mask, false, 0), Ok(1));
    assert_eq!(choose_with_draw(&zero, &mask, false, 3), Ok(0));
}

#[test]
fn checked_draw_fails_on_a_slot_that_is_not_offered() {
    let nothing = vec![false, false, false];
    assert_eq!(
        choose_with_draw(&vec![1, 2, 3], &nothing, true, 0),
        Err(AgentError::InvalidActionIndex)
    );
    assert_eq!(choose_with_draw(&vec![1, 2, 3], &nothing, false, 0), Ok(0));
    // fewer weights than mask entries: the slots offered lie beyond them
    let mask = vec![false, false, true];
    assert_eq!(
        choose_with_draw(&vec![4, 4], &mask, true, 0),
        Err(AgentError::InvalidActionIndex)
    );
    assert_eq!(
        choose_with_draw(&Vec::new(), &Vec::new(), true, 0),
        Err(AgentError::InvalidActionIndex)
    );
    assert_eq!(choose_with_draw(&Vec::new(), &Vec::new(), false, 0), Ok(0));
}

#[test]
fn drawn_action_follows_the_weights() {
    let weights = vec![0, 900_000, 0, 100_000, 555];
    let mask = vec![true, true, true, true, false];
    let mut seen = vec![0; 5];
    for _ in 0..2000 {
        let slot = choose_action_from_net(&weights, &mask, true).unwrap();
        assert!(mask[slot]);
        seen[slot] += 1;
    }
    assert_eq!(seen[0] + seen[2] + seen[4], 0);
    assert!(seen[1] > 1500);
    assert!(seen[3] > 50);
    for _ in 0..100 {
        let slot = choose_action_from_net(&vec![0, 0, 0], &vec![false, true, true], true).unwrap();
        assert!(slot == 1 || slot == 2);
    }
    assert_eq!(
        choose_action_from_net(&vec![3, 3], &vec![false, false], true),
        Err(AgentError::InvalidActionIndex)
    );
    assert_eq!(choose_action_from_net(&vec![0, 7], &vec![false, false], false), Ok(1));
}

#[test]
fn locks_are_taken_in_turn() {
    let mut plan = LockPlan::new(3);
    assert_eq!(plan.next_step(), LockStep::TryLock(0));
    assert_eq!(plan.on_event(LockEvent::Acquired), LockStep::TryLock(1));
    assert_eq!(plan.on_event(LockEvent::Acquired), LockStep::TryLock(2));
    assert_eq!(plan.on_event(LockEvent::Acquired), LockStep::Proceed);
    assert_eq!(plan.held, 3);
    assert_eq!(plan.next_step(), LockStep::Proceed);
}

#[test]
fn busy_record_gives_every_lock_back() {
    let mut plan = LockPlan::new(3);
    plan.on_event(LockEvent::Acquired);
    plan.on_event(LockEvent::Acquired);
    assert_eq!(plan.held, 2);
    assert_eq!(plan.on_event(LockEvent::WouldBlock), LockStep::ReleaseAndWait);
    assert_eq!(plan.held, 0);
    assert_eq!(plan.next_step(), LockStep::TryLock(0));
    assert_eq!(plan.on_event(LockEvent::WouldBlock), LockStep::ReleaseAndWait);
    assert_eq!(plan.held, 0);
    assert_eq!(LockPlan::new(0).next_step(), LockStep::Proceed);
}
