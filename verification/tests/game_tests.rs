use deep_poker::game::action::{Action, ActionConfig, ActionType, Ratio};
use deep_poker::game::state::{GameState, StateType, TreeError};
use deep_poker::game::state_chance::StateChance;
use deep_poker::game::state_data::StateData;
use deep_poker::game::state_play::StatePlay;

fn three_handed() -> ActionConfig {
    let mut config = ActionConfig::new(3, 300, 20, 9);
    config.preflop_raise_sizes =
        vec![Ratio::new(2, 1), Ratio::new(3, 1), Ratio::disabled(), Ratio::disabled()];
    config.postflop_raise_sizes =
        vec![Ratio::new(1, 4), Ratio::new(1, 2), Ratio::new(66, 100), Ratio::new(1, 1)];
    config
}

fn play_child<'a>(state: &mut StatePlay<'a>, slot: usize) -> StatePlay<'a> {
    state.create_children().unwrap();
    match state.children.swap_remove(slot) {
        Some(GameState::Play(child)) => child,
        _ => panic!("slot {} does not lead to a play state", slot),
    }
}

fn chips(data: &StateData) -> Vec<u32> {
    data.bets.iter().zip(data.stacks.iter()).map(|(b, s)| b + s).collect()
}

#[test]
fn new_config_has_half_blind_and_no_ladder() {
    let config = ActionConfig::new(3, 300, 20, 9);
    assert_eq!(config.player_count, 3);
    assert_eq!(config.buy_in, 300);
    assert_eq!(config.ante, 0);
    assert_eq!(config.small_blind, 10);
    assert_eq!(config.big_blind, 20);
    assert_eq!(config.min_raise, 20);
    assert_eq!(config.commited_to_pot_percentage, 9);
    assert!(config.preflop_raise_sizes.is_empty());
    assert!(config.is_valid());
}

#[test]
fn config_validity_is_checked() {
    assert!(three_handed().is_valid());
    let mut one_seat = three_handed();
    one_seat.player_count = 1;
    assert!(!one_seat.is_valid());
    let mut short_ladder = three_handed();
    short_ladder.preflop_raise_sizes.pop();
    assert!(!short_ladder.is_valid());
    assert!(!short_ladder.has_valid_ladders());
    let mut zero_den = three_handed();
    zero_den.postflop_raise_sizes[0] = Ratio::new(1, 0);
    assert!(!zero_den.is_valid());
    assert!(!zero_den.has_valid_ladders());
    let mut long_ladder = three_handed();
    long_ladder.preflop_raise_sizes = vec![Ratio::new(2, 1); 128];
    long_ladder.postflop_raise_sizes = vec![Ratio::new(1, 2); 128];
    assert!(!long_ladder.has_valid_ladders());
    let mut big_blind = three_handed();
    big_blind.big_blind = 300;
    assert!(!big_blind.is_valid());
    // the ladders alone are enough to expand a state
    assert!(big_blind.has_valid_ladders());
    let mut no_min_raise = three_handed();
    no_min_raise.min_raise = 0;
    assert!(!no_min_raise.is_valid());
}

#[test]
fn ratio_rounds_to_nearest_and_halves_up() {
    assert_eq!(Ratio::new(66, 100).apply(60), 40);
    assert_eq!(Ratio::new(1, 4).apply(60), 15);
    assert_eq!(Ratio::new(1, 4).apply(2), 1);
    assert_eq!(Ratio::new(1, 4).apply(1), 0);
    assert_eq!(Ratio::new(2, 1).apply(20), 40);
    assert_eq!(Ratio::new(1, 3).apply(100), 33);
    assert_eq!(Ratio::new(2, 3).apply(100), 67);
    assert_eq!(Ratio::new(u32::MAX, 1).apply(u32::MAX), (u32::MAX as u128) * (u32::MAX as u128));
    assert_eq!(Ratio::disabled().apply(1000), 0);
}

#[test]
fn first_ledger_has_blinds_posted() {
    let config = three_handed();
    let data = StateData::new(&config);
    assert_eq!(data.player_count, 3);
    assert_eq!(data.bets, vec![10, 20, 0]);
    assert_eq!(data.stacks, vec![290, 280, 300]);
    assert_eq!(data.is_player_in, vec![true, true, true]);
    assert_eq!(data.players_in_hand, 3);
    assert!(data.history.is_empty());
    assert_eq!(data.last_actions, vec![None, None, None]);
    assert_eq!(data.player_to_move, 2);
    assert_eq!(data.last_player, 1);
    assert_eq!(data.street, 1);
    assert_eq!(data.min_raise, 20);
    assert_eq!(data.pot_and_biggest_bet(), (30, 20));
}

#[test]
fn heads_up_small_blind_moves_first() {
    let mut config = ActionConfig::new(2, 100, 4, 0);
    config.ante = 1;
    let data = StateData::new(&config);
    assert_eq!(data.bets, vec![3, 5]);
    assert_eq!(data.stacks, vec![97, 95]);
    assert_eq!(data.player_to_move, 0);
    assert_eq!(data.last_player, 1);
}

#[test]
fn first_expansion_has_the_expected_mask() {
    let config = three_handed();
    let mut state = StatePlay::new(&config, StateData::new(&config));
    assert!(state.children.is_empty());
    assert_eq!(state.create_children(), Ok(()));
    assert_eq!(state.get_type(), StateType::Play);
    assert_eq!(
        state.get_valid_actions_mask(),
        vec![true, true, true, true, false, false, true]
    );
    assert_eq!(state.children.len(), 7);
    for slot in 0..7 {
        assert_eq!(state.get_child(slot).is_some(), state.valid_actions_mask[slot]);
    }
}

#[test]
fn mask_has_three_slots_more_than_the_postflop_ladder() {
    for sizes in 0..6usize {
        let mut config = ActionConfig::new(3, 300, 20, 9);
        config.preflop_raise_sizes = vec![Ratio::new(2, 1); sizes];
        config.postflop_raise_sizes = vec![Ratio::new(1, 2); sizes];
        let mut state = StatePlay::new(&config, StateData::new(&config));
        state.create_children().unwrap();
        assert_eq!(state.valid_actions_mask.len(), 3 + sizes);
        assert_eq!(state.children.len(), 3 + sizes);
        assert!(state.valid_actions_mask.iter().any(|legal| *legal));
    }
}

#[test]
fn expansion_happens_once() {
    let config = three_handed();
    let mut state = StatePlay::new(&config, StateData::new(&config));
    state.create_children().unwrap();
    let mask = state.valid_actions_mask.clone();
    let ledgers: Vec<Option<Vec<u32>>> = state
        .children
        .iter()
        .map(|child| child.as_ref().map(|c| c.get_state_data().bets.clone()))
        .collect();
    // a mark that a second expansion would wipe out
    if let Some(GameState::Play(child)) = &mut state.children[1] {
        child.state_data.min_raise = 77;
    }
    assert_eq!(state.create_children(), Ok(()));
    assert_eq!(state.valid_actions_mask, mask);
    assert_eq!(state.children.len(), 7);
    let again: Vec<Option<Vec<u32>>> = state
        .children
        .iter()
        .map(|child| child.as_ref().map(|c| c.get_state_data().bets.clone()))
        .collect();
    assert_eq!(again, ledgers);
    match &state.children[1] {
        Some(GameState::Play(child)) => assert_eq!(child.state_data.min_raise, 77),
        _ => panic!("the call leads to a play state"),
    }
}

#[test]
fn fold_marks_the_seat_out_and_passes_the_turn() {
    let config = three_handed();
    let mut state = StatePlay::new(&config, StateData::new(&config));
    let child = play_child(&mut state, 0);
    let data = &child.state_data;
    assert_eq!(data.is_player_in, vec![true, true, false]);
    assert_eq!(data.players_in_hand, 2);
    assert_eq!(data.bets, vec![10, 20, 0]);
    assert_eq!(data.stacks, vec![290, 280, 300]);
    assert_eq!(data.player_to_move, 0);
    assert_eq!(data.last_player, 1);
    let folded = Action { action_type: ActionType::Fold, raise_index: -1, player_index: 2, street: 1 };
    assert_eq!(data.history, vec![folded]);
    assert_eq!(data.last_actions, vec![None, None, Some(folded)]);
    // the parent's ledger is untouched
    assert_eq!(state.state_data.is_player_in, vec![true, true, true]);
    assert!(state.state_data.history.is_empty());
}

#[test]
fn fold_of_the_last_but_one_ends_the_hand() {
    let config = three_handed();
    let mut state = StatePlay::new(&config, StateData::new(&config));
    let mut after_first_fold = play_child(&mut state, 0);
    after_first_fold.create_children().unwrap();
    match &after_first_fold.children[0] {
        Some(GameState::Terminal(end)) => {
            assert_eq!(end.state_data.players_in_hand, 1);
            assert_eq!(end.state_data.is_player_in, vec![false, true, false]);
            assert_eq!(end.get_state_data().bets, vec![10, 20, 0]);
        }
        _ => panic!("a hand with one seat left is over"),
    }
}

#[test]
fn call_moves_the_shortfall() {
    let config = three_handed();
    let mut state = StatePlay::new(&config, StateData::new(&config));
    let child = play_child(&mut state, 1);
    let data = &child.state_data;
    assert_eq!(data.bets, vec![10, 20, 20]);
    assert_eq!(data.stacks, vec![290, 280, 280]);
    assert_eq!(data.player_to_move, 0);
    assert_eq!(data.last_player, 1);
    let called = Action { action_type: ActionType::Call, raise_index: -1, player_index: 2, street: 1 };
    assert_eq!(data.history, vec![called]);
}

#[test]
fn preflop_raise_scales_the_biggest_bet() {
    let config = three_handed();
    let mut state = StatePlay::new(&config, StateData::new(&config));
    state.create_children().unwrap();
    match &state.children[2] {
        Some(GameState::Play(child)) => {
            assert_eq!(child.state_data.bets, vec![10, 20, 40]);
            assert_eq!(child.state_data.stacks, vec![290, 280, 260]);
            assert_eq!(child.state_data.player_to_move, 0);
            assert_eq!(child.state_data.last_player, 1);
            let raised =
                Action { action_type: ActionType::Raise, raise_index: 0, player_index: 2, street: 1 };
            assert_eq!(child.state_data.history, vec![raised]);
        }
        _ => panic!("the first raise leads to a play state"),
    }
    match &state.children[3] {
        Some(GameState::Play(child)) => {
            assert_eq!(child.state_data.bets, vec![10, 20, 60]);
            assert_eq!(child.state_data.stacks, vec![290, 280, 240]);
            assert_eq!(child.state_data.history[0].raise_index, 1);
        }
        _ => panic!("the second raise leads to a play state"),
    }
}

#[test]
fn raise_reopens_the_round_for_the_seat_before_the_raiser() {
    let config = three_handed();
    let mut state = StatePlay::new(&config, StateData::new(&config));
    let mut after_call = play_child(&mut state, 1);
    // the small blind raises to twice the biggest bet
    let after_raise = play_child(&mut after_call, 2);
    assert_eq!(after_raise.state_data.bets, vec![40, 20, 20]);
    assert_eq!(after_raise.state_data.stacks, vec![260, 280, 280]);
    assert_eq!(after_raise.state_data.last_player, 2);
    assert_eq!(after_raise.state_data.player_to_move, 1);
}

#[test]
fn all_in_moves_the_whole_stack() {
    let config = three_handed();
    let mut state = StatePlay::new(&config, StateData::new(&config));
    let child = play_child(&mut state, 6);
    assert_eq!(child.state_data.bets, vec![10, 20, 300]);
    assert_eq!(child.state_data.stacks, vec![290, 280, 0]);
    assert_eq!(child.state_data.last_player, 1);
    assert_eq!(child.state_data.player_to_move, 0);
    assert_eq!(child.state_data.history[0].action_type, ActionType::AllIn);
}

#[test]
fn facing_an_all_in_only_fold_and_all_in_are_left() {
    let config = three_handed();
    let mut state = StatePlay::new(&config, StateData::new(&config));
    let mut facing = play_child(&mut state, 6);
    facing.create_children().unwrap();
    // the call would take the whole stack, and every raise more than that
    assert_eq!(
        facing.valid_actions_mask,
        vec![true, false, false, false, false, false, true]
    );
}

#[test]
fn fold_is_legal_only_below_the_biggest_bet() {
    let config = three_handed();
    let mut state = StatePlay::new(&config, StateData::new(&config));
    assert_eq!(state.state_data.get_to_move_bet(), 0);
    let mut small_blind = play_child(&mut state, 1);
    small_blind.create_children().unwrap();
    assert!(small_blind.valid_actions_mask[0]);
    let mut big_blind = play_child(&mut small_blind, 1);
    assert_eq!(big_blind.state_data.bets, vec![20, 20, 20]);
    big_blind.create_children().unwrap();
    assert!(!big_blind.valid_actions_mask[0]);
    assert!(big_blind.children[0].is_none());
    assert!(big_blind.valid_actions_mask[1]);
}

#[test]
fn closed_round_leads_to_a_chance_state_and_the_next_street() {
    let config = three_handed();
    let mut state = StatePlay::new(&config, StateData::new(&config));
    let mut small_blind = play_child(&mut state, 1);
    let mut big_blind = play_child(&mut small_blind, 1);
    big_blind.create_children().unwrap();
    let mut chance: StateChance = match big_blind.children.swap_remove(1) {
        Some(GameState::Chance(chance)) => chance,
        _ => panic!("a closed round before the river leads to a chance state"),
    };
    assert_eq!(chance.state_data.player_to_move, -1);
    assert_eq!(chance.state_data.street, 1);
    assert!(chance.child.is_none());
    chance.create_children();
    let mut flop = match chance.child.take() {
        Some(child) => match *child {
            GameState::Play(flop) => flop,
            _ => panic!("with seats to act the next street is played"),
        },
        None => panic!("the chance state has a child"),
    };
    assert_eq!(flop.state_data.street, 2);
    assert_eq!(flop.state_data.player_to_move, 0);
    assert_eq!(flop.state_data.last_player, 2);
    assert_eq!(flop.state_data.bets, vec![20, 20, 20]);
    assert_eq!(flop.state_data.min_raise, 20);
    flop.create_children().unwrap();
    // pot 60: a quarter of it is below the minimum raise
    assert_eq!(
        flop.valid_actions_mask,
        vec![false, true, false, true, true, true, true]
    );
    match &flop.children[4] {
        Some(GameState::Play(child)) => {
            // 66 hundredths of 60 is 39.6, which rounds to 40
            assert_eq!(child.state_data.bets, vec![60, 20, 20]);
            assert_eq!(child.state_data.stacks, vec![240, 280, 280]);
            assert_eq!(child.state_data.history.last().unwrap().raise_index, 2);
        }
        _ => panic!("the raise leads to a play state"),
    }
}

#[test]
fn chance_state_expands_once() {
    let config = three_handed();
    let mut data = StateData::new(&config);
    data.bets = vec![20, 20, 20];
    data.stacks = vec![280, 280, 280];
    data.player_to_move = -1;
    let mut chance = StateChance::new(&config, data);
    chance.create_children();
    if let Some(child) = &mut chance.child {
        if let GameState::Play(play) = &mut **child {
            play.state_data.min_raise = 55;
        }
    }
    chance.create_children();
    match chance.child.as_deref() {
        Some(GameState::Play(play)) => assert_eq!(play.state_data.min_raise, 55),
        _ => panic!("the child is kept"),
    }
}

#[test]
fn chance_state_without_two_actors_runs_the_hand_out() {
    let config = three_handed();
    let mut data = StateData::new(&config);
    data.bets = vec![300, 300, 20];
    data.stacks = vec![0, 0, 280];
    data.player_to_move = -1;
    data.street = 2;
    let mut chance = StateChance::new(&config, data);
    chance.create_children();
    match chance.child.as_deref() {
        Some(GameState::Terminal(end)) => {
            assert_eq!(end.state_data.street, 4);
            assert_eq!(end.state_data.bets, vec![300, 300, 20]);
        }
        _ => panic!("without two seats to act the hand is over"),
    }
}

#[test]
fn river_round_ends_in_a_terminal_state() {
    let config = three_handed();
    let mut data = StateData::new(&config);
    data.bets = vec![20, 20, 20];
    data.stacks = vec![280, 280, 280];
    data.street = 4;
    data.player_to_move = 2;
    data.last_player = 2;
    let mut state = StatePlay::new(&config, data);
    state.create_children().unwrap();
    match &state.children[1] {
        Some(GameState::Terminal(end)) => {
            assert_eq!(end.state_data.player_to_move, -1);
            assert_eq!(end.state_data.street, 4);
        }
        _ => panic!("the river closes into a terminal state"),
    }
    match &state.children[6] {
        Some(GameState::Play(next)) => assert_eq!(next.state_data.player_to_move, 0),
        _ => panic!("an all-in reopens the round"),
    }
}

#[test]
fn disabled_raise_is_never_legal() {
    let mut config = three_handed();
    config.postflop_raise_sizes = vec![Ratio::disabled(); 4];
    let mut data = StateData::new(&config);
    data.street = 3;
    let mut state = StatePlay::new(&config, data);
    state.create_children().unwrap();
    assert_eq!(
        state.valid_actions_mask,
        vec![true, true, false, false, false, false, true]
    );
    let mut preflop = StatePlay::new(&config, StateData::new(&config));
    preflop.create_children().unwrap();
    assert!(!preflop.valid_actions_mask[4]);
    assert!(!preflop.valid_actions_mask[5]);
}

#[test]
fn raise_below_the_commitment_floor_is_illegal() {
    let mut config = three_handed();
    config.commited_to_pot_percentage = 80;
    // the floor is 240 chips: a raise to 60 leaves exactly 240, one to 80 less
    config.preflop_raise_sizes =
        vec![Ratio::new(3, 1), Ratio::new(4, 1), Ratio::new(61, 20), Ratio::disabled()];
    let mut state = StatePlay::new(&config, StateData::new(&config));
    state.create_children().unwrap();
    assert_eq!(
        state.valid_actions_mask,
        vec![true, true, true, false, false, false, true]
    );
}

#[test]
fn raise_below_the_minimum_is_illegal() {
    let mut config = three_handed();
    config.preflop_raise_sizes =
        vec![Ratio::new(3, 2), Ratio::new(39, 20), Ratio::new(1, 2), Ratio::new(2, 1)];
    let mut state = StatePlay::new(&config, StateData::new(&config));
    state.create_children().unwrap();
    // raises by 10 and 19 are short of 20; half the bet is no raise at all
    assert_eq!(
        state.valid_actions_mask,
        vec![true, true, false, false, false, true, true]
    );
}

fn capped_street() -> StateData {
    let config = three_handed();
    let mut state = StatePlay::new(&config, StateData::new(&config));
    // call, call, raise, call, raise, call, raise: seven actions
    let mut state = play_child(&mut state, 1);
    let mut state = play_child(&mut state, 1);
    let mut state = play_child(&mut state, 2);
    let mut state = play_child(&mut state, 1);
    let mut state = play_child(&mut state, 2);
    let mut state = play_child(&mut state, 1);
    let state = play_child(&mut state, 2);
    state.state_data
}

#[test]
fn cap_blocks_raise_and_all_in_after_seven_actions() {
    let config = three_handed();
    let data = capped_street();
    assert_eq!(data.history.len(), 7);
    assert_eq!(data.street_actions(), (7, false));
    assert_eq!(data.bets, vec![80, 80, 160]);
    assert_eq!(data.player_to_move, 0);
    let mut state = StatePlay::new(&config, data);
    state.create_children().unwrap();
    assert_eq!(
        state.valid_actions_mask,
        vec![true, true, false, false, false, false, false]
    );
}

#[test]
fn six_actions_do_not_reach_the_cap() {
    let config = three_handed();
    let mut data = capped_street();
    data.history.pop();
    assert_eq!(data.street_actions(), (6, false));
    let mut state = StatePlay::new(&config, data);
    state.create_children().unwrap();
    assert!(state.valid_actions_mask[6]);
}

#[test]
fn an_all_in_on_the_street_lifts_the_cap() {
    let config = three_handed();
    let mut data = capped_street();
    data.history[3].action_type = ActionType::AllIn;
    assert_eq!(data.street_actions(), (7, true));
    let mut state = StatePlay::new(&config, data);
    state.create_children().unwrap();
    // the raise to 320 is more than the stack holds, the all-in is back
    assert_eq!(
        state.valid_actions_mask,
        vec![true, true, false, false, false, false, true]
    );
    let mut roomy = three_handed();
    roomy.preflop_raise_sizes =
        vec![Ratio::new(5, 4), Ratio::disabled(), Ratio::disabled(), Ratio::disabled()];
    let mut data = capped_street();
    data.history[0].action_type = ActionType::AllIn;
    let mut state = StatePlay::new(&roomy, data);
    state.create_children().unwrap();
    assert!(state.valid_actions_mask[2]);
    let mut state = StatePlay::new(&roomy, capped_street());
    state.create_children().unwrap();
    assert!(!state.valid_actions_mask[2]);
}

#[test]
fn actions_of_an_earlier_street_do_not_count() {
    let mut data = capped_street();
    data.street = 2;
    assert_eq!(data.street_actions(), (0, false));
    data.history.push(Action {
        action_type: ActionType::AllIn,
        raise_index: -1,
        player_index: 0,
        street: 2,
    });
    assert_eq!(data.street_actions(), (1, true));
}

#[test]
fn raise_with_no_seat_left_to_act_is_refused() {
    let config = three_handed();
    let mut data = StateData::new(&config);
    // uneven stacks: both others are all-in for little
    data.bets = vec![30, 30, 10];
    data.stacks = vec![0, 0, 290];
    data.player_to_move = 2;
    data.last_player = 1;
    let mut state = StatePlay::new(&config, data);
    match state.create_children() {
        Err(TreeError::RaiseWithoutNextActor { state_data }) => {
            // the error comes with the ledger it was found at
            assert_eq!(state_data, state.state_data);
            assert_eq!(state_data.street, 1);
            assert_eq!(state_data.bets, vec![30, 30, 10]);
            assert!(state_data.history.is_empty());
        }
        other => panic!("the raise has no seat to act after it: {:?}", other),
    }
    assert!(state.children.is_empty());
    assert!(state.valid_actions_mask.is_empty());
    let refused = state.handle_raise(70, 30, 0, Ratio::new(2, 1)).unwrap_err();
    assert!(matches!(refused, TreeError::RaiseWithoutNextActor { .. }));
    assert_eq!(refused.get_state_data(), Some(&state.state_data));
    assert!(state.children.is_empty());
    assert!(matches!(
        state.handle_raises(70, 30),
        Err(TreeError::RaiseWithoutNextActor { .. })
    ));
    assert!(state.children.is_empty());
    assert_eq!(TreeError::IllegalAction.get_state_data(), None);
}

#[test]
fn state_without_legal_action_is_refused() {
    let config = three_handed();
    let mut data = StateData::new(&config);
    data.bets = vec![300, 300, 300];
    data.stacks = vec![0, 0, 0];
    let mut state = StatePlay::new(&config, data);
    match state.create_children() {
        Err(TreeError::NoLegalAction { state_data }) => {
            assert_eq!(state_data.stacks, vec![0, 0, 0]);
            assert_eq!(state_data.player_to_move, 2);
            assert_eq!(state_data, state.state_data);
        }
        other => panic!("no action is legal: {:?}", other),
    }
    assert!(state.children.is_empty());
    assert!(state.valid_actions_mask.is_empty());
}

#[test]
fn single_slots_can_be_built_one_by_one() {
    let config = three_handed();
    let mut state = StatePlay::new(&config, StateData::new(&config));
    state.handle_fold(20);
    state.handle_call(20);
    assert_eq!(state.handle_raises(30, 20), Ok(()));
    state.handle_all_in();
    assert_eq!(
        state.valid_actions_mask,
        vec![true, true, true, true, false, false, true]
    );
    assert_eq!(state.children.len(), 7);
}

#[test]
fn turn_order_skips_seats_that_cannot_act() {
    let config = ActionConfig::new(5, 300, 20, 0);
    let mut data = StateData::new(&config);
    data.is_player_in[3] = false;
    data.stacks[4] = 0;
    data.bets[4] = 300;
    data.player_to_move = 2;
    assert!(data.can_act(0));
    assert!(!data.can_act(3));
    assert!(!data.can_act(4));
    assert!(!data.can_act(5));
    assert_eq!(data.get_next_player(1), 0);
    assert_eq!(data.get_next_player(4), -1);
    assert_eq!(data.get_next_player(2), -1);
    assert_eq!(data.get_next_player(-1), -1);
    assert_eq!(data.get_last_player(2), 1);
    assert_eq!(data.get_last_player(0), 2);
    assert_eq!(data.count_actors(), 3);
    assert_eq!(data.lowest_actor(), 0);
    assert_eq!(data.highest_actor(), 2);
    assert_eq!(StateData::get_active_players(&data.is_player_in), 4);
    assert_eq!(data.get_player_to_move(), 2);
    assert_eq!(data.get_to_move_stack(), 300);
}

#[test]
fn every_child_keeps_every_seats_chips() {
    let config = three_handed();
    let mut frontier = vec![StatePlay::new(&config, StateData::new(&config))];
    let mut seen = 0;
    for _depth in 0..4 {
        let mut next = Vec::new();
        for mut state in frontier {
            state.create_children().unwrap();
            for child in state.children.drain(..) {
                if let Some(child) = child {
                    assert_eq!(chips(child.get_state_data()), vec![300, 300, 300]);
                    seen += 1;
                    if let GameState::Play(play) = child {
                        next.push(play);
                    }
                }
            }
        }
        frontier = next;
    }
    assert!(seen > 100);
}
