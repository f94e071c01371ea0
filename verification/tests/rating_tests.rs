use deep_poker::agent::rating::{
    abs_diff, calculate_dyn_k, calculate_elo_diff, calculate_pair_deltas, calculate_pair_result,
    calculate_scaled_k, calculate_stake, expected_scores_add_up, magnitude, update_ratings, BASE_K, EPSILON, INITIAL_ELO,
    MAX_RATING, SCALE, VETERAN_HANDS,
};
use deep_poker::agent::tournament::AgentTournament;

const CHIP: i64 = 1_000_000;
const POINT: i64 = 1_000_000;

fn record(elo: i64) -> AgentTournament {
    AgentTournament {
        network_file: String::from("policy"),
        elo,
        iteration: 0,
        hands_played: 0,
        over_max_rating: false,
    }
}

fn even(seats: usize) -> Vec<Vec<u32>> {
    vec![vec![500_000; seats]; seats]
}

#[test]
fn constants_have_their_values() {
    assert_eq!(SCALE, 1_000_000);
    assert_eq!(EPSILON, 100);
    assert_eq!(BASE_K, 40);
    assert_eq!(INITIAL_ELO, 1400 * POINT);
    assert_eq!(MAX_RATING, 2400 * POINT);
    assert_eq!(VETERAN_HANDS, 100_000);
}

#[test]
fn distance_and_amount() {
    assert_eq!(abs_diff(5, -7), 12);
    assert_eq!(abs_diff(-7, 5), 12);
    assert_eq!(abs_diff(i64::MIN, i64::MAX), u64::MAX);
    assert_eq!(magnitude(-3), 3);
    assert_eq!(magnitude(i64::MIN), 1 << 63);
    assert_eq!(magnitude(0), 0);
}

#[test]
fn pair_result_is_win_tie_or_loss() {
    assert_eq!(calculate_pair_result(300 * CHIP, -300 * CHIP), 1_000_000);
    assert_eq!(calculate_pair_result(-300 * CHIP, 300 * CHIP), 0);
    assert_eq!(calculate_pair_result(10 * CHIP, 10 * CHIP), 500_000);
    // nearer than a ten-thousandth of a chip is a tie
    assert_eq!(calculate_pair_result(10 * CHIP + 99, 10 * CHIP), 500_000);
    assert_eq!(calculate_pair_result(10 * CHIP, 10 * CHIP + 99), 500_000);
    assert_eq!(calculate_pair_result(10 * CHIP + 100, 10 * CHIP), 1_000_000);
    assert_eq!(calculate_pair_result(10 * CHIP, 10 * CHIP + 100), 0);
}

#[test]
fn stake_is_the_smaller_amount_for_rewards_of_one_sign() {
    assert_eq!(calculate_stake(100 * CHIP, 250 * CHIP), (100 * CHIP) as u64);
    assert_eq!(calculate_stake(-100 * CHIP, -250 * CHIP), (100 * CHIP) as u64);
    assert_eq!(calculate_stake(-250 * CHIP, -100 * CHIP), (100 * CHIP) as u64);
}

#[test]
fn stake_is_the_distance_for_rewards_of_different_sign() {
    assert_eq!(calculate_stake(150 * CHIP, -150 * CHIP), (300 * CHIP) as u64);
    assert_eq!(calculate_stake(-300 * CHIP, 300 * CHIP), (600 * CHIP) as u64);
    assert_eq!(calculate_stake(0, -20 * CHIP), (20 * CHIP) as u64);
    assert_eq!(calculate_stake(0, 0), 0);
    // a reward within a ten-thousandth of zero has no sign
    assert_eq!(calculate_stake(100, 50 * CHIP), (50 * CHIP - 100) as u64);
    assert_eq!(calculate_stake(101, 50 * CHIP), 101);
}

#[test]
fn k_is_proportional_to_the_stake() {
    assert_eq!(calculate_dyn_k((300 * CHIP) as u64, 300), (40 * POINT) as u128);
    assert_eq!(calculate_dyn_k((150 * CHIP) as u64, 300), (20 * POINT) as u128);
    assert_eq!(calculate_dyn_k(0, 300), 0);
    assert_eq!(calculate_dyn_k(1, 3), 13);
    assert_eq!(calculate_dyn_k(u64::MAX, 1), 40 * (u64::MAX as u128));
}

#[test]
fn k_is_scaled_for_capped_records_and_veterans() {
    let k = (40 * POINT) as u128;
    assert_eq!(calculate_scaled_k(k, false, 0), k);
    assert_eq!(calculate_scaled_k(k, false, 100_000), k);
    assert_eq!(calculate_scaled_k(k, false, 100_001), k / 2);
    assert_eq!(calculate_scaled_k(k, true, 0), k / 4);
    assert_eq!(calculate_scaled_k(k, true, 500_000), k / 4);
}

#[test]
fn elo_diff_is_k_times_the_surprise() {
    let k = (40 * POINT) as u128;
    assert_eq!(calculate_elo_diff(500_000, 1_000_000, k), (20 * POINT) as i128);
    assert_eq!(calculate_elo_diff(500_000, 0, k), -(20 * POINT) as i128);
    assert_eq!(calculate_elo_diff(500_000, 500_000, k), 0);
    assert_eq!(calculate_elo_diff(640_065, 1_000_000, k), 14_397_400);
    assert_eq!(calculate_elo_diff(359_935, 0, k), -14_397_400);
    // rounded towards zero on both sides
    assert_eq!(calculate_elo_diff(0, 1, 1_500_000), 1);
    assert_eq!(calculate_elo_diff(1, 0, 1_500_000), -1);
    assert_eq!(calculate_elo_diff(0, 1, 999_999), 0);
    assert_eq!(calculate_elo_diff(1, 0, 999_999), 0);
}

#[test]
fn half_stake_hand_moves_two_new_records_by_twenty_points() {
    let mut records = vec![record(INITIAL_ELO), record(INITIAL_ELO)];
    update_ratings(&mut records, &vec![150 * CHIP, -150 * CHIP], &even(2), 300);
    assert_eq!(records[0].elo, 1420 * POINT);
    assert_eq!(records[1].elo, 1380 * POINT);
    assert_eq!(records[0].hands_played, 1);
    assert_eq!(records[1].hands_played, 1);
    assert!(!records[0].over_max_rating);
    assert!(!records[1].over_max_rating);
}

#[test]
fn full_stake_hand_between_two_new_records() {
    // two records at 1400, buy-in 300, the winner nets 300 and the loser
    // loses 300: the rewards differ in sign, so their distance of 600 is
    // at stake, which is twice the buy-in
    let mut records = vec![record(INITIAL_ELO), record(INITIAL_ELO)];
    update_ratings(&mut records, &vec![300 * CHIP, -300 * CHIP], &even(2), 300);
    assert_eq!(calculate_dyn_k(calculate_stake(300 * CHIP, -300 * CHIP), 300), (80 * POINT) as u128);
    assert_eq!(records[0].elo, 1440 * POINT);
    assert_eq!(records[1].elo, 1360 * POINT);
    assert_eq!(records[0].elo - INITIAL_ELO, -(records[1].elo - INITIAL_ELO));
}

#[test]
fn two_player_update_is_symmetric_with_one_k_scale() {
    let cases: Vec<(i64, i64, u32)> = vec![
        (100 * CHIP, -100 * CHIP, 640_065),
        (-37 * CHIP, 37 * CHIP, 240_253),
        (5 * CHIP + 1, -5 * CHIP, 999_999),
        (0, 0, 123_456),
        (12 * CHIP, 12 * CHIP + 50, 500_001),
    ];
    for (first, second, expected) in cases {
        for (capped, hands) in [(false, 0usize), (false, 200_000), (true, 3)] {
            let mut records = vec![record(1500 * POINT), record(1400 * POINT)];
            for r in records.iter_mut() {
                r.over_max_rating = capped;
                r.hands_played = hands;
            }
            let probs = vec![vec![0, expected], vec![1_000_000 - expected, 0]];
            update_ratings(&mut records, &vec![first, second], &probs, 300);
            let gain = records[0].elo - 1500 * POINT;
            let loss = records[1].elo - 1400 * POINT;
            assert_eq!(gain, -loss);
        }
    }
}

#[test]
fn expected_scores_of_a_pair_add_up_to_one() {
    assert!(expected_scores_add_up(&even(2)));
    assert!(expected_scores_add_up(&even(5)));
    assert!(expected_scores_add_up(&vec![vec![7, 640_065], vec![359_935, 9]]));
    assert!(!expected_scores_add_up(&vec![vec![0, 640_065], vec![359_936, 0]]));
    assert!(!expected_scores_add_up(&vec![
        vec![0, 500_000, 400_000],
        vec![500_000, 0, 500_000],
        vec![500_000, 500_000, 0],
    ]));
    assert!(!expected_scores_add_up(&vec![vec![0, u32::MAX], vec![u32::MAX, 0]]));
    assert!(expected_scores_add_up(&vec![vec![3]]));
    assert!(expected_scores_add_up(&Vec::new()));
}

#[test]
fn tie_at_even_odds_moves_nothing() {
    let mut records = vec![record(1500 * POINT), record(1500 * POINT)];
    update_ratings(&mut records, &vec![25 * CHIP, 25 * CHIP + 99], &even(2), 300);
    assert_eq!(records[0].elo, 1500 * POINT);
    assert_eq!(records[1].elo, 1500 * POINT);
    assert_eq!(records[0].hands_played, 1);
}

#[test]
fn different_k_scales_break_the_symmetry() {
    let mut records = vec![record(INITIAL_ELO), record(INITIAL_ELO)];
    records[1].hands_played = 100_001;
    update_ratings(&mut records, &vec![150 * CHIP, -150 * CHIP], &even(2), 300);
    assert_eq!(records[0].elo, 1420 * POINT);
    assert_eq!(records[1].elo, 1390 * POINT);
    assert_eq!(records[1].hands_played, 100_002);
}

#[test]
fn pair_deltas_use_each_seats_own_scale() {
    let mut capped = record(2500 * POINT);
    capped.over_max_rating = true;
    let fresh = record(INITIAL_ELO);
    let (first, second) =
        calculate_pair_deltas(&capped, &fresh, -150 * CHIP, 150 * CHIP, 900_000, 100_000, 300);
    // K is 40 points; the capped record moves with a quarter of it
    assert_eq!(first, -9 * POINT as i128);
    assert_eq!(second, 36 * POINT as i128);
}

#[test]
fn three_seats_sum_their_pairings() {
    let mut records = vec![record(INITIAL_ELO), record(INITIAL_ELO), record(INITIAL_ELO)];
    let won = vec![90 * CHIP, -30 * CHIP, -60 * CHIP];
    update_ratings(&mut records, &won, &even(3), 300);
    // seat 0 against 1: stake 120, K 16, gain 8; against 2: stake 150, K 20, gain 10
    assert_eq!(records[0].elo, 1418 * POINT);
    // seat 1 against 0: loses 8; against 2: both lost, stake 30, K 4, gain 2
    assert_eq!(records[1].elo, 1394 * POINT);
    // seat 2 against 0: loses 10; against 1: loses 2
    assert_eq!(records[2].elo, 1388 * POINT);
    assert_eq!(records.iter().map(|r| r.hands_played).collect::<Vec<_>>(), vec![1, 1, 1]);
}

#[test]
fn tie_moves_records_towards_each_other() {
    let mut records = vec![record(1600 * POINT), record(1400 * POINT), record(1400 * POINT)];
    // seats 0 and 1 split what seat 2 lost
    let won = vec![30 * CHIP, 30 * CHIP, -60 * CHIP];
    let probs = vec![
        vec![0, 759_747, 759_747],
        vec![240_253, 0, 500_000],
        vec![240_253, 500_000, 0],
    ];
    update_ratings(&mut records, &won, &probs, 300);
    // the tie is at stake 30, K 4: the favourite loses on it
    let tie_loss = 4 * POINT * (759_747 - 500_000) / 1_000_000;
    let win_gain = 12 * POINT * (1_000_000 - 759_747) / 1_000_000;
    assert_eq!(records[0].elo, 1600 * POINT - tie_loss + win_gain);
}

#[test]
fn cap_flag_is_set_above_the_ceiling_and_stays() {
    let mut records = vec![record(2395 * POINT), record(INITIAL_ELO)];
    update_ratings(&mut records, &vec![150 * CHIP, -150 * CHIP], &even(2), 300);
    assert_eq!(records[0].elo, 2415 * POINT);
    assert!(records[0].over_max_rating);
    assert!(!records[1].over_max_rating);
    // falling below the ceiling again does not clear the flag
    update_ratings(&mut records, &vec![-300 * CHIP, 300 * CHIP], &even(2), 300);
    assert_eq!(records[0].elo, 2405 * POINT);
    update_ratings(&mut records, &vec![-300 * CHIP, 300 * CHIP], &even(2), 300);
    assert_eq!(records[0].elo, 2395 * POINT);
    assert!(records[0].over_max_rating);
}

#[test]
fn rating_exactly_at_the_ceiling_is_not_capped() {
    let mut records = vec![record(2380 * POINT), record(INITIAL_ELO)];
    update_ratings(&mut records, &vec![150 * CHIP, -150 * CHIP], &even(2), 300);
    assert_eq!(records[0].elo, MAX_RATING);
    assert!(!records[0].over_max_rating);
}

#[test]
fn ratings_and_hand_counts_saturate() {
    let mut records = vec![record(i64::MAX - 5), record(i64::MIN + 5)];
    records[0].hands_played = usize::MAX;
    update_ratings(&mut records, &vec![150 * CHIP, -150 * CHIP], &even(2), 300);
    assert_eq!(records[0].elo, i64::MAX);
    assert_eq!(records[1].elo, i64::MIN);
    assert_eq!(records[0].hands_played, usize::MAX);
}

#[test]
fn update_of_an_empty_table_does_nothing() {
    let mut records: Vec<AgentTournament> = Vec::new();
    update_ratings(&mut records, &Vec::new(), &Vec::new(), 300);
    assert!(records.is_empty());
    let mut alone = vec![record(INITIAL_ELO)];
    update_ratings(&mut alone, &vec![0], &vec![vec![0]], 300);
    assert_eq!(alone[0].elo, INITIAL_ELO);
    assert_eq!(alone[0].hands_played, 1);
}
