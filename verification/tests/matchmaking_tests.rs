use deep_poker::agent::matchmaking::{
    choose_table, elo_differences, map_rewards, seat_players, seating_from_draws,
    sort_by_distance, table_from_order,
};

const POINT: i64 = 1_000_000;

fn ratings() -> Vec<i64> {
    vec![1400 * POINT, 1500 * POINT, 1390 * POINT, 1800 * POINT, 1405 * POINT]
}

fn permutations(items: Vec<(usize, u64)>) -> Vec<Vec<(usize, u64)>> {
    if items.len() <= 1 {
        return vec![items];
    }
    let mut all = Vec::new();
    for i in 0..items.len() {
        let mut rest = items.clone();
        let head = rest.remove(i);
        for mut tail in permutations(rest) {
            tail.insert(0, head);
            all.push(tail);
        }
    }
    all
}

#[test]
fn candidates_are_all_others_with_their_distance() {
    let candidates = elo_differences(&ratings(), 0);
    assert_eq!(
        candidates,
        vec![
            (1, (100 * POINT) as u64),
            (2, (10 * POINT) as u64),
            (3, (400 * POINT) as u64),
            (4, (5 * POINT) as u64)
        ]
    );
    let middle = elo_differences(&ratings(), 2);
    assert_eq!(middle.iter().map(|c| c.0).collect::<Vec<_>>(), vec![0, 1, 3, 4]);
    assert_eq!(middle[0].1, (10 * POINT) as u64);
    assert!(elo_differences(&vec![7], 0).is_empty());
}

#[test]
fn sort_is_by_distance_and_stable() {
    let sorted = sort_by_distance(&vec![(0, 5), (1, 3), (2, 5), (3, 1), (4, 3)]);
    assert_eq!(sorted, vec![(3, 1), (1, 3), (4, 3), (0, 5), (2, 5)]);
    let other = sort_by_distance(&vec![(2, 5), (4, 3), (0, 5), (1, 3), (3, 1)]);
    assert_eq!(other, vec![(3, 1), (4, 3), (1, 3), (2, 5), (0, 5)]);
    assert!(sort_by_distance(&Vec::new()).is_empty());
}

#[test]
fn table_holds_the_nearest_and_the_agent() {
    let order = elo_differences(&ratings(), 0);
    assert_eq!(table_from_order(&order, 0, 3), vec![4, 2, 0]);
    assert_eq!(table_from_order(&order, 0, 2), vec![4, 0]);
    assert_eq!(table_from_order(&order, 0, 1), vec![0]);
    assert_eq!(table_from_order(&order, 0, 5), vec![4, 2, 1, 3, 0]);
    // more seats than agents: everyone sits
    assert_eq!(table_from_order(&order, 0, 9), vec![4, 2, 1, 3, 0]);
}

#[test]
fn without_ties_the_table_does_not_depend_on_the_order() {
    let elos = ratings();
    for agent in 0..elos.len() {
        let candidates = elo_differences(&elos, agent);
        let expected = table_from_order(&candidates, agent, 3);
        for order in permutations(candidates.clone()) {
            assert_eq!(table_from_order(&order, agent, 3), expected);
        }
        for _ in 0..20 {
            assert_eq!(choose_table(&elos, agent, 3), expected);
        }
    }
    assert_eq!(choose_table(&elos, 3, 3), vec![1, 4, 3]);
    assert_eq!(choose_table(&elos, 2, 4), vec![0, 4, 1, 2]);
}

#[test]
fn with_ties_the_table_is_still_one_of_the_nearest() {
    let elos = vec![1400 * POINT; 6];
    for _ in 0..50 {
        let table = choose_table(&elos, 2, 3);
        assert_eq!(table.len(), 3);
        assert_eq!(table[2], 2);
        assert_ne!(table[0], table[1]);
        assert!(table[0] != 2 && table[0] < 6);
        assert!(table[1] != 2 && table[1] < 6);
    }
    let mixed = vec![1400 * POINT, 1410 * POINT, 1390 * POINT, 1500 * POINT];
    for _ in 0..50 {
        let table = choose_table(&mixed, 0, 3);
        let mut opponents = vec![table[0], table[1]];
        opponents.sort();
        assert_eq!(opponents, vec![1, 2]);
    }
}

#[test]
fn ties_are_broken_at_random() {
    let elos = vec![1400 * POINT; 8];
    let first = choose_table(&elos, 0, 3);
    let mut differs = false;
    for _ in 0..200 {
        if choose_table(&elos, 0, 3) != first {
            differs = true;
        }
    }
    assert!(differs);
}

#[test]
fn seating_is_a_permutation() {
    for seats in 0..9u32 {
        for _ in 0..30 {
            let mut seating = seat_players(seats);
            assert_eq!(seating.len(), seats as usize);
            seating.sort();
            assert_eq!(seating, (0..seats as usize).collect::<Vec<_>>());
        }
    }
}

#[test]
fn seating_follows_the_draws() {
    // each draw counts among the positions that are left, in ascending order
    assert_eq!(seating_from_draws(4, &vec![0, 0, 0, 0]), vec![0, 1, 2, 3]);
    assert_eq!(seating_from_draws(4, &vec![3, 2, 1, 0]), vec![3, 2, 1, 0]);
    assert_eq!(seating_from_draws(4, &vec![1, 1, 1, 0]), vec![1, 2, 3, 0]);
    assert_eq!(seating_from_draws(4, &vec![2, 0, 1, 0]), vec![2, 0, 3, 1]);
    assert_eq!(seating_from_draws(1, &vec![0]), vec![0]);
    assert!(seating_from_draws(0, &Vec::new()).is_empty());
}

#[test]
fn seating_varies() {
    let first = seat_players(8);
    let mut differs = false;
    for _ in 0..50 {
        if seat_players(8) != first {
            differs = true;
        }
    }
    assert!(differs);
}

#[test]
fn rewards_follow_the_seating_back_to_the_table() {
    let rewards = vec![30, -10, -20];
    assert_eq!(map_rewards(&rewards, &vec![2, 0, 1]), vec![-10, -20, 30]);
    assert_eq!(map_rewards(&rewards, &vec![0, 1, 2]), vec![30, -10, -20]);
    assert!(map_rewards(&Vec::new(), &Vec::new()).is_empty());
}
