use deep_poker::agent::rating::INITIAL_ELO;
use deep_poker::agent::tournament::{batch_range, plan, Schedule, Tournament};
use deep_poker::game::action::ActionConfig;

const POINT: i64 = 1_000_000;

fn tournament(elos: &[i64]) -> Tournament {
    let mut t = Tournament::new(3, ActionConfig::new(3, 300, 20, 9));
    for (i, elo) in elos.iter().enumerate() {
        t.add_agent(format!("net_{}", i), i as u32);
        t.agents[i].elo = *elo * POINT;
    }
    t
}

fn names(t: &Tournament) -> Vec<String> {
    t.agents.iter().map(|a| a.network_file.clone()).collect()
}

#[test]
fn new_tournament_is_empty() {
    let t = Tournament::new(3, ActionConfig::new(3, 300, 20, 9));
    assert_eq!(t.get_agent_count(), 0);
    assert_eq!(t.player_count, 3);
    assert_eq!(t.action_config.buy_in, 300);
    assert!(t.get_elos().is_empty());
}

#[test]
fn added_agent_starts_at_the_initial_rating() {
    let mut t = Tournament::new(3, ActionConfig::new(3, 300, 20, 9));
    t.add_agent(String::from("first.weights"), 12);
    t.add_agent(String::from("second.weights"), 13);
    assert_eq!(t.get_agent_count(), 2);
    let added = &t.agents[1];
    assert_eq!(added.network_file, "second.weights");
    assert_eq!(added.iteration, 13);
    assert_eq!(added.elo, INITIAL_ELO);
    assert_eq!(added.elo, 1_400_000_000);
    assert_eq!(added.hands_played, 0);
    assert!(!added.over_max_rating);
    assert_eq!(t.agents[0].network_file, "first.weights");
    assert_eq!(t.get_elos(), vec![INITIAL_ELO, INITIAL_ELO]);
}

#[test]
fn roster_is_ranked_best_first_and_stably() {
    let mut t = tournament(&[1400, 1600, 1400, 1700, 1600]);
    t.sort_by_elo();
    assert_eq!(names(&t), vec!["net_3", "net_1", "net_4", "net_0", "net_2"]);
    assert_eq!(
        t.get_elos(),
        vec![1700 * POINT, 1600 * POINT, 1600 * POINT, 1400 * POINT, 1400 * POINT]
    );
}

#[test]
fn best_agents_are_taken_from_the_ranked_roster() {
    let mut t = tournament(&[1400, 1600, 1500, 1700]);
    assert_eq!(t.get_best_agents(2), vec!["net_3", "net_1"]);
    assert_eq!(names(&t), vec!["net_3", "net_1", "net_2", "net_0"]);
    assert!(t.get_best_agents(0).is_empty());
}

#[test]
fn with_no_more_agents_than_asked_for_all_are_returned_unranked() {
    let mut t = tournament(&[1400, 1600, 1500]);
    assert_eq!(t.get_best_agents(3), vec!["net_0", "net_1", "net_2"]);
    assert_eq!(t.get_best_agents(10), vec!["net_0", "net_1", "net_2"]);
    assert_eq!(names(&t), vec!["net_0", "net_1", "net_2"]);
    let mut empty = tournament(&[]);
    assert!(empty.get_best_agents(4).is_empty());
}

#[test]
fn negative_ratings_are_dropped() {
    let mut t = tournament(&[-1, 1400, -300, 0, 20]);
    t.drop_negative();
    assert_eq!(names(&t), vec!["net_1", "net_3", "net_4"]);
    let mut all_gone = tournament(&[-1, -2]);
    all_gone.drop_negative();
    assert_eq!(all_gone.get_agent_count(), 0);
}

#[test]
fn end_of_run_drops_and_ranks() {
    let mut t = tournament(&[-1, 1400, -300, 0, 1500, 1400]);
    t.agents[3].elo = -1; // a millionth of a point below zero
    t.finish_run();
    assert_eq!(names(&t), vec!["net_4", "net_1", "net_5"]);
}

#[test]
fn plan_takes_three_quarters_of_the_processors() {
    assert_eq!(
        plan(8, 10, 1000),
        Some(Schedule { n_workers: 6, batch_size: 2, rounds: 100 })
    );
    assert_eq!(
        plan(4, 10, 1005),
        Some(Schedule { n_workers: 3, batch_size: 4, rounds: 100 })
    );
    assert_eq!(plan(2, 3, 2), Some(Schedule { n_workers: 1, batch_size: 3, rounds: 0 }));
    assert_eq!(
        plan(usize::MAX, 1, 0),
        Some(Schedule { n_workers: usize::MAX / 4 * 3 + 2, batch_size: 1, rounds: 0 })
    );
    assert_eq!(plan(1, 10, 1000), None);
    assert_eq!(plan(0, 10, 1000), None);
    assert_eq!(plan(8, 0, 1000), None);
}

#[test]
fn batches_share_out_the_roster() {
    let ranges: Vec<(usize, usize)> = (0..6).map(|w| batch_range(w, 2, 10)).collect();
    assert_eq!(ranges, vec![(0, 2), (2, 4), (4, 6), (6, 8), (8, 10), (10, 10)]);
    let ranges: Vec<(usize, usize)> = (0..3).map(|w| batch_range(w, 4, 10)).collect();
    assert_eq!(ranges, vec![(0, 4), (4, 8), (8, 10)]);
    assert_eq!(batch_range(7, 4, 10), (10, 10));
    assert_eq!(batch_range(usize::MAX, usize::MAX, 10), (10, 10));
    for roster in 1..40usize {
        for cpus in 2..20usize {
            let schedule = plan(cpus, roster, 0).unwrap();
            let mut covered = vec![0; roster];
            for worker in 0..schedule.n_workers {
                let (start, end) = batch_range(worker, schedule.batch_size, roster);
                for index in start..end {
                    covered[index] += 1;
                }
            }
            assert_eq!(covered, vec![1; roster]);
        }
    }
}

#[test]
fn schedule_ranks_the_roster_and_fits_this_machine() {
    let mut t = tournament(&[1400, 1600, 1500, 1700]);
    let schedule = t.schedule(1000);
    assert_eq!(names(&t), vec!["net_3", "net_1", "net_2", "net_0"]);
    if let Some(schedule) = schedule {
        assert!(schedule.n_workers >= 1);
        assert_eq!(schedule.rounds, 250);
        assert_eq!(schedule.batch_size, (4 + schedule.n_workers - 1) / schedule.n_workers);
    }
    let mut empty = tournament(&[]);
    assert_eq!(empty.schedule(1000), None);
}
