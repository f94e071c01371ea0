//! The rating update after a hand, in fixed-point arithmetic.
//!
//! Ratings and rewards are integers in millionths (of a rating point, of a
//! chip); probabilities are integers in millionths of one.

use vstd::prelude::*;
use crate::agent::tournament::{records_of, AgentTournament, RatingRecord};

verus! {

/// One, in millionths.
pub const SCALE: i64 = 1_000_000;

/// Two rewards nearer than this count as equal: a ten-thousandth of a chip.
pub const EPSILON: i64 = 100;

/// The K factor of a hand at full stake, in rating points.
pub const BASE_K: i64 = 40;

/// The rating of a new record: 1400 points.
pub const INITIAL_ELO: i64 = 1_400_000_000;

/// The ceiling above which a record is capped for good: 2400 points.
pub const MAX_RATING: i64 = 2_400_000_000;

/// The number of hands after which a record counts as a veteran.
pub const VETERAN_HANDS: usize = 100_000;

/// The largest K factor, in millionths of a point, that a hand can have.
pub const K_MAX: u128 = 40 * 0xffff_ffff_ffff_ffff;

/// A bound on what one pairing can change a rating by: two to the 83.
pub const DIFF_MAX: i128 = 0x8_0000_0000_0000_0000_0000;

pub open spec fn abs(x: int) -> int {
    if x < 0 {
        -x
    } else {
        x
    }
}

pub open spec fn min(x: int, y: int) -> int {
    if x < y {
        x
    } else {
        y
    }
}

/// The score of a seat against another, in millionths: a half where the
/// rewards are nearer than `EPSILON`, else one for the higher reward and
/// zero for the lower.
pub open spec fn pair_result(reward: int, other: int) -> int {
    if abs(reward - other) < EPSILON {
        SCALE / 2
    } else if reward > other {
        SCALE as int
    } else {
        0
    }
}

/// Whether both seats won or both lost, by more than `EPSILON`.
pub open spec fn same_sign(reward: int, other: int) -> bool {
    (reward < -EPSILON && other < -EPSILON) || (reward > EPSILON && other > EPSILON)
}

/// What was at stake between two seats: the smaller of the two amounts
/// where both won or both lost, else the distance between the rewards.
pub open spec fn stake(reward: int, other: int) -> int {
    if same_sign(reward, other) {
        min(abs(reward), abs(other))
    } else {
        abs(reward - other)
    }
}

/// The K factor of a pair, in millionths of a point: `BASE_K` times the
/// stake as a fraction of the buy-in.
pub open spec fn dyn_k(stake: int, buy_in: int) -> int {
    BASE_K * stake / buy_in
}

/// The K factor of one seat of the pair: a quarter for a capped record,
/// a half for a veteran, else the whole.
pub open spec fn scaled_k(k: int, over_max_rating: bool, hands_played: int) -> int {
    if over_max_rating {
        k / 4
    } else if hands_played > VETERAN_HANDS {
        k / 2
    } else {
        k
    }
}

/// `k * (actual - expected)`, with the two scores in millionths, rounded
/// towards zero.
pub open spec fn elo_diff(expected: int, actual: int, k: int) -> int {
    if actual >= expected {
        k * (actual - expected) / (SCALE as int)
    } else {
        -(k * (expected - actual) / (SCALE as int))
    }
}

/// What a seat's rating gains from its pairing with one other seat.
pub open spec fn seat_delta(
    me: RatingRecord,
    reward: int,
    other: int,
    expected: int,
    buy_in: int,
) -> int {
    elo_diff(
        expected,
        pair_result(reward, other),
        scaled_k(dyn_k(stake(reward, other), buy_in), me.over_max_rating, me.hands_played),
    )
}

/// What seat `x` gains from its pairings with the seats below `upto`.
pub open spec fn delta_upto(
    records: Seq<RatingRecord>,
    rewards: Seq<int>,
    expected: Seq<Seq<int>>,
    buy_in: int,
    x: int,
    upto: int,
) -> int
    decreases upto,
{
    if upto <= 0 {
        0
    } else {
        delta_upto(records, rewards, expected, buy_in, x, upto - 1) + if upto - 1 == x {
            0
        } else {
            seat_delta(records[x], rewards[x], rewards[upto - 1], expected[x][upto - 1], buy_in)
        }
    }
}

/// What seat `x` gains from the hand: the sum over its pairings with every
/// other seat.
pub open spec fn total_delta(
    records: Seq<RatingRecord>,
    rewards: Seq<int>,
    expected: Seq<Seq<int>>,
    buy_in: int,
    x: int,
) -> int {
    delta_upto(records, rewards, expected, buy_in, x, records.len() as int)
}

/// `x` brought into the range of a rating.
pub open spec fn clamp_rating(x: int) -> int {
    if x < i64::MIN {
        i64::MIN as int
    } else if x > i64::MAX {
        i64::MAX as int
    } else {
        x
    }
}

/// The record after a hand that changed its rating by `delta`: one more
/// hand played, and capped from now on once the rating is above
/// `MAX_RATING`.
pub open spec fn settled(record: RatingRecord, delta: int) -> RatingRecord {
    let elo = clamp_rating(record.elo + delta);
    RatingRecord {
        elo,
        hands_played: if record.hands_played < usize::MAX {
            record.hands_played + 1
        } else {
            record.hands_played
        },
        over_max_rating: record.over_max_rating || elo > MAX_RATING,
        ..record
    }
}

pub open spec fn rewards_of(total_won: Seq<i64>) -> Seq<int> {
    total_won.map_values(|r: i64| r as int)
}

pub open spec fn expected_of(expected: Seq<Vec<u32>>) -> Seq<Seq<int>> {
    expected.map_values(|row: Vec<u32>| row@.map_values(|e: u32| e as int))
}

/// The distance between two rewards.
pub fn abs_diff(a: i64, b: i64) -> (r: u64)
    ensures
        r == abs(a - b),
{
    if a >= b {
        (a as i128 - b as i128) as u64
    } else {
        (b as i128 - a as i128) as u64
    }
}

/// The amount of a reward.
pub fn magnitude(a: i64) -> (r: u64)
    ensures
        r == abs(a as int),
{
    if a >= 0 {
        a as u64
    } else {
        (-(a as i128)) as u64
    }
}

/// The score of a seat against another, in millionths.
pub fn calculate_pair_result(reward: i64, other: i64) -> (r: u32)
    ensures
        r == pair_result(reward as int, other as int),
{
    if abs_diff(reward, other) < EPSILON as u64 {
        500_000
    } else if reward > other {
        1_000_000
    } else {
        0
    }
}

/// What was at stake between two seats.
pub fn calculate_stake(reward: i64, other: i64) -> (r: u64)
    ensures
        r == stake(reward as int, other as int),
{
    if (reward < -EPSILON && other < -EPSILON) || (reward > EPSILON && other > EPSILON) {
        let a: u64 = magnitude(reward);
        let b: u64 = magnitude(other);
        if a < b {
            a
        } else {
            b
        }
    } else {
        abs_diff(reward, other)
    }
}

/// The K factor of a pair, in millionths of a point.
pub fn calculate_dyn_k(stake: u64, buy_in: u32) -> (k: u128)
    requires
        buy_in > 0,
    ensures
        k == dyn_k(stake as int, buy_in as int),
        k <= K_MAX,
{
    let product: u128 = 40 * (stake as u128);
    let k: u128 = product / (buy_in as u128);
    assert(k <= product) by (nonlinear_arith)
        requires
            k == product / (buy_in as u128),
            buy_in >= 1,
    ;
    k
}

/// The K factor of one seat of the pair.
pub fn calculate_scaled_k(k: u128, over_max_rating: bool, hands_played: usize) -> (r: u128)
    ensures
        r == scaled_k(k as int, over_max_rating, hands_played as int),
        r <= k,
{
    if over_max_rating {
        k / 4
    } else if hands_played > VETERAN_HANDS {
        k / 2
    } else {
        k
    }
}

/// The rating change of one seat from one pairing: `k` times the distance
/// between the score it got and the score it was expected to get.
pub fn calculate_elo_diff(expected_win_prob: u32, actual_win: u32, k: u128) -> (r: i128)
    requires
        k <= K_MAX,
    ensures
        r == elo_diff(expected_win_prob as int, actual_win as int, k as int),
        -DIFF_MAX <= r <= DIFF_MAX,
{
    let distance: u128 = if actual_win >= expected_win_prob {
        (actual_win - expected_win_prob) as u128
    } else {
        (expected_win_prob - actual_win) as u128
    };
    assert(k * distance <= K_MAX * 0xffff_ffff) by (nonlinear_arith)
        requires
            k <= K_MAX,
            distance <= 0xffff_ffff,
    ;
    let scaled: u128 = k * distance / 1_000_000;
    if actual_win >= expected_win_prob {
        scaled as i128
    } else {
        -(scaled as i128)
    }
}

/// Where both seats of a pair have the same K factor and their expected
/// scores add up to one, what the one gains the other loses.
pub proof fn lemma_elo_diff_is_symmetric(expected: int, actual: int, k: int)
    ensures
        elo_diff(SCALE - expected, SCALE - actual, k) == -elo_diff(expected, actual, k),
{
    assert(k * ((SCALE - actual) - (SCALE - expected)) == k * (expected - actual))
        by (nonlinear_arith);
    assert(k * ((SCALE - expected) - (SCALE - actual)) == k * (actual - expected))
        by (nonlinear_arith);
    if actual == expected {
        assert(k * (actual - expected) == 0) by (nonlinear_arith)
            requires
                actual == expected,
        ;
    }
}

/// Whether `expected` holds expected scores: the score that a seat is
/// expected to get against another and the score that the other is expected
/// to get against it add up to one.
pub open spec fn are_expected_scores(expected: Seq<Seq<int>>) -> bool {
    forall|x: int, y: int|
        0 <= x < expected.len() && 0 <= y < expected.len() && x != y ==> #[trigger] expected[x][y]
            + expected[y][x] == SCALE
}

/// A seat that gets from a pairing exactly the score it was expected to
/// get, as in a tie at even odds, gains and loses nothing from it.
pub proof fn lemma_expected_result_moves_nothing(
    me: RatingRecord,
    reward: int,
    other: int,
    expected: int,
    buy_in: int,
)
    requires
        expected == pair_result(reward, other),
    ensures
        seat_delta(me, reward, other, expected, buy_in) == 0,
{
    let k = scaled_k(dyn_k(stake(reward, other), buy_in), me.over_max_rating, me.hands_played);
    assert(k * (expected - expected) == 0) by (nonlinear_arith);
}

/// At a table of two whose records share one K scale, the rating change of
/// the one seat is the negative of the change of the other.
pub proof fn lemma_two_player_update_is_symmetric(
    records: Seq<RatingRecord>,
    rewards: Seq<int>,
    expected: Seq<Seq<int>>,
    buy_in: int,
)
    requires
        records.len() == 2,
        ({
            let k = dyn_k(stake(rewards[0], rewards[1]), buy_in);
            scaled_k(k, records[0].over_max_rating, records[0].hands_played) == scaled_k(
                k,
                records[1].over_max_rating,
                records[1].hands_played,
            )
        }),
        expected.len() == 2,
        are_expected_scores(expected),
    ensures
        total_delta(records, rewards, expected, buy_in, 0) == -total_delta(
            records,
            rewards,
            expected,
            buy_in,
            1,
        ),
{
    reveal_with_fuel(delta_upto, 3);
    assert(expected[0][1] + expected[1][0] == SCALE);
    lemma_pair_is_symmetric(rewards[0], rewards[1]);
    let k = scaled_k(
        dyn_k(stake(rewards[0], rewards[1]), buy_in),
        records[0].over_max_rating,
        records[0].hands_played,
    );
    lemma_elo_diff_is_symmetric(expected[0][1], pair_result(rewards[0], rewards[1]), k);
}

/// The scores of the two seats of a pair add up to one, and the stake is
/// the same seen from either seat.
pub proof fn lemma_pair_is_symmetric(reward: int, other: int)
    ensures
        pair_result(other, reward) == SCALE - pair_result(reward, other),
        stake(other, reward) == stake(reward, other),
{
}

/// Tests `are_expected_scores`, for callers that bring expected scores.
pub fn expected_scores_add_up(expected: &Vec<Vec<u32>>) -> (ok: bool)
    requires
        forall|x: int| 0 <= x < expected@.len() ==> (#[trigger] expected@[x])@.len() == expected@.len(),
    ensures
        ok == are_expected_scores(expected_of(expected@)),
{
    let n: usize = expected.len();
    let ghost probs = expected_of(expected@);
    let mut x: usize = 0;
    while x < n
        invariant
            x <= n,
            n == expected@.len(),
            probs == expected_of(expected@),
            forall|a: int| 0 <= a < n ==> (#[trigger] expected@[a])@.len() == n,
            forall|a: int, b: int|
                0 <= a < x && 0 <= b < n && a != b ==> #[trigger] probs[a][b] + probs[b][a] == SCALE,
        decreases n - x,
    {
        let mut y: usize = 0;
        while y < n
            invariant
                x < n,
                y <= n,
                n == expected@.len(),
                probs == expected_of(expected@),
                forall|a: int| 0 <= a < n ==> (#[trigger] expected@[a])@.len() == n,
                forall|b: int|
                    0 <= b < y && x != b ==> #[trigger] probs[x as int][b] + probs[b][x as int]
                        == SCALE,
            decreases n - y,
        {
            if x != y && expected[x][y] as u64 + expected[y][x] as u64 != 1_000_000 {
                assert(probs[x as int][y as int] + probs[y as int][x as int] != SCALE);
                return false;
            }
            y += 1;
        }
        x += 1;
    }
    true
}

/// What the two seats of a pair gain from their pairing: the first seat's
/// gain, then the second's.
pub fn calculate_pair_deltas(
    record_i: &AgentTournament,
    record_j: &AgentTournament,
    reward_i: i64,
    reward_j: i64,
    prob_i: u32,
    prob_j: u32,
    buy_in: u32,
) -> (r: (i128, i128))
    requires
        buy_in > 0,
    ensures
        r.0 == seat_delta(record_i@, reward_i as int, reward_j as int, prob_i as int, buy_in as int),
        r.1 == seat_delta(record_j@, reward_j as int, reward_i as int, prob_j as int, buy_in as int),
        -DIFF_MAX <= r.0 <= DIFF_MAX,
        -DIFF_MAX <= r.1 <= DIFF_MAX,
{
    proof {
        lemma_pair_is_symmetric(reward_i as int, reward_j as int);
    }
    let player_i_result: u32 = calculate_pair_result(reward_i, reward_j);
    // Adjust K-factor based on the possible reward in the game
    let min_value: u64 = calculate_stake(reward_i, reward_j);
    let dyn_elo_k: u128 = calculate_dyn_k(min_value, buy_in);
    let dyn_elo_k_i: u128 = calculate_scaled_k(
        dyn_elo_k,
        record_i.over_max_rating,
        record_i.hands_played,
    );
    let dyn_elo_k_j: u128 = calculate_scaled_k(
        dyn_elo_k,
        record_j.over_max_rating,
        record_j.hands_played,
    );
    let elo_diff_i: i128 = calculate_elo_diff(prob_i, player_i_result, dyn_elo_k_i);
    let elo_diff_j: i128 = calculate_elo_diff(prob_j, 1_000_000 - player_i_result, dyn_elo_k_j);
    (elo_diff_i, elo_diff_j)
}

/// How many pairings of seat `x` are summed up once the pairs `(a, b)` with
/// `a < i`, and those with `a == i` and `b < j`, are done.
pub open spec fn pairings_done(x: int, i: int, j: int, n: int) -> int {
    if x < i {
        n
    } else if x == i {
        j
    } else if x < j {
        i + 1
    } else {
        i
    }
}

/// The rating update after one hand. `records` holds the records of the
/// seats of the table, `total_won[x]` what seat `x` won or lost and
/// `expected[x][y]` the score that seat `x` was expected to get against
/// seat `y`, where the expected scores of the two seats of a pair add up to
/// one. Every unordered pair of seats is scored once; each record
/// then gets the sum of what its pairings gained it, one more hand played,
/// and the cap flag once its rating is above `MAX_RATING`.
pub fn update_ratings(
    records: &mut Vec<AgentTournament>,
    total_won: &Vec<i64>,
    expected: &Vec<Vec<u32>>,
    buy_in: u32,
)
    requires
        buy_in > 0,
        old(records)@.len() <= u32::MAX,
        total_won@.len() == old(records)@.len(),
        expected@.len() == old(records)@.len(),
        forall|x: int|
            0 <= x < expected@.len() ==> (#[trigger] expected@[x])@.len() == old(records)@.len(),
        are_expected_scores(expected_of(expected@)),
    ensures
        final(records)@.len() == old(records)@.len(),
        forall|x: int|
            0 <= x < old(records)@.len() ==> (#[trigger] final(records)@[x])@ == settled(
                old(records)@[x]@,
                total_delta(
                    records_of(old(records)@),
                    rewards_of(total_won@),
                    expected_of(expected@),
                    buy_in as int,
                    x,
                ),
            ),
{
    let n: usize = records.len();
    let ghost before = records_of(records@);
    let ghost rewards = rewards_of(total_won@);
    let ghost probs = expected_of(expected@);
    let mut elo_diff: Vec<i128> = Vec::new();
    let mut x: usize = 0;
    while x < n
        invariant
            x <= n,
            elo_diff@.len() == x,
            forall|y: int| 0 <= y < x ==> #[trigger] elo_diff@[y] == 0,
        decreases n - x,
    {
        elo_diff.push(0);
        x += 1;
    }
    // Check each pair of players to determine winner(s) and update ELO
    let mut i: usize = 0;
    while i < n
        invariant
            i <= n,
            n == records@.len(),
            n <= u32::MAX,
            buy_in > 0,
            records@ == old(records)@,
            before == records_of(records@),
            rewards == rewards_of(total_won@),
            probs == expected_of(expected@),
            total_won@.len() == n,
            expected@.len() == n,
            forall|x: int| 0 <= x < n ==> (#[trigger] expected@[x])@.len() == n,
            elo_diff@.len() == n,
            forall|x: int|
                0 <= x < n ==> #[trigger] elo_diff@[x] == delta_upto(
                    before,
                    rewards,
                    probs,
                    buy_in as int,
                    x,
                    pairings_done(x, i as int, i as int, n as int),
                ),
            forall|x: int|
                0 <= x < n ==> -pairings_done(x, i as int, i as int, n as int) * DIFF_MAX
                    <= #[trigger] elo_diff@[x] <= pairings_done(x, i as int, i as int, n as int)
                    * DIFF_MAX,
        decreases n - i,
    {
        let mut j: usize = i + 1;
        while j < n
            invariant
                i < j <= n,
                n == records@.len(),
                n <= u32::MAX,
                buy_in > 0,
                records@ == old(records)@,
                before == records_of(records@),
                rewards == rewards_of(total_won@),
                probs == expected_of(expected@),
                total_won@.len() == n,
                expected@.len() == n,
                forall|x: int| 0 <= x < n ==> (#[trigger] expected@[x])@.len() == n,
                elo_diff@.len() == n,
                forall|x: int|
                    0 <= x < n ==> #[trigger] elo_diff@[x] == delta_upto(
                        before,
                        rewards,
                        probs,
                        buy_in as int,
                        x,
                        pairings_done(x, i as int, j as int, n as int),
                    ),
                forall|x: int|
                    0 <= x < n ==> -pairings_done(x, i as int, j as int, n as int) * DIFF_MAX
                        <= #[trigger] elo_diff@[x] <= pairings_done(x, i as int, j as int, n as int)
                        * DIFF_MAX,
            decreases n - j,
        {
            let (elo_diff_i, elo_diff_j) = calculate_pair_deltas(
                &records[i],
                &records[j],
                total_won[i],
                total_won[j],
                expected[i][j],
                expected[j][i],
                buy_in,
            );
            let sum_i: i128 = elo_diff[i] + elo_diff_i;
            let sum_j: i128 = elo_diff[j] + elo_diff_j;
            elo_diff.set(i, sum_i);
            elo_diff.set(j, sum_j);
            j += 1;
        }
        i += 1;
    }
    // Update ELO
    let mut x: usize = 0;
    while x < n
        invariant
            x <= n,
            n == records@.len(),
            n == old(records)@.len(),
            n <= u32::MAX,
            before == records_of(old(records)@),
            rewards == rewards_of(total_won@),
            probs == expected_of(expected@),
            elo_diff@.len() == n,
            forall|y: int|
                0 <= y < n ==> #[trigger] elo_diff@[y] == total_delta(
                    before,
                    rewards,
                    probs,
                    buy_in as int,
                    y,
                ),
            forall|y: int| 0 <= y < n ==> -n * DIFF_MAX <= #[trigger] elo_diff@[y] <= n * DIFF_MAX,
            forall|y: int| x <= y < n ==> #[trigger] records@[y] == old(records)@[y],
            forall|y: int|
                0 <= y < x ==> (#[trigger] records@[y])@ == settled(
                    old(records)@[y]@,
                    total_delta(before, rewards, probs, buy_in as int, y),
                ),
        decreases n - x,
    {
        let moved: i128 = records[x].elo as i128 + elo_diff[x];
        let elo: i64 = if moved < i64::MIN as i128 {
            i64::MIN
        } else if moved > i64::MAX as i128 {
            i64::MAX
        } else {
            moved as i64
        };
        records[x].elo = elo;
        if records[x].hands_played < usize::MAX {
            records[x].hands_played += 1;
        }
        if elo > MAX_RATING {
            records[x].over_max_rating = true;
        }
        x += 1;
    }
}

} // verus!
