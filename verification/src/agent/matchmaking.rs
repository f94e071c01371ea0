//! Who plays whom: the table of a hand and its seating.

use vstd::prelude::*;
use crate::agent::random::{random_below, shuffle};
use crate::agent::rating::{abs, abs_diff};

verus! {

/// The distance between the ratings of two agents.
pub open spec fn distance(elos: Seq<i64>, agent: int, other: int) -> int {
    abs(elos[agent] - elos[other])
}

/// An agent as a candidate for the table of `agent`: its index and its
/// distance.
pub open spec fn candidate(elos: Seq<i64>, agent: int, other: int) -> (usize, u64) {
    (other as usize, distance(elos, agent, other) as u64)
}

/// The candidates for the table of `agent`: every other agent, in roster
/// order.
pub open spec fn candidates(elos: Seq<i64>, agent: int) -> Seq<(usize, u64)> {
    Seq::new(elos.len(), |other: int| candidate(elos, agent, other)).remove(agent)
}

/// Where a candidate at distance `d` is put into `s`: behind the last entry
/// that is no farther.
pub open spec fn upper_pos(s: Seq<(usize, u64)>, d: u64) -> int
    decreases s.len(),
{
    if s.len() == 0 {
        0
    } else if s.last().1 <= d {
        s.len() as int
    } else {
        upper_pos(s.drop_last(), d)
    }
}

/// `s` in the order of the stable sort by distance: nearest first, and
/// candidates at one distance in the order they have in `s`.
pub open spec fn sorted_by_distance(s: Seq<(usize, u64)>) -> Seq<(usize, u64)>
    decreases s.len(),
{
    if s.len() == 0 {
        s
    } else {
        let sorted = sorted_by_distance(s.drop_last());
        sorted.insert(upper_pos(sorted, s.last().1), s.last())
    }
}

/// Whether the distances of `s` never fall.
pub open spec fn ascending(s: Seq<(usize, u64)>) -> bool {
    forall|i: int, j: int| 0 <= i < j < s.len() ==> s[i].1 <= s[j].1
}

/// How many opponents a table of `player_count` seats takes from `n`
/// candidates.
pub open spec fn opponents_taken(player_count: int, n: int) -> int {
    if player_count - 1 < n {
        player_count - 1
    } else {
        n
    }
}

/// The table that the candidates in the order `order` give: the nearest
/// `player_count - 1` of them, then the agent itself.
pub open spec fn table_of(order: Seq<(usize, u64)>, agent: usize, player_count: int) -> Seq<usize> {
    sorted_by_distance(order).take(opponents_taken(player_count, order.len() as int)).map_values(
        |c: (usize, u64)| c.0,
    ).push(agent)
}

pub proof fn lemma_upper_pos(s: Seq<(usize, u64)>, d: u64)
    requires
        ascending(s),
    ensures
        0 <= upper_pos(s, d) <= s.len(),
        forall|i: int| 0 <= i < upper_pos(s, d) ==> (#[trigger] s[i]).1 <= d,
        forall|i: int| upper_pos(s, d) <= i < s.len() ==> (#[trigger] s[i]).1 > d,
    decreases s.len(),
{
    if s.len() > 0 && s.last().1 > d {
        lemma_upper_pos(s.drop_last(), d);
        assert forall|i: int| 0 <= i < upper_pos(s, d) implies (#[trigger] s[i]).1 <= d by {
            assert(s[i] == s.drop_last()[i]);
        }
        assert forall|i: int| upper_pos(s, d) <= i < s.len() implies (#[trigger] s[i]).1 > d by {
            if i < s.len() - 1 {
                assert(s[i] == s.drop_last()[i]);
            }
        }
    }
}

/// The stable sort by distance keeps the candidates, each as often as it
/// was there, and puts them in ascending order.
pub proof fn lemma_sorted_by_distance(s: Seq<(usize, u64)>)
    ensures
        sorted_by_distance(s).len() == s.len(),
        ascending(sorted_by_distance(s)),
        sorted_by_distance(s).to_multiset() == s.to_multiset(),
    decreases s.len(),
{
    broadcast use {vstd::seq_lib::to_multiset_insert, vstd::seq_lib::to_multiset_build};

    if s.len() > 0 {
        let sorted = sorted_by_distance(s.drop_last());
        lemma_sorted_by_distance(s.drop_last());
        lemma_upper_pos(sorted, s.last().1);
        assert(s.drop_last().push(s.last()) =~= s);
        assert(s.to_multiset() == s.drop_last().to_multiset().insert(s.last()));
    }
}

/// The candidates for the table of `agent_index`, with their distances.
pub fn elo_differences(elos: &Vec<i64>, agent_index: usize) -> (r: Vec<(usize, u64)>)
    requires
        agent_index < elos@.len(),
    ensures
        r@ == candidates(elos@, agent_index as int),
{
    let chosen_elo: i64 = elos[agent_index];
    let mut r: Vec<(usize, u64)> = Vec::new();
    let mut index: usize = 0;
    while index < elos.len()
        invariant
            agent_index < elos@.len(),
            chosen_elo == elos@[agent_index as int],
            index <= elos@.len(),
            r@.len() == if index <= agent_index {
                index as int
            } else {
                index - 1
            },
            forall|p: int|
                0 <= p < r@.len() ==> #[trigger] r@[p] == candidate(
                    elos@,
                    agent_index as int,
                    if p < agent_index {
                        p
                    } else {
                        p + 1
                    },
                ),
        decreases elos@.len() - index,
    {
        if index != agent_index {
            r.push((index, abs_diff(chosen_elo, elos[index])));
        }
        index += 1;
    }
    assert(r@ =~= candidates(elos@, agent_index as int));
    r
}

/// Sorts candidates by distance, nearest first; candidates at one distance
/// keep their order.
pub fn sort_by_distance(order: &Vec<(usize, u64)>) -> (r: Vec<(usize, u64)>)
    ensures
        r@ == sorted_by_distance(order@),
{
    let mut r: Vec<(usize, u64)> = Vec::new();
    let mut t: usize = 0;
    while t < order.len()
        invariant
            t <= order@.len(),
            r@ == sorted_by_distance(order@.take(t as int)),
        decreases order@.len() - t,
    {
        proof {
            lemma_sorted_by_distance(order@.take(t as int));
            assert(order@.take(t + 1).drop_last() =~= order@.take(t as int));
        }
        let entry: (usize, u64) = order[t];
        let mut p: usize = r.len();
        assert(r@.take(p as int) =~= r@);
        while p > 0 && r[p - 1].1 > entry.1
            invariant
                p <= r@.len(),
                upper_pos(r@, entry.1) == upper_pos(r@.take(p as int), entry.1),
            decreases p,
        {
            assert(r@.take(p as int).drop_last() =~= r@.take(p - 1));
            p -= 1;
        }
        proof {
            let head = r@.take(p as int);
            if p > 0 {
                assert(head.last() == r@[p - 1]);
            }
            assert(upper_pos(head, entry.1) == p);
        }
        r.insert(p, entry);
        t += 1;
    }
    assert(order@.take(order@.len() as int) =~= order@);
    r
}

/// The table that the candidates in the order `order` give.
pub fn table_from_order(order: &Vec<(usize, u64)>, agent_index: usize, player_count: u32) -> (r:
    Vec<usize>)
    requires
        player_count >= 1,
    ensures
        r@ == table_of(order@, agent_index, player_count as int),
{
    let sorted = sort_by_distance(order);
    proof {
        lemma_sorted_by_distance(order@);
    }
    let wanted: usize = (player_count - 1) as usize;
    let taken: usize = if wanted < sorted.len() {
        wanted
    } else {
        sorted.len()
    };
    let mut r: Vec<usize> = Vec::new();
    let mut s: usize = 0;
    while s < taken
        invariant
            s <= taken <= sorted@.len(),
            r@ == sorted@.take(s as int).map_values(|c: (usize, u64)| c.0),
        decreases taken - s,
    {
        r.push(sorted[s].0);
        assert(r@ =~= sorted@.take(s + 1).map_values(|c: (usize, u64)| c.0));
        s += 1;
    }
    r.push(agent_index);
    r
}

/// Whether `table` is a table for `agent`: the nearest `player_count - 1`
/// other agents, nearest first and none twice, then the agent itself. No
/// agent left out is nearer than one that is in.
pub open spec fn is_closest_table(
    elos: Seq<i64>,
    agent: int,
    player_count: int,
    table: Seq<usize>,
) -> bool {
    let k = opponents_taken(player_count, elos.len() - 1);
    &&& table.len() == k + 1
    &&& table[k] == agent
    &&& forall|s: int| 0 <= s < k ==> (#[trigger] table[s]) < elos.len() && table[s] != agent
    &&& forall|s: int, t: int| 0 <= s < t < k ==> table[s] != table[t]
    &&& forall|s: int, t: int|
        0 <= s < t < k ==> distance(elos, agent, table[s] as int) <= distance(
            elos,
            agent,
            table[t] as int,
        )
    &&& forall|other: int, s: int|
        0 <= other < elos.len() && other != agent && 0 <= s < k && !table.take(k).contains(
            other as usize,
        ) ==> distance(elos, agent, (#[trigger] table[s]) as int) <= #[trigger] distance(
            elos,
            agent,
            other,
        )
}

/// The order by distance, and by index among candidates at one distance.
pub open spec fn nearer_or_same(a: (usize, u64), b: (usize, u64)) -> bool {
    a.1 < b.1 || (a.1 == b.1 && a.0 <= b.0)
}

/// Whether no two candidates of `order` are at the same distance.
pub open spec fn no_ties(order: Seq<(usize, u64)>) -> bool {
    forall|i: int, j: int| 0 <= i < j < order.len() ==> order[i].1 != order[j].1
}

/// Sequences that hold the same entries, each as often, have the same
/// members.
proof fn lemma_same_members(a: Seq<(usize, u64)>, b: Seq<(usize, u64)>, e: (usize, u64))
    requires
        a.to_multiset() == b.to_multiset(),
        a.contains(e),
    ensures
        b.contains(e),
{
    vstd::seq_lib::to_multiset_contains(a, e);
    vstd::seq_lib::to_multiset_contains(b, e);
}

/// The candidate of roster index `other`, where it stands among the
/// candidates.
proof fn lemma_candidates(elos: Seq<i64>, agent: int)
    requires
        0 <= agent < elos.len() <= usize::MAX,
    ensures
        candidates(elos, agent).len() == elos.len() - 1,
        candidates(elos, agent).no_duplicates(),
        forall|p: int|
            0 <= p < elos.len() - 1 ==> {
                let other = if p < agent {
                    p
                } else {
                    p + 1
                };
                &&& (#[trigger] candidates(elos, agent)[p]).0 == other
                &&& candidates(elos, agent)[p].1 == distance(elos, agent, other)
            },
        forall|other: int|
            0 <= other < elos.len() && other != agent ==> candidates(elos, agent).contains(
                #[trigger] candidate(elos, agent, other),
            ),
{
    let c = candidates(elos, agent);
    assert forall|other: int| 0 <= other < elos.len() && other != agent implies c.contains(
        #[trigger] candidate(elos, agent, other),
    ) by {
        let p = if other < agent {
            other
        } else {
            other - 1
        };
        assert(c[p] == candidate(elos, agent, other));
    }
}

/// Whatever the order of the candidates, the table they give is a table of
/// the nearest.
pub proof fn lemma_table_is_closest(
    elos: Seq<i64>,
    agent: usize,
    player_count: int,
    order: Seq<(usize, u64)>,
)
    requires
        agent < elos.len() <= usize::MAX,
        player_count >= 1,
        order.to_multiset() == candidates(elos, agent as int).to_multiset(),
    ensures
        is_closest_table(elos, agent as int, player_count, table_of(order, agent, player_count)),
{
    broadcast use {vstd::seq_lib::to_multiset_len, vstd::seq_lib::to_multiset_contains};

    let c = candidates(elos, agent as int);
    let sorted = sorted_by_distance(order);
    let table = table_of(order, agent, player_count);
    lemma_candidates(elos, agent as int);
    lemma_sorted_by_distance(order);
    assert(order.len() == c.len()) by {
        assert(order.to_multiset().len() == order.len());
        assert(c.to_multiset().len() == c.len());
    }
    let k = opponents_taken(player_count, elos.len() - 1);
    c.lemma_multiset_has_no_duplicates();
    sorted.lemma_multiset_has_no_duplicates_conv();
    assert forall|s: int| 0 <= s < sorted.len() implies {
        &&& (#[trigger] sorted[s]).0 < elos.len()
        &&& sorted[s].0 != agent
        &&& sorted[s].1 == distance(elos, agent as int, sorted[s].0 as int)
    } by {
        assert(sorted.contains(sorted[s]));
        lemma_same_members(sorted, c, sorted[s]);
        let p = choose|p: int| 0 <= p < c.len() && c[p] == sorted[s];
        assert(c[p] == sorted[s]);
    }
    assert forall|s: int, t: int| 0 <= s < t < k implies table[s] != table[t] by {
        assert(sorted[s] != sorted[t]);
    }
    assert forall|other: int, s: int|
        0 <= other < elos.len() && other != agent && 0 <= s < k && !table.take(k).contains(
            other as usize,
        ) implies distance(elos, agent as int, (#[trigger] table[s]) as int) <= #[trigger] distance(
        elos,
        agent as int,
        other,
    ) by {
        let e = candidate(elos, agent as int, other);
        assert(c.contains(e));
        lemma_same_members(c, sorted, e);
        let q = choose|q: int| 0 <= q < sorted.len() && sorted[q] == e;
        if q < k {
            assert(table.take(k)[q] == other as usize);
        }
    }
}

/// Where no two candidates are at the same distance, the table does not
/// depend on the order in which the candidates come.
pub proof fn lemma_table_ignores_order(
    order1: Seq<(usize, u64)>,
    order2: Seq<(usize, u64)>,
    agent: usize,
    player_count: int,
)
    requires
        order1.to_multiset() == order2.to_multiset(),
        no_ties(order1),
    ensures
        table_of(order1, agent, player_count) == table_of(order2, agent, player_count),
{
    broadcast use {vstd::seq_lib::to_multiset_len, vstd::seq_lib::to_multiset_contains};

    let leq = |a: (usize, u64), b: (usize, u64)| nearer_or_same(a, b);
    let sorted1 = sorted_by_distance(order1);
    let sorted2 = sorted_by_distance(order2);
    lemma_sorted_by_distance(order1);
    lemma_sorted_by_distance(order2);
    assert(order1.len() == order2.len()) by {
        assert(order1.to_multiset().len() == order1.len());
        assert(order2.to_multiset().len() == order2.len());
    }
    assert(order1.no_duplicates());
    order1.lemma_multiset_has_no_duplicates();
    sorted1.lemma_multiset_has_no_duplicates_conv();
    sorted2.lemma_multiset_has_no_duplicates_conv();
    assert forall|i: int, j: int| 0 <= i < j < sorted1.len() implies #[trigger] leq(
        sorted1[i],
        sorted1[j],
    ) by {
        lemma_distinct_distances(order1, sorted1, i, j);
    }
    assert forall|i: int, j: int| 0 <= i < j < sorted2.len() implies #[trigger] leq(
        sorted2[i],
        sorted2[j],
    ) by {
        lemma_distinct_distances(order1, sorted2, i, j);
    }
    assert(vstd::relations::total_ordering(leq)) by {
        assert forall|x: (usize, u64), y: (usize, u64)| #[trigger] leq(x, y) && #[trigger] leq(
            y,
            x,
        ) implies x == y by {}
    }
    vstd::seq_lib::lemma_sorted_unique(sorted1, sorted2, leq);
}

/// Two different entries of a sequence that holds the candidates of
/// `order`, none of them twice, are at different distances where `order`
/// has no ties.
proof fn lemma_distinct_distances(
    order: Seq<(usize, u64)>,
    sorted: Seq<(usize, u64)>,
    i: int,
    j: int,
)
    requires
        no_ties(order),
        sorted.to_multiset() == order.to_multiset(),
        sorted.no_duplicates(),
        0 <= i < j < sorted.len(),
    ensures
        sorted[i].1 != sorted[j].1,
{
    broadcast use vstd::seq_lib::to_multiset_contains;

    assert(sorted.contains(sorted[i]));
    assert(sorted.contains(sorted[j]));
    lemma_same_members(sorted, order, sorted[i]);
    lemma_same_members(sorted, order, sorted[j]);
    let p = choose|p: int| 0 <= p < order.len() && order[p] == sorted[i];
    let q = choose|q: int| 0 <= q < order.len() && order[q] == sorted[j];
    assert(p != q);
    if p < q {
        assert(order[p].1 != order[q].1);
    } else {
        assert(order[q].1 != order[p].1);
    }
}

/// For ratings without ties in distance, the table of an agent holds the
/// `player_count - 1` other agents nearest to it, whatever the order that
/// the shuffle left the candidates in.
pub proof fn lemma_matchmaking(
    elos: Seq<i64>,
    agent: usize,
    player_count: int,
    order: Seq<(usize, u64)>,
)
    requires
        agent < elos.len() <= usize::MAX,
        player_count >= 1,
        order.to_multiset() == candidates(elos, agent as int).to_multiset(),
        forall|i: int, j: int|
            0 <= i < j < elos.len() && i != agent && j != agent ==> distance(elos, agent as int, i)
                != distance(elos, agent as int, j),
    ensures
        table_of(order, agent, player_count) == table_of(
            candidates(elos, agent as int),
            agent,
            player_count,
        ),
        is_closest_table(elos, agent as int, player_count, table_of(order, agent, player_count)),
{
    let c = candidates(elos, agent as int);
    lemma_candidates(elos, agent as int);
    lemma_table_is_closest(elos, agent, player_count, order);
    assert(no_ties(c)) by {
        assert forall|i: int, j: int| 0 <= i < j < c.len() implies c[i].1 != c[j].1 by {
            let a = if i < agent {
                i
            } else {
                i + 1
            };
            let b = if j < agent {
                j
            } else {
                j + 1
            };
            assert(c[i].1 == distance(elos, agent as int, a));
            assert(c[j].1 == distance(elos, agent as int, b));
        }
    }
    lemma_table_ignores_order(c, order, agent, player_count);
}

/// The table of a hand for `agent_index`: the candidates are shuffled, so
/// that ties in distance are broken at random, and the nearest
/// `player_count - 1` are taken. Whatever the shuffle, the result is a
/// table of the nearest.
pub fn choose_table(elos: &Vec<i64>, agent_index: usize, player_count: u32) -> (r: Vec<usize>)
    requires
        agent_index < elos@.len(),
        player_count >= 1,
    ensures
        is_closest_table(elos@, agent_index as int, player_count as int, r@),
{
    // Sort the remaining players by their elo difference to the chosen player
    let mut elo_differences = elo_differences(elos, agent_index);
    // Randomize elo differences to avoid always choosing the same players
    shuffle(&mut elo_differences);
    let roster: usize = elos.len();
    proof {
        lemma_table_is_closest(elos@, agent_index, player_count as int, elo_differences@);
    }
    table_from_order(&elo_differences, agent_index, player_count)
}

/// Whether `indexes` seats every player of a table of `player_count`
/// once: a permutation of the table's positions.
pub open spec fn is_seating(indexes: Seq<usize>, player_count: int) -> bool {
    &&& indexes.len() == player_count
    &&& forall|p: int| 0 <= p < indexes.len() ==> (#[trigger] indexes[p]) < player_count
    &&& forall|p: int, q: int| 0 <= p < q < indexes.len() ==> indexes[p] != indexes[q]
}

/// The table positions that are not seated yet once the first `p` seats
/// are taken, in ascending order.
pub open spec fn unseated(player_count: int, draws: Seq<u64>, p: int) -> Seq<usize>
    decreases p,
{
    if p <= 0 {
        Seq::new(player_count as nat, |position: int| position as usize)
    } else {
        unseated(player_count, draws, p - 1).remove(draws[p - 1] as int)
    }
}

/// The seating that the numbers drawn give: seat `p` goes to the table
/// position that is number `draws[p]`, counted from zero, among those not
/// seated before it.
pub open spec fn seating_of(player_count: int, draws: Seq<u64>) -> Seq<usize> {
    Seq::new(
        player_count as nat,
        |p: int| unseated(player_count, draws, p)[draws[p] as int],
    )
}

/// Whether `draws` holds one number per seat, each below the number of
/// positions that are left when its seat is taken.
pub open spec fn are_draws(player_count: int, draws: Seq<u64>) -> bool {
    &&& draws.len() == player_count
    &&& forall|p: int| 0 <= p < draws.len() ==> #[trigger] draws[p] < player_count - p
}

/// The seating that the numbers drawn give. It seats every position once.
pub fn seating_from_draws(player_count: u32, draws: &Vec<u64>) -> (indexes: Vec<usize>)
    requires
        are_draws(player_count as int, draws@),
    ensures
        indexes@ == seating_of(player_count as int, draws@),
        is_seating(indexes@, player_count as int),
{
    let n: usize = player_count as usize;
    let mut indexes_sorted: Vec<usize> = Vec::new();
    let mut position: usize = 0;
    while position < n
        invariant
            position <= n,
            indexes_sorted@.len() == position,
            forall|p: int| 0 <= p < position ==> #[trigger] indexes_sorted@[p] == p,
        decreases n - position,
    {
        indexes_sorted.push(position);
        position += 1;
    }
    assert(indexes_sorted@ =~= unseated(player_count as int, draws@, 0));
    let mut indexes: Vec<usize> = Vec::new();
    let mut seat: usize = 0;
    while seat < n
        invariant
            seat <= n,
            n == player_count,
            are_draws(player_count as int, draws@),
            indexes@.len() == seat,
            indexes_sorted@.len() == n - seat,
            indexes_sorted@ == unseated(player_count as int, draws@, seat as int),
            forall|p: int|
                0 <= p < indexes@.len() ==> #[trigger] indexes@[p] == seating_of(
                    player_count as int,
                    draws@,
                )[p],
            forall|p: int| 0 <= p < indexes@.len() ==> (#[trigger] indexes@[p]) < n,
            forall|p: int| 0 <= p < indexes_sorted@.len() ==> (#[trigger] indexes_sorted@[p]) < n,
            forall|p: int, q: int| 0 <= p < q < indexes@.len() ==> indexes@[p] != indexes@[q],
            forall|p: int, q: int|
                0 <= p < q < indexes_sorted@.len() ==> indexes_sorted@[p] < indexes_sorted@[q],
            forall|p: int, q: int|
                0 <= p < indexes@.len() && 0 <= q < indexes_sorted@.len() ==> indexes@[p]
                    != indexes_sorted@[q],
        decreases n - seat,
    {
        assert(draws@[seat as int] < player_count - seat);
        let vec_index: usize = draws[seat] as usize;
        let agent_index: usize = indexes_sorted[vec_index];
        indexes.push(agent_index);
        indexes_sorted.remove(vec_index);
        seat += 1;
    }
    assert(indexes@ =~= seating_of(player_count as int, draws@));
    indexes
}

/// Draws the seating of a hand: seat `p` goes to the table position
/// `indexes[p]`, drawn uniformly from the positions not yet seated. The
/// result is the seating that the numbers drawn give.
pub fn seat_players(player_count: u32) -> (indexes: Vec<usize>)
    ensures
        is_seating(indexes@, player_count as int),
        exists|draws: Seq<u64>|
            are_draws(player_count as int, draws) && indexes@ == #[trigger] seating_of(
                player_count as int,
                draws,
            ),
{
    let mut draws: Vec<u64> = Vec::new();
    let mut seat: u32 = 0;
    while seat < player_count
        invariant
            seat <= player_count,
            draws@.len() == seat,
            forall|p: int| 0 <= p < draws@.len() ==> #[trigger] draws@[p] < player_count - p,
        decreases player_count - seat,
    {
        draws.push(random_below((player_count - seat) as u64));
        seat += 1;
    }
    seating_from_draws(player_count, &draws)
}

/// Maps the rewards of the seats back to the positions of the table:
/// position `indexes[p]` gets what seat `p` won.
pub fn map_rewards(rewards: &Vec<i64>, indexes: &Vec<usize>) -> (total_won: Vec<i64>)
    requires
        is_seating(indexes@, rewards@.len() as int),
    ensures
        total_won@.len() == rewards@.len(),
        forall|p: int| 0 <= p < rewards@.len() ==> total_won@[indexes@[p] as int] == rewards@[p],
{
    let n: usize = rewards.len();
    let mut total_won: Vec<i64> = Vec::new();
    let mut position: usize = 0;
    while position < n
        invariant
            position <= n,
            total_won@.len() == position,
            forall|p: int| 0 <= p < position ==> #[trigger] total_won@[p] == 0,
        decreases n - position,
    {
        total_won.push(0);
        position += 1;
    }
    let mut p: usize = 0;
    while p < n
        invariant
            p <= n,
            n == rewards@.len(),
            is_seating(indexes@, n as int),
            total_won@.len() == n,
            forall|q: int| 0 <= q < p ==> total_won@[indexes@[q] as int] == rewards@[q],
            forall|q: int| p <= q < n ==> total_won@[indexes@[q] as int] == 0,
        decreases n - p,
    {
        let position: usize = indexes[p];
        let won: i64 = total_won[position] + rewards[p];
        total_won.set(position, won);
        p += 1;
    }
    total_won
}

} // verus!
