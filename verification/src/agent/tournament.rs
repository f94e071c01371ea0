//! The rating table of a tournament.

use vstd::prelude::*;
use crate::agent::rating::INITIAL_ELO;
use crate::game::action::ActionConfig;

verus! {

/// The mathematical value of a rating record.
pub ghost struct RatingRecord {
    pub network_file: Seq<char>,
    pub elo: int,
    pub iteration: int,
    pub hands_played: int,
    pub over_max_rating: bool,
}

/// The rating record of one policy. `elo` is in millionths of a rating
/// point.
pub struct AgentTournament {
    pub network_file: String,
    pub elo: i64,
    pub iteration: u32,
    pub hands_played: usize,
    pub over_max_rating: bool,
}

impl View for AgentTournament {
    type V = RatingRecord;

    open spec fn view(&self) -> RatingRecord {
        RatingRecord {
            network_file: self.network_file@,
            elo: self.elo as int,
            iteration: self.iteration as int,
            hands_played: self.hands_played as int,
            over_max_rating: self.over_max_rating,
        }
    }
}

/// The values of a roster of records.
pub open spec fn records_of(records: Seq<AgentTournament>) -> Seq<RatingRecord> {
    records.map_values(|r: AgentTournament| r@)
}

/// The index of the best-rated of the first `k` records of `s`, and of the
/// first of them where several are rated best.
pub open spec fn first_best(s: Seq<RatingRecord>, k: int) -> int
    decreases k,
{
    if k <= 1 {
        0
    } else if s[k - 1].elo > s[first_best(s, k - 1)].elo {
        k - 1
    } else {
        first_best(s, k - 1)
    }
}

/// `s` ranked by rating, best first; records of one rating keep the order
/// they have in `s`.
pub open spec fn ranked(s: Seq<RatingRecord>) -> Seq<RatingRecord>
    decreases s.len(),
    via ranked_decreases
{
    if s.len() == 0 {
        s
    } else {
        let best = first_best(s, s.len() as int);
        seq![s[best]] + ranked(s.remove(best))
    }
}

#[via_fn]
proof fn ranked_decreases(s: Seq<RatingRecord>) {
    if s.len() > 0 {
        lemma_first_best(s, s.len() as int);
    }
}

/// The records of `s` whose rating is not negative, in their order.
pub open spec fn survivors(s: Seq<RatingRecord>) -> Seq<RatingRecord>
    decreases s.len(),
{
    if s.len() == 0 {
        s
    } else if s.last().elo >= 0 {
        survivors(s.drop_last()).push(s.last())
    } else {
        survivors(s.drop_last())
    }
}

/// Whether the ratings of `s` never rise.
pub open spec fn descending(s: Seq<RatingRecord>) -> bool {
    forall|i: int, j: int| 0 <= i < j < s.len() ==> s[i].elo >= s[j].elo
}

pub proof fn lemma_first_best(s: Seq<RatingRecord>, k: int)
    requires
        1 <= k <= s.len(),
    ensures
        0 <= first_best(s, k) < k,
        forall|i: int| 0 <= i < k ==> (#[trigger] s[i]).elo <= s[first_best(s, k)].elo,
    decreases k,
{
    if k > 1 {
        lemma_first_best(s, k - 1);
    }
}

/// Ranking keeps the records, each as often as it was there, and puts
/// them in descending order of rating.
pub proof fn lemma_ranked(s: Seq<RatingRecord>)
    ensures
        ranked(s).len() == s.len(),
        ranked(s).to_multiset() == s.to_multiset(),
        descending(ranked(s)),
    decreases s.len(),
{
    broadcast use vstd::seq_lib::to_multiset_remove;

    if s.len() > 0 {
        let best = first_best(s, s.len() as int);
        let rest = s.remove(best);
        lemma_first_best(s, s.len() as int);
        lemma_ranked(rest);
        vstd::seq_lib::lemma_seq_union_to_multiset_commutative(seq![s[best]], ranked(rest));
        assert(ranked(rest) + seq![s[best]] =~= ranked(rest).push(s[best]));
        vstd::seq_lib::to_multiset_build(ranked(rest), s[best]);
        assert(rest.to_multiset() =~= s.to_multiset().remove(s[best]));
        vstd::seq_lib::to_multiset_contains(s, s[best]);
        assert(s.contains(s[best]));
        assert(ranked(s).to_multiset() =~= s.to_multiset());
        assert forall|i: int, j: int| 0 <= i < j < ranked(s).len() implies ranked(s)[i].elo
            >= ranked(s)[j].elo by {
            let tail = ranked(rest);
            if i == 0 {
                let e = tail[j - 1];
                assert(tail.contains(e));
                vstd::seq_lib::to_multiset_contains(tail, e);
                vstd::seq_lib::to_multiset_contains(rest, e);
                let q = choose|q: int| 0 <= q < rest.len() && rest[q] == e;
                assert(rest[q] == s[if q < best {
                    q
                } else {
                    q + 1
                }]);
            } else {
                assert(tail[i - 1].elo >= tail[j - 1].elo);
            }
        }
    }
}

/// Where every rating is non-negative, every record survives.
pub proof fn lemma_survivors_all(s: Seq<RatingRecord>)
    requires
        forall|i: int| 0 <= i < s.len() ==> (#[trigger] s[i]).elo >= 0,
    ensures
        survivors(s) == s,
    decreases s.len(),
{
    if s.len() > 0 {
        lemma_survivors_all(s.drop_last());
        assert(s.drop_last().push(s.last()) =~= s);
    }
}

/// Taking out a record with a negative rating does not change who
/// survives.
pub proof fn lemma_survivors_remove(s: Seq<RatingRecord>, i: int)
    requires
        0 <= i < s.len(),
        s[i].elo < 0,
    ensures
        survivors(s.remove(i)) == survivors(s),
    decreases s.len(),
{
    if i == s.len() - 1 {
        assert(s.remove(i) =~= s.drop_last());
    } else {
        lemma_survivors_remove(s.drop_last(), i);
        assert(s.remove(i).drop_last() =~= s.drop_last().remove(i));
        assert(s.remove(i).last() == s.last());
    }
}

/// The survivors are records of the roster, and none of them has a
/// negative rating.
pub proof fn lemma_survivors(s: Seq<RatingRecord>)
    ensures
        survivors(s).len() <= s.len(),
        forall|i: int| 0 <= i < survivors(s).len() ==> (#[trigger] survivors(s)[i]).elo >= 0,
        forall|i: int| 0 <= i < survivors(s).len() ==> s.contains(#[trigger] survivors(s)[i]),
        forall|i: int| 0 <= i < s.len() && s[i].elo >= 0 ==> survivors(s).contains(#[trigger] s[i]),
    decreases s.len(),
{
    if s.len() > 0 {
        let head = s.drop_last();
        lemma_survivors(head);
        assert forall|i: int| 0 <= i < survivors(s).len() implies s.contains(
            #[trigger] survivors(s)[i],
        ) by {
            if i < survivors(head).len() {
                let e = survivors(head)[i];
                assert(head.contains(e));
                let q = choose|q: int| 0 <= q < head.len() && head[q] == e;
                assert(s[q] == e);
            } else {
                assert(s[s.len() - 1] == survivors(s)[i]);
            }
        }
        assert forall|i: int| 0 <= i < s.len() && s[i].elo >= 0 implies survivors(s).contains(
            #[trigger] s[i],
        ) by {
            if i < s.len() - 1 {
                assert(head[i] == s[i]);
                assert(survivors(head).contains(head[i]));
                let q = choose|q: int| 0 <= q < survivors(head).len() && survivors(head)[q] == s[i];
                assert(survivors(s)[q] == s[i]);
            } else {
                assert(survivors(s)[survivors(s).len() - 1] == s[i]);
            }
        }
    }
}

/// How the hands of a run are shared out: the number of workers, the
/// number of roster entries of each worker's batch, and how often each
/// worker goes through its batch.
#[derive(Clone, Copy, Debug, PartialEq, Eq, Structural)]
pub struct Schedule {
    pub n_workers: usize,
    pub batch_size: usize,
    pub rounds: usize,
}

/// Three quarters of the processors, rounded down.
pub open spec fn workers_for(cpus: int) -> int {
    cpus * 3 / 4
}

/// The roster divided among the workers, rounded up.
pub open spec fn batch_size_for(roster: int, n_workers: int) -> int {
    (roster + n_workers - 1) / n_workers
}

/// The first roster index of the batch of `worker`.
pub open spec fn batch_start(worker: int, batch_size: int, roster: int) -> int {
    if worker * batch_size < roster {
        worker * batch_size
    } else {
        roster
    }
}

/// The roster index behind the batch of `worker`.
pub open spec fn batch_end(worker: int, batch_size: int, roster: int) -> int {
    batch_start(worker + 1, batch_size, roster)
}

/// The number of processors, by `num_cpus::get`. It depends on the machine
/// and on what the process may use of it; all that is claimed is what the
/// crate documents of every call: at least one.
#[verifier::external_body]
fn available_cpus() -> (r: usize)
    ensures
        r >= 1,
{
    num_cpus::get()
}

/// Whether `r` is the schedule of a run of `total_hands` hands over a
/// roster of `roster` entries on a machine of `cpus` processors: none where
/// there is no worker or no roster to share out, else three quarters of
/// the processors as workers, the roster divided among them, and as many
/// rounds as there are hands for every entry.
pub open spec fn is_plan(r: Option<Schedule>, cpus: int, roster: int, total_hands: int) -> bool {
    &&& r is None <==> workers_for(cpus) == 0 || roster == 0
    &&& r matches Some(schedule) ==> schedule.n_workers == workers_for(cpus) && schedule.batch_size
        == batch_size_for(roster, schedule.n_workers as int) && schedule.rounds == total_hands
        / roster
}

/// The schedule of a run of `total_hands` hands over a roster of `roster`
/// entries on a machine of `cpus` processors; `None` where there is no
/// worker or no roster to share out.
pub fn plan(cpus: usize, roster: usize, total_hands: usize) -> (r: Option<Schedule>)
    ensures
        is_plan(r, cpus as int, roster as int, total_hands as int),
{
    let n_workers: usize = cpus / 4 * 3 + cpus % 4 * 3 / 4;
    assert(n_workers == workers_for(cpus as int)) by {
        let q = cpus as int / 4;
        let m = cpus as int % 4;
        assert(cpus as int * 3 == (4 * (3 * q)) + m * 3);
        assert((4 * (3 * q) + m * 3) / 4 == 3 * q + m * 3 / 4) by (nonlinear_arith)
            requires
                0 <= m < 4,
        ;
    }
    if n_workers == 0 || roster == 0 {
        return None;
    }
    let wide: u128 = (roster as u128 + n_workers as u128 - 1) / n_workers as u128;
    assert(wide <= roster) by (nonlinear_arith)
        requires
            wide == (roster + n_workers - 1) / (n_workers as int),
            n_workers >= 1,
            roster >= 1,
    ;
    let batch_size: usize = wide as usize;
    Some(Schedule { n_workers, batch_size, rounds: total_hands / roster })
}

/// The roster indexes of the batch of `worker`: from the first to before
/// the second.
pub fn batch_range(worker: usize, batch_size: usize, roster: usize) -> (r: (usize, usize))
    ensures
        r.0 == batch_start(worker as int, batch_size as int, roster as int),
        r.1 == batch_end(worker as int, batch_size as int, roster as int),
        r.0 <= r.1 <= roster,
{
    let size: u128 = batch_size as u128;
    let first: u128 = worker as u128;
    assert(first * size <= 0xffff_ffff_ffff_ffff * 0xffff_ffff_ffff_ffff) by (nonlinear_arith)
        requires
            first <= 0xffff_ffff_ffff_ffff,
            size <= 0xffff_ffff_ffff_ffff,
    ;
    assert((first + 1) * size == first * size + size) by (nonlinear_arith);
    let start: u128 = first * size;
    let end: u128 = start + size;
    let lo: usize = if start < roster as u128 {
        start as usize
    } else {
        roster
    };
    let hi: usize = if end < roster as u128 {
        end as usize
    } else {
        roster
    };
    (lo, hi)
}

/// The batches share out the roster: every roster index lies in the batch
/// of exactly one worker.
pub proof fn lemma_batches_partition(roster: int, n_workers: int, index: int)
    requires
        n_workers >= 1,
        0 <= index < roster,
    ensures
        ({
            let size = batch_size_for(roster, n_workers);
            let worker = index / size;
            &&& size >= 1
            &&& 0 <= worker < n_workers
            &&& batch_start(worker, size, roster) <= index < batch_end(worker, size, roster)
            &&& forall|other: int|
                0 <= other && other != worker ==> !(batch_start(other, size, roster) <= index
                    < #[trigger] batch_end(other, size, roster))
        }),
{
    let size = batch_size_for(roster, n_workers);
    let worker = index / size;
    assert(size >= 1 && size * n_workers >= roster) by (nonlinear_arith)
        requires
            size == (roster + n_workers - 1) / n_workers,
            n_workers >= 1,
            roster >= 1,
    ;
    assert(0 <= worker < n_workers && worker * size <= index < (worker + 1) * size)
        by (nonlinear_arith)
        requires
            worker == index / size,
            size >= 1,
            size * n_workers >= roster,
            0 <= index < roster,
    ;
    assert forall|other: int| 0 <= other && other != worker implies !(batch_start(
        other,
        size,
        roster,
    ) <= index < #[trigger] batch_end(other, size, roster)) by {
        if other < worker {
            assert((other + 1) * size <= worker * size) by (nonlinear_arith)
                requires
                    other + 1 <= worker,
                    size >= 1,
            ;
        } else {
            assert(other * size >= (worker + 1) * size) by (nonlinear_arith)
                requires
                    other >= worker + 1,
                    size >= 1,
            ;
        }
    }
}

/// A tournament: the rating table and the configuration of the game.
pub struct Tournament {
    pub agents: Vec<AgentTournament>,
    pub player_count: u32,
    pub action_config: ActionConfig,
}

impl Tournament {
    /// The rating table as a sequence of record values, in roster order.
    pub open spec fn roster(&self) -> Seq<RatingRecord> {
        records_of(self.agents@)
    }

    pub fn new(player_count: u32, action_config: ActionConfig) -> (r: Tournament)
        ensures
            r.roster().len() == 0,
            r.player_count == player_count,
            r.action_config == action_config,
    {
        Tournament { agents: Vec::new(), player_count, action_config }
    }

    /// Registers a policy: a new record at the initial rating, with no
    /// hand played and no cap, at the end of the roster.
    pub fn add_agent(&mut self, network_file: String, iteration: u32)
        ensures
            final(self).player_count == old(self).player_count,
            final(self).action_config == old(self).action_config,
            final(self).roster() == old(self).roster().push(
                RatingRecord {
                    network_file: network_file@,
                    elo: INITIAL_ELO as int,
                    iteration: iteration as int,
                    hands_played: 0,
                    over_max_rating: false,
                },
            ),
    {
        self.agents.push(
            AgentTournament {
                network_file,
                elo: INITIAL_ELO,
                iteration,
                hands_played: 0,
                over_max_rating: false,
            },
        );
        assert(self.roster() =~= old(self).roster().push(self.agents@.last()@));
    }

    pub fn get_agent_count(&self) -> (r: usize)
        ensures
            r == self.roster().len(),
    {
        self.agents.len()
    }

    /// The ratings, in roster order.
    pub fn get_elos(&self) -> (r: Vec<i64>)
        ensures
            r@.len() == self.roster().len(),
            forall|i: int| 0 <= i < r@.len() ==> #[trigger] r@[i] == self.roster()[i].elo,
    {
        let mut r: Vec<i64> = Vec::new();
        let mut i: usize = 0;
        while i < self.agents.len()
            invariant
                i <= self.agents@.len(),
                r@.len() == i,
                forall|j: int| 0 <= j < i ==> #[trigger] r@[j] == self.roster()[j].elo,
            decreases self.agents@.len() - i,
        {
            r.push(self.agents[i].elo);
            i += 1;
        }
        r
    }

    /// Ranks the roster by rating, best first.
    pub fn sort_by_elo(&mut self)
        ensures
            final(self).player_count == old(self).player_count,
            final(self).action_config == old(self).action_config,
            final(self).roster() == ranked(old(self).roster()),
    {
        let mut sorted: Vec<AgentTournament> = Vec::new();
        while self.agents.len() > 0
            invariant
                self.player_count == old(self).player_count,
                self.action_config == old(self).action_config,
                records_of(sorted@) + ranked(self.roster()) == ranked(old(self).roster()),
            decreases self.agents@.len(),
        {
            let ghost before = self.roster();
            let mut best: usize = 0;
            let mut k: usize = 1;
            while k < self.agents.len()
                invariant
                    1 <= k <= self.agents@.len(),
                    before == self.roster(),
                    best == first_best(before, k as int),
                    best < k,
                decreases self.agents@.len() - k,
            {
                if self.agents[k].elo > self.agents[best].elo {
                    best = k;
                }
                k += 1;
            }
            let record = self.agents.remove(best);
            sorted.push(record);
            proof {
                assert(self.roster() =~= before.remove(best as int));
                assert(records_of(sorted@) =~= records_of(sorted@.drop_last()) + seq![
                    before[best as int],
                ]);
                assert(records_of(sorted@) + ranked(self.roster()) =~= records_of(
                    sorted@.drop_last(),
                ) + ranked(before));
            }
        }
        proof {
            assert(records_of(sorted@) + ranked(self.roster()) =~= records_of(sorted@));
        }
        self.agents = sorted;
    }

    /// The identities of the `cnt` best-rated policies, best first. Where
    /// the roster has more than `cnt` records it is ranked first; where it
    /// has no more, it is left as it is and every identity is returned, in
    /// roster order.
    pub fn get_best_agents(&mut self, cnt: usize) -> (r: Vec<String>)
        ensures
            final(self).player_count == old(self).player_count,
            final(self).action_config == old(self).action_config,
            final(self).roster() == if old(self).roster().len() > cnt {
                ranked(old(self).roster())
            } else {
                old(self).roster()
            },
            r@.len() == if old(self).roster().len() > cnt {
                cnt as int
            } else {
                old(self).roster().len() as int
            },
            forall|i: int|
                0 <= i < r@.len() ==> (#[trigger] r@[i])@ == final(self).roster()[i].network_file,
    {
        if self.agents.len() > cnt {
            proof {
                lemma_ranked(self.roster());
            }
            self.sort_by_elo();
        }
        let taken: usize = if self.agents.len() > cnt {
            cnt
        } else {
            self.agents.len()
        };
        let mut result: Vec<String> = Vec::new();
        let mut i: usize = 0;
        while i < taken
            invariant
                i <= taken <= self.agents@.len(),
                result@.len() == i,
                forall|j: int|
                    0 <= j < i ==> (#[trigger] result@[j])@ == self.roster()[j].network_file,
            decreases taken - i,
        {
            result.push(self.agents[i].network_file.clone());
            i += 1;
        }
        result
    }

    /// Drops every record with a negative rating.
    pub fn drop_negative(&mut self)
        ensures
            final(self).player_count == old(self).player_count,
            final(self).action_config == old(self).action_config,
            final(self).roster() == survivors(old(self).roster()),
    {
        let mut i: usize = 0;
        while i < self.agents.len()
            invariant
                self.player_count == old(self).player_count,
                self.action_config == old(self).action_config,
                i <= self.agents@.len(),
                survivors(self.roster()) == survivors(old(self).roster()),
                forall|j: int| 0 <= j < i ==> (#[trigger] self.roster()[j]).elo >= 0,
            decreases self.agents@.len() - i,
        {
            if self.agents[i].elo < 0 {
                let ghost before = self.roster();
                self.agents.remove(i);
                proof {
                    assert(self.roster() =~= before.remove(i as int));
                    lemma_survivors_remove(before, i as int);
                }
            } else {
                i += 1;
            }
        }
        proof {
            lemma_survivors_all(self.roster());
        }
    }

    /// Ends a run: drops every record with a negative rating and ranks
    /// the rest, best first.
    pub fn finish_run(&mut self)
        ensures
            final(self).player_count == old(self).player_count,
            final(self).action_config == old(self).action_config,
            final(self).roster() == ranked(survivors(old(self).roster())),
    {
        // Remove all agents with a negative ELO
        self.drop_negative();
        // Sort agents by ELO
        self.sort_by_elo();
    }

    /// Starts a run of `total_hands` hands: ranks the roster and shares it
    /// out among the workers that the machine has processors for. `None`
    /// where there is no worker or no roster to share out.
    pub fn schedule(&mut self, total_hands: usize) -> (r: Option<Schedule>)
        ensures
            final(self).player_count == old(self).player_count,
            final(self).action_config == old(self).action_config,
            final(self).roster() == ranked(old(self).roster()),
            exists|cpus: int|
                cpus >= 1 && #[trigger] is_plan(
                    r,
                    cpus,
                    old(self).roster().len() as int,
                    total_hands as int,
                ),
    {
        proof {
            lemma_ranked(self.roster());
        }
        self.sort_by_elo();
        let cpus: usize = available_cpus();
        let r = plan(cpus, self.agents.len(), total_hands);
        assert(is_plan(r, cpus as int, old(self).roster().len() as int, total_hands as int));
        r
    }
}

} // verus!
