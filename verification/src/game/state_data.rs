//! The per-hand ledger: bets, stacks, who is still in, whose turn it is.

use vstd::prelude::*;
use crate::game::action::{Action, ActionType};

verus! {

/// The sum of the first `k` entries of `s`.
pub open spec fn sum_upto(s: Seq<int>, k: int) -> int
    decreases k,
{
    if k <= 0 {
        0
    } else {
        sum_upto(s, k - 1) + s[k - 1]
    }
}

/// The largest of the first `k` entries of `s`, and zero if none is positive.
pub open spec fn max_upto(s: Seq<int>, k: int) -> int
    decreases k,
{
    if k <= 0 {
        0
    } else if s[k - 1] > max_upto(s, k - 1) {
        s[k - 1]
    } else {
        max_upto(s, k - 1)
    }
}

/// How many of the first `k` entries of `s` are set.
pub open spec fn count_upto(s: Seq<bool>, k: int) -> int
    decreases k,
{
    if k <= 0 {
        0
    } else if s[k - 1] {
        count_upto(s, k - 1) + 1
    } else {
        count_upto(s, k - 1)
    }
}

/// The length of the run of actions on `street` that ends the first `m`
/// entries of `history`.
pub open spec fn street_run(history: Seq<Action>, street: int, m: int) -> int
    decreases m,
{
    if m <= 0 || history[m - 1].street != street {
        0
    } else {
        street_run(history, street, m - 1) + 1
    }
}

/// Whether that run holds an all-in.
pub open spec fn street_run_has_all_in(history: Seq<Action>, street: int, m: int) -> bool
    decreases m,
{
    if m <= 0 || history[m - 1].street != street {
        false
    } else {
        history[m - 1].action_type == ActionType::AllIn || street_run_has_all_in(
            history,
            street,
            m - 1,
        )
    }
}

/// The mathematical value of a `StateData`.
#[verifier::ext_equal]
pub ghost struct Ledger {
    pub player_count: int,
    pub bets: Seq<int>,
    pub stacks: Seq<int>,
    pub is_player_in: Seq<bool>,
    pub players_in_hand: int,
    pub history: Seq<Action>,
    pub last_actions: Seq<Option<Action>>,
    pub player_to_move: int,
    pub last_player: int,
    pub street: int,
    pub min_raise: int,
}

impl Ledger {
    /// All chips wagered in the hand so far.
    pub open spec fn pot(self) -> int {
        sum_upto(self.bets, self.player_count)
    }

    pub open spec fn biggest_bet(self) -> int {
        max_upto(self.bets, self.player_count)
    }

    /// Chips on the table and behind, over all seats.
    pub open spec fn total_chips(self) -> int {
        sum_upto(self.bets, self.player_count) + sum_upto(self.stacks, self.player_count)
    }

    /// What `seat` started the hand with.
    pub open spec fn chips_of(self, seat: int) -> int {
        self.bets[seat] + self.stacks[seat]
    }

    pub open spec fn is_seat(self, seat: int) -> bool {
        0 <= seat < self.player_count
    }

    /// A seat can act while it has not folded and has chips behind.
    pub open spec fn can_act(self, seat: int) -> bool {
        self.is_seat(seat) && self.is_player_in[seat] && self.stacks[seat] > 0
    }

    pub open spec fn active_players(self) -> int {
        count_upto(self.is_player_in, self.player_count)
    }

    pub open spec fn to_move_bet(self) -> int {
        self.bets[self.player_to_move]
    }

    pub open spec fn to_move_stack(self) -> int {
        self.stacks[self.player_to_move]
    }

    /// What the seat to move must add to match the biggest bet.
    pub open spec fn to_call(self) -> int {
        self.biggest_bet() - self.to_move_bet()
    }

    /// The seat after `seat` in turn order; the seat after `-1` is seat 0.
    pub open spec fn succ(self, seat: int) -> int {
        if seat + 1 >= self.player_count {
            0
        } else {
            seat + 1
        }
    }

    /// The number of steps in turn order from `from` to `to`.
    pub open spec fn gap(self, from: int, to: int) -> int {
        if to >= from {
            to - from
        } else {
            to - from + self.player_count
        }
    }

    /// The first seat that can act among `seat`, the seat after it, and so
    /// on up to the seat before `stop`; `-1` if there is none.
    pub open spec fn first_actor(self, seat: int, stop: int) -> int
        decreases self.gap(seat, stop),
        when self.is_seat(seat) && self.is_seat(stop)
    {
        if seat == stop {
            -1
        } else if self.can_act(seat) {
            seat
        } else {
            self.first_actor(self.succ(seat), stop)
        }
    }

    /// The last seat that can act among `seat` up to the seat before `stop`,
    /// and `found` if there is none.
    pub open spec fn last_actor(self, seat: int, stop: int, found: int) -> int
        decreases self.gap(seat, stop),
        when self.is_seat(seat) && self.is_seat(stop)
    {
        if seat == stop {
            found
        } else {
            self.last_actor(
                self.succ(seat),
                stop,
                if self.can_act(seat) {
                    seat
                } else {
                    found
                },
            )
        }
    }

    /// Who acts after the seat to move when `last_player` closes the round:
    /// the first seat that can act after the seat to move, up to and
    /// including `last_player`; `-1` when the round is closed.
    pub open spec fn next_player(self, last_player: int) -> int {
        self.first_actor(self.succ(self.player_to_move), self.succ(last_player))
    }

    /// Who closes the round after `raiser` has raised: the last seat that
    /// can act before the turn comes back to `raiser`; `-1` if no other seat
    /// can act.
    pub open spec fn last_player_before(self, raiser: int) -> int {
        self.last_actor(self.succ(raiser), raiser, -1)
    }

    /// How many of the first `k` seats can act.
    pub open spec fn actors_upto(self, k: int) -> int
        decreases k,
    {
        if k <= 0 {
            0
        } else if self.can_act(k - 1) {
            self.actors_upto(k - 1) + 1
        } else {
            self.actors_upto(k - 1)
        }
    }

    /// The number of seats that can act.
    pub open spec fn actors(self) -> int {
        self.actors_upto(self.player_count)
    }

    /// The lowest seat from `seat` on that can act; `-1` if there is none.
    pub open spec fn lowest_actor_from(self, seat: int) -> int
        decreases self.player_count - seat,
    {
        if seat >= self.player_count || seat < 0 {
            -1
        } else if self.can_act(seat) {
            seat
        } else {
            self.lowest_actor_from(seat + 1)
        }
    }

    /// The highest of the first `k` seats that can act; `-1` if there is
    /// none.
    pub open spec fn highest_actor_upto(self, k: int) -> int
        decreases k,
    {
        if k <= 0 {
            -1
        } else if self.can_act(k - 1) {
            k - 1
        } else {
            self.highest_actor_upto(k - 1)
        }
    }

    /// The number of actions taken on the current street.
    pub open spec fn street_actions(self) -> int {
        street_run(self.history, self.street, self.history.len() as int)
    }

    /// Whether a seat has gone all-in on the current street.
    pub open spec fn street_has_all_in(self) -> bool {
        street_run_has_all_in(self.history, self.street, self.history.len() as int)
    }

    /// Raises and all-ins stop once more than `3 * seats - seats` actions
    /// were taken on the street, unless one of them was an all-in.
    pub open spec fn cap_reached(self) -> bool {
        !self.street_has_all_in() && self.street_actions() > 3 * self.player_count
            - self.player_count
    }

    /// The structural invariant of a ledger.
    pub open spec fn wf(self) -> bool {
        &&& 2 <= self.player_count <= 0x3fff_ffff
        &&& self.bets.len() == self.player_count
        &&& self.stacks.len() == self.player_count
        &&& self.is_player_in.len() == self.player_count
        &&& self.last_actions.len() == self.player_count
        &&& forall|i: int| 0 <= i < self.player_count ==> 0 <= #[trigger] self.bets[i]
        &&& forall|i: int| 0 <= i < self.player_count ==> 0 <= #[trigger] self.stacks[i]
        &&& self.total_chips() <= u32::MAX
        &&& self.players_in_hand == self.active_players()
        &&& -1 <= self.player_to_move < self.player_count
        &&& -1 <= self.last_player < self.player_count
        &&& 0 <= self.street <= 4
        &&& 0 <= self.min_raise <= u32::MAX
    }

    /// A ledger at which a seat is to act: a betting round is under way and
    /// the seat to move has not folded.
    pub open spec fn awaits_action(self) -> bool {
        &&& self.wf()
        &&& self.is_seat(self.player_to_move)
        &&& self.is_player_in[self.player_to_move]
        &&& 1 <= self.street <= 4
    }
}

/// The ledger of one hand. A child state gets a changed copy; the ledger of
/// a state is never changed once a child was derived from it.
#[derive(Debug, PartialEq, Eq)]
pub struct StateData {
    pub player_count: u32,
    pub bets: Vec<u32>,
    pub stacks: Vec<u32>,
    pub is_player_in: Vec<bool>,
    pub players_in_hand: u32,
    pub history: Vec<Action>,
    pub last_actions: Vec<Option<Action>>,
    pub player_to_move: i32,
    pub last_player: i32,
    pub street: u8,
    pub min_raise: u32,
}

impl View for StateData {
    type V = Ledger;

    open spec fn view(&self) -> Ledger {
        Ledger {
            player_count: self.player_count as int,
            bets: self.bets@.map_values(|b: u32| b as int),
            stacks: self.stacks@.map_values(|s: u32| s as int),
            is_player_in: self.is_player_in@,
            players_in_hand: self.players_in_hand as int,
            history: self.history@,
            last_actions: self.last_actions@,
            player_to_move: self.player_to_move as int,
            last_player: self.last_player as int,
            street: self.street as int,
            min_raise: self.min_raise as int,
        }
    }
}

/// Partial sums of sequences without negative entries grow with the bound.
pub proof fn lemma_sum_upto_monotonic(s: Seq<int>, j: int, k: int)
    requires
        0 <= j <= k <= s.len(),
        forall|i: int| 0 <= i < s.len() ==> 0 <= #[trigger] s[i],
    ensures
        0 <= sum_upto(s, j) <= sum_upto(s, k),
    decreases k,
{
    if j < k {
        lemma_sum_upto_monotonic(s, j, k - 1);
    } else if j > 0 {
        lemma_sum_upto_monotonic(s, j - 1, k - 1);
    }
}

/// No entry exceeds the sum of a sequence without negative entries.
pub proof fn lemma_entry_le_sum(s: Seq<int>, i: int, k: int)
    requires
        0 <= i < k <= s.len(),
        forall|j: int| 0 <= j < s.len() ==> 0 <= #[trigger] s[j],
    ensures
        s[i] <= sum_upto(s, k),
    decreases k,
{
    if i == k - 1 {
        lemma_sum_upto_monotonic(s, 0, k - 1);
    } else {
        lemma_entry_le_sum(s, i, k - 1);
    }
}

/// The largest entry is an upper bound, and lies between zero and the sum.
pub proof fn lemma_max_upto_bounds(s: Seq<int>, k: int)
    requires
        0 <= k <= s.len(),
        forall|j: int| 0 <= j < s.len() ==> 0 <= #[trigger] s[j],
    ensures
        0 <= max_upto(s, k) <= sum_upto(s, k),
        forall|i: int| 0 <= i < k ==> #[trigger] s[i] <= max_upto(s, k),
        k > 0 ==> exists|i: int| 0 <= i < k && #[trigger] s[i] == max_upto(s, k),
    decreases k,
{
    if k > 0 {
        lemma_max_upto_bounds(s, k - 1);
        if k - 1 > 0 {
            let w = choose|i: int| 0 <= i < k - 1 && #[trigger] s[i] == max_upto(s, k - 1);
            assert(0 <= w < k);
        }
        assert(s[k - 1] == s[k - 1]);
    }
}

/// A sequence with a set entry counts at least one.
pub proof fn lemma_count_upto_positive(s: Seq<bool>, i: int, k: int)
    requires
        0 <= i < k <= s.len(),
        s[i],
    ensures
        1 <= count_upto(s, k) <= k,
    decreases k,
{
    lemma_count_upto_bounds(s, k - 1);
    if i < k - 1 {
        lemma_count_upto_positive(s, i, k - 1);
    }
}

pub proof fn lemma_count_upto_bounds(s: Seq<bool>, k: int)
    requires
        0 <= k <= s.len(),
    ensures
        0 <= count_upto(s, k) <= k,
    decreases k,
{
    if k > 0 {
        lemma_count_upto_bounds(s, k - 1);
    }
}

/// Clearing a set entry lowers the count by one.
pub proof fn lemma_count_upto_clear(s: Seq<bool>, i: int, k: int)
    requires
        0 <= i < s.len(),
        0 <= k <= s.len(),
        s[i],
    ensures
        count_upto(s.update(i, false), k) == count_upto(s, k) - if i < k {
            1int
        } else {
            0int
        },
    decreases k,
{
    if k > 0 {
        lemma_count_upto_clear(s, i, k - 1);
    }
}

/// Changing one entry changes the sum by the difference.
pub proof fn lemma_sum_upto_update(s: Seq<int>, i: int, v: int, k: int)
    requires
        0 <= i < s.len(),
        0 <= k <= s.len(),
    ensures
        sum_upto(s.update(i, v), k) == sum_upto(s, k) + if i < k {
            v - s[i]
        } else {
            0int
        },
    decreases k,
{
    if k > 0 {
        lemma_sum_upto_update(s, i, v, k - 1);
    }
}

/// A count of at least one has a set entry behind it.
pub proof fn lemma_count_upto_witness(s: Seq<bool>, k: int) -> (i: int)
    requires
        0 <= k <= s.len(),
        count_upto(s, k) >= 1,
    ensures
        0 <= i < k,
        s[i],
    decreases k,
{
    if s[k - 1] {
        k - 1
    } else {
        lemma_count_upto_witness(s, k - 1)
    }
}

impl Ledger {
    /// Whether `x` is among the seats from `seat` up to the seat before
    /// `stop`, in turn order.
    pub open spec fn in_turn_range(self, seat: int, stop: int, x: int) -> bool {
        self.is_seat(x) && self.gap(seat, x) < self.gap(seat, stop)
    }

    /// `first_actor` finds a seat that can act, the nearest of its range, and
    /// finds none only where no seat of the range can act.
    pub proof fn lemma_first_actor(self, seat: int, stop: int)
        requires
            self.is_seat(seat),
            self.is_seat(stop),
        ensures
            ({
                let r = self.first_actor(seat, stop);
                &&& r == -1 ==> forall|x: int|
                    self.in_turn_range(seat, stop, x) ==> !#[trigger] self.can_act(x)
                &&& r != -1 ==> self.can_act(r) && self.in_turn_range(seat, stop, r) && forall|
                    x: int,
                |
                    self.is_seat(x) && self.gap(seat, x) < self.gap(seat, r) ==> !#[trigger] self.can_act(
                        x,
                    )
            }),
        decreases self.gap(seat, stop),
    {
        if seat != stop && !self.can_act(seat) {
            self.lemma_first_actor(self.succ(seat), stop);
        }
    }

    /// `last_actor` finds the farthest seat of its range that can act, and
    /// hands back `found` only where no seat of the range can act.
    pub proof fn lemma_last_actor(self, seat: int, stop: int, found: int)
        requires
            self.is_seat(seat),
            self.is_seat(stop),
        ensures
            ({
                let r = self.last_actor(seat, stop, found);
                &&& r == found || (self.in_turn_range(seat, stop, r) && self.can_act(r))
                &&& forall|x: int|
                    self.in_turn_range(seat, stop, x) && #[trigger] self.can_act(x)
                        ==> self.in_turn_range(seat, stop, r) && self.can_act(r) && self.gap(seat, x)
                        <= self.gap(seat, r)
            }),
        decreases self.gap(seat, stop),
    {
        if seat != stop {
            let next = if self.can_act(seat) {
                seat
            } else {
                found
            };
            self.lemma_last_actor(self.succ(seat), stop, next);
        }
    }

    /// The seat that `next_player` names can act and is not the seat to
    /// move, and fewer seats remain to be asked after it.
    pub proof fn lemma_next_player(self, last_player: int)
        requires
            self.is_seat(self.player_to_move),
            -1 <= last_player < self.player_count,
        ensures
            ({
                let r = self.next_player(last_player);
                &&& -1 <= r < self.player_count
                &&& r != -1 ==> self.can_act(r) && r != self.player_to_move && self.gap(
                    self.succ(r),
                    self.succ(last_player),
                ) < self.gap(self.succ(self.player_to_move), self.succ(last_player))
                &&& r == -1 ==> forall|x: int|
                    self.in_turn_range(self.succ(self.player_to_move), self.succ(last_player), x)
                        ==> !#[trigger] self.can_act(x)
            }),
    {
        self.lemma_first_actor(self.succ(self.player_to_move), self.succ(last_player));
    }

    /// The seat that `last_player_before` names can act and is not the
    /// raiser, the turn passes to some seat when it closes the round, and it
    /// is `-1` only where no seat but the raiser can act.
    pub proof fn lemma_last_player_before(self, raiser: int)
        requires
            self.is_seat(raiser),
            raiser == self.player_to_move,
        ensures
            ({
                let r = self.last_player_before(raiser);
                &&& -1 <= r < self.player_count
                &&& r != -1 ==> self.can_act(r) && r != raiser && self.next_player(r) != -1
                &&& r == -1 ==> forall|x: int| x != raiser ==> !#[trigger] self.can_act(x)
            }),
    {
        let r = self.last_player_before(raiser);
        self.lemma_last_actor(self.succ(raiser), raiser, -1);
        assert forall|x: int| x != raiser && #[trigger] self.can_act(x) implies r != -1 by {
            assert(self.in_turn_range(self.succ(raiser), raiser, x));
        }
        if r != -1 {
            self.lemma_first_actor(self.succ(raiser), self.succ(r));
            assert(self.in_turn_range(self.succ(raiser), self.succ(r), r));
        }
    }

    /// `lowest_actor_from` finds a seat that can act, and none only where no
    /// seat from `seat` on can act.
    pub proof fn lemma_lowest_actor(self, seat: int)
        requires
            0 <= seat <= self.player_count,
        ensures
            ({
                let r = self.lowest_actor_from(seat);
                &&& r == -1 ==> forall|x: int| seat <= x ==> !#[trigger] self.can_act(x)
                &&& r != -1 ==> seat <= r && self.can_act(r)
            }),
        decreases self.player_count - seat,
    {
        if seat < self.player_count && !self.can_act(seat) {
            self.lemma_lowest_actor(seat + 1);
        }
    }

    /// `highest_actor_upto` finds a seat that can act, and none only where
    /// none of the first `k` seats can act.
    pub proof fn lemma_highest_actor(self, k: int)
        requires
            0 <= k <= self.player_count,
        ensures
            ({
                let r = self.highest_actor_upto(k);
                &&& r == -1 ==> forall|x: int| x < k ==> !#[trigger] self.can_act(x)
                &&& r != -1 ==> r < k && self.can_act(r)
            }),
        decreases k,
    {
        if k > 0 && !self.can_act(k - 1) {
            self.lemma_highest_actor(k - 1);
        }
    }

    /// Where the count of seats that can act is positive, one of them can.
    pub proof fn lemma_actors_witness(self, k: int) -> (x: int)
        requires
            0 <= k <= self.player_count,
            self.actors_upto(k) >= 1,
        ensures
            0 <= x < k,
            self.can_act(x),
        decreases k,
    {
        if self.can_act(k - 1) {
            k - 1
        } else {
            self.lemma_actors_witness(k - 1)
        }
    }

    /// In a well-formed ledger every amount fits the machine's chip type.
    pub proof fn lemma_amounts_fit(self, seat: int)
        requires
            self.wf(),
            self.is_seat(seat),
        ensures
            0 <= self.bets[seat] <= self.biggest_bet() <= self.pot() <= u32::MAX,
            0 <= self.stacks[seat],
            self.chips_of(seat) <= self.total_chips(),
    {
        let n = self.player_count;
        lemma_max_upto_bounds(self.bets, n);
        lemma_entry_le_sum(self.bets, seat, n);
        lemma_entry_le_sum(self.stacks, seat, n);
        lemma_sum_upto_monotonic(self.stacks, 0, n);
    }
}

impl Clone for StateData {
    fn clone(&self) -> (r: StateData)
        ensures
            r@ == self@,
            r.bets@ == self.bets@,
            r.stacks@ == self.stacks@,
    {
        let r = StateData {
            player_count: self.player_count,
            bets: self.bets.clone(),
            stacks: self.stacks.clone(),
            is_player_in: self.is_player_in.clone(),
            players_in_hand: self.players_in_hand,
            history: self.history.clone(),
            last_actions: self.last_actions.clone(),
            player_to_move: self.player_to_move,
            last_player: self.last_player,
            street: self.street,
            min_raise: self.min_raise,
        };
        assert(r.bets@ =~= self.bets@);
        assert(r.stacks@ =~= self.stacks@);
        assert(r.is_player_in@ =~= self.is_player_in@);
        assert(r.history@ =~= self.history@);
        assert(r.last_actions@ =~= self.last_actions@);
        r
    }
}

impl StateData {
    pub fn get_player_to_move(&self) -> (r: i32)
        ensures
            r == self@.player_to_move,
    {
        self.player_to_move
    }

    pub fn get_to_move_bet(&self) -> (r: u32)
        requires
            self@.wf(),
            self@.is_seat(self@.player_to_move),
        ensures
            r == self@.to_move_bet(),
    {
        self.bets[self.player_to_move as usize]
    }

    pub fn get_to_move_stack(&self) -> (r: u32)
        requires
            self@.wf(),
            self@.is_seat(self@.player_to_move),
        ensures
            r == self@.to_move_stack(),
    {
        self.stacks[self.player_to_move as usize]
    }

    /// The pot and the biggest bet.
    pub fn pot_and_biggest_bet(&self) -> (r: (u32, u32))
        requires
            self@.wf(),
        ensures
            r.0 == self@.pot(),
            r.1 == self@.biggest_bet(),
    {
        let mut pot: u32 = 0;
        let mut biggest_bet: u32 = 0;
        let mut j: usize = 0;
        while j < self.bets.len()
            invariant
                self@.wf(),
                j <= self.bets@.len(),
                pot == sum_upto(self@.bets, j as int),
                biggest_bet == max_upto(self@.bets, j as int),
            decreases self.bets@.len() - j,
        {
            proof {
                lemma_sum_upto_monotonic(self@.bets, j + 1, self@.player_count);
                lemma_sum_upto_monotonic(self@.stacks, 0, self@.player_count);
            }
            pot += self.bets[j];
            if self.bets[j] > biggest_bet {
                biggest_bet = self.bets[j];
            }
            j += 1;
        }
        (pot, biggest_bet)
    }

    /// How many seats have not folded.
    pub fn get_active_players(is_player_in: &Vec<bool>) -> (r: usize)
        ensures
            r == count_upto(is_player_in@, is_player_in@.len() as int),
    {
        let mut count: usize = 0;
        let mut j: usize = 0;
        while j < is_player_in.len()
            invariant
                j <= is_player_in@.len(),
                count <= j,
                count == count_upto(is_player_in@, j as int),
            decreases is_player_in@.len() - j,
        {
            if is_player_in[j] {
                count += 1;
            }
            j += 1;
        }
        count
    }

    /// Whether `seat` has not folded and has chips behind.
    pub fn can_act(&self, seat: usize) -> (r: bool)
        requires
            self@.wf(),
        ensures
            r == self@.can_act(seat as int),
    {
        seat < self.is_player_in.len() && self.is_player_in[seat] && self.stacks[seat] > 0
    }

    /// The seat that acts next when `last_player` closes the round, or `-1`.
    pub fn get_next_player(&self, last_player: i32) -> (r: i32)
        requires
            self@.wf(),
            self@.is_seat(self@.player_to_move),
            -1 <= last_player < self.player_count,
        ensures
            r == self@.next_player(last_player as int),
            -1 <= r < self.player_count,
    {
        let n: usize = self.player_count as usize;
        let stop: usize = if last_player + 1 >= self.player_count as i32 {
            0
        } else {
            (last_player + 1) as usize
        };
        let mover: usize = self.player_to_move as usize;
        let mut seat: usize = if mover + 1 >= n {
            0
        } else {
            mover + 1
        };
        while seat != stop
            invariant
                self@.wf(),
                n == self.player_count,
                seat < n,
                stop < n,
                self@.next_player(last_player as int) == self@.first_actor(seat as int, stop as int),
            decreases self@.gap(seat as int, stop as int),
        {
            if self.can_act(seat) {
                return seat as i32;
            }
            seat = if seat + 1 >= n {
                0
            } else {
                seat + 1
            };
        }
        -1
    }

    /// The seat that closes the round after `raiser` has raised, or `-1`.
    pub fn get_last_player(&self, raiser: i32) -> (r: i32)
        requires
            self@.wf(),
            self@.is_seat(raiser as int),
        ensures
            r == self@.last_player_before(raiser as int),
            -1 <= r < self.player_count,
    {
        let n: usize = self.player_count as usize;
        let stop: usize = raiser as usize;
        let mut seat: usize = if stop + 1 >= n {
            0
        } else {
            stop + 1
        };
        let mut found: i32 = -1;
        while seat != stop
            invariant
                self@.wf(),
                n == self.player_count,
                seat < n,
                stop < n,
                -1 <= found < n,
                self@.last_player_before(raiser as int) == self@.last_actor(
                    seat as int,
                    stop as int,
                    found as int,
                ),
            decreases self@.gap(seat as int, stop as int),
        {
            if self.can_act(seat) {
                found = seat as i32;
            }
            seat = if seat + 1 >= n {
                0
            } else {
                seat + 1
            };
        }
        found
    }

    /// Counts the actions taken on the current street and tells whether one
    /// of them was an all-in.
    pub fn street_actions(&self) -> (r: (usize, bool))
        ensures
            r.0 == self@.street_actions(),
            r.1 == self@.street_has_all_in(),
    {
        let mut count: usize = 0;
        let mut has_all_in = false;
        let mut m: usize = self.history.len();
        while m > 0 && self.history[m - 1].street == self.street
            invariant
                m <= self.history@.len() <= usize::MAX,
                count + m <= self.history@.len(),
                self@.street_actions() == count + street_run(
                    self@.history,
                    self@.street,
                    m as int,
                ),
                self@.street_has_all_in() == (has_all_in || street_run_has_all_in(
                    self@.history,
                    self@.street,
                    m as int,
                )),
            decreases m,
        {
            count += 1;
            if self.history[m - 1].action_type == ActionType::AllIn {
                has_all_in = true;
            }
            m -= 1;
        }
        (count, has_all_in)
    }

    /// How many seats can act.
    pub fn count_actors(&self) -> (r: usize)
        requires
            self@.wf(),
        ensures
            r == self@.actors(),
    {
        let n: usize = self.player_count as usize;
        let mut count: usize = 0;
        let mut seat: usize = 0;
        while seat < n
            invariant
                self@.wf(),
                n == self.player_count,
                seat <= n,
                count <= seat,
                count == self@.actors_upto(seat as int),
            decreases n - seat,
        {
            if self.can_act(seat) {
                count += 1;
            }
            seat += 1;
        }
        count
    }

    /// The lowest seat that can act, or `-1`.
    pub fn lowest_actor(&self) -> (r: i32)
        requires
            self@.wf(),
        ensures
            r == self@.lowest_actor_from(0),
    {
        let n: usize = self.player_count as usize;
        let mut seat: usize = 0;
        while seat < n
            invariant
                self@.wf(),
                n == self.player_count,
                seat <= n,
                self@.lowest_actor_from(0) == self@.lowest_actor_from(seat as int),
            decreases n - seat,
        {
            if self.can_act(seat) {
                return seat as i32;
            }
            seat += 1;
        }
        -1
    }

    /// The highest seat that can act, or `-1`.
    pub fn highest_actor(&self) -> (r: i32)
        requires
            self@.wf(),
        ensures
            r == self@.highest_actor_upto(self@.player_count),
    {
        let mut k: usize = self.player_count as usize;
        while k > 0
            invariant
                self@.wf(),
                k <= self.player_count,
                self@.highest_actor_upto(self@.player_count) == self@.highest_actor_upto(
                    k as int,
                ),
            decreases k,
        {
            if self.can_act(k - 1) {
                return (k - 1) as i32;
            }
            k -= 1;
        }
        -1
    }
}

} // verus!
