//! Actions and the immutable per-run configuration.

use vstd::prelude::*;

verus! {

/// What a seat can do when it is its turn.
#[derive(Clone, Copy, Debug, PartialEq, Eq, Structural)]
pub enum ActionType {
    Fold,
    Call,
    Raise,
    AllIn,
}

/// One recorded action. `raise_index` is the slot of the raise ladder that
/// was used, and `-1` for every action that is not a raise.
#[derive(Clone, Copy, Debug, PartialEq, Eq, Structural)]
pub struct Action {
    pub action_type: ActionType,
    pub raise_index: i8,
    pub player_index: i32,
    pub street: u8,
}

/// A raise size as the exact fraction `num / den` of the reference amount
/// (the biggest bet before the flop, the pot after it). A numerator of zero
/// disables the slot.
#[derive(Clone, Copy, Debug, PartialEq, Eq, Structural)]
pub struct Ratio {
    pub num: u32,
    pub den: u32,
}

impl Ratio {
    /// `base * num / den`, rounded to the nearest integer, halves upwards.
    pub open spec fn scaled(self, base: int) -> int {
        (2 * self.num * base + self.den) / (2 * self.den)
    }

    pub open spec fn is_disabled(self) -> bool {
        self.num == 0
    }

    pub fn new(num: u32, den: u32) -> (r: Ratio)
        ensures
            r.num == num,
            r.den == den,
    {
        Ratio { num, den }
    }

    /// The disabled slot, which never yields a legal raise.
    pub fn disabled() -> (r: Ratio)
        ensures
            r.is_disabled(),
            r.den == 1,
    {
        Ratio { num: 0, den: 1 }
    }

    /// Computes `scaled(base)` without overflow.
    pub fn apply(&self, base: u32) -> (r: u128)
        requires
            self.den > 0,
        ensures
            r == self.scaled(base as int),
    {
        let n: u128 = self.num as u128;
        let b: u128 = base as u128;
        let d: u128 = self.den as u128;
        assert(n * b <= 0xffff_ffff * 0xffff_ffff) by (nonlinear_arith)
            requires
                n <= 0xffff_ffff,
                b <= 0xffff_ffff,
        ;
        let prod: u128 = n * b;
        assert(2 * n * b == 2 * prod) by (nonlinear_arith)
            requires
                prod == n * b,
        ;
        (2 * prod + d) / (2 * d)
    }
}

/// The parameters of a run. They do not change while hands are played.
pub struct ActionConfig {
    pub player_count: u32,
    pub buy_in: u32,
    pub ante: u32,
    pub small_blind: u32,
    pub big_blind: u32,
    pub min_raise: u32,
    pub commited_to_pot_percentage: u32,
    pub preflop_raise_sizes: Vec<Ratio>,
    pub postflop_raise_sizes: Vec<Ratio>,
}

impl ActionConfig {
    /// The number of slots of a legality mask: fold, call, one per postflop
    /// raise size, all-in.
    pub open spec fn slot_count(&self) -> nat {
        3 + self.postflop_raise_sizes@.len()
    }

    /// The chips a seat must keep behind after a voluntary raise, times 100.
    pub open spec fn commitment_floor_x100(&self) -> int {
        self.commited_to_pot_percentage * self.buy_in
    }

    /// Raise ladders that a state can be expanded with: both of one length,
    /// short enough for the slot to be recorded in an action, and every
    /// size with a usable denominator.
    pub open spec fn ladders_wf(&self) -> bool {
        &&& self.preflop_raise_sizes@.len() == self.postflop_raise_sizes@.len()
        &&& self.postflop_raise_sizes@.len() <= 127
        &&& forall|i: int|
            0 <= i < self.preflop_raise_sizes@.len() ==> (#[trigger] self.preflop_raise_sizes@[i]).den
                > 0
        &&& forall|i: int|
            0 <= i < self.postflop_raise_sizes@.len() ==> (
            #[trigger] self.postflop_raise_sizes@[i]).den > 0
    }

    /// A configuration that a hand can be played under from its first
    /// ledger: at least two seats, ladders that states can be expanded
    /// with, and blinds that leave every seat chips to act with.
    pub open spec fn wf(&self) -> bool {
        &&& 2 <= self.player_count <= 0x3fff_ffff
        &&& self.player_count * self.buy_in <= u32::MAX
        &&& self.ante + self.big_blind < self.buy_in
        &&& self.small_blind <= self.big_blind
        &&& 1 <= self.min_raise
        &&& self.ladders_wf()
    }

    /// A configuration with the small blind at half the big blind, no ante,
    /// the big blind as minimum raise and no raise sizes yet.
    pub fn new(player_count: u32, buy_in: u32, big_blind: u32, commited_to_pot_percentage: u32) -> (r:
        ActionConfig)
        ensures
            r.player_count == player_count,
            r.buy_in == buy_in,
            r.ante == 0,
            r.small_blind == big_blind / 2,
            r.big_blind == big_blind,
            r.min_raise == big_blind,
            r.commited_to_pot_percentage == commited_to_pot_percentage,
            r.preflop_raise_sizes@.len() == 0,
            r.postflop_raise_sizes@.len() == 0,
    {
        ActionConfig {
            player_count,
            buy_in,
            ante: 0,
            small_blind: big_blind / 2,
            big_blind,
            min_raise: big_blind,
            commited_to_pot_percentage,
            preflop_raise_sizes: Vec::new(),
            postflop_raise_sizes: Vec::new(),
        }
    }

    /// The number of slots of a legality mask.
    pub fn action_count(&self) -> (r: usize)
        requires
            self.postflop_raise_sizes@.len() <= usize::MAX - 3,
        ensures
            r == self.slot_count(),
    {
        3 + self.postflop_raise_sizes.len()
    }

    /// Tests `ladders_wf`, for callers that build a configuration by hand.
    pub fn has_valid_ladders(&self) -> (ok: bool)
        ensures
            ok == self.ladders_wf(),
    {
        if self.preflop_raise_sizes.len() != self.postflop_raise_sizes.len()
            || self.postflop_raise_sizes.len() > 127 {
            return false;
        }
        let mut i: usize = 0;
        while i < self.preflop_raise_sizes.len()
            invariant
                i <= self.preflop_raise_sizes@.len(),
                self.preflop_raise_sizes@.len() == self.postflop_raise_sizes@.len(),
                forall|j: int| 0 <= j < i ==> (#[trigger] self.preflop_raise_sizes@[j]).den > 0,
                forall|j: int| 0 <= j < i ==> (#[trigger] self.postflop_raise_sizes@[j]).den > 0,
            decreases self.preflop_raise_sizes@.len() - i,
        {
            if self.preflop_raise_sizes[i].den == 0 || self.postflop_raise_sizes[i].den == 0 {
                return false;
            }
            i += 1;
        }
        true
    }

    /// Tests `wf`, for callers that build a configuration by hand.
    pub fn is_valid(&self) -> (ok: bool)
        ensures
            ok == self.wf(),
    {
        if self.player_count < 2 || self.player_count > 0x3fff_ffff {
            return false;
        }
        let seats: u64 = self.player_count as u64;
        let stake: u64 = self.buy_in as u64;
        assert(seats * stake <= 0x3fff_ffff * 0xffff_ffff) by (nonlinear_arith)
            requires
                seats <= 0x3fff_ffff,
                stake <= 0xffff_ffff,
        ;
        if seats * stake > u32::MAX as u64 {
            return false;
        }
        if self.ante as u64 + self.big_blind as u64 >= self.buy_in as u64 {
            return false;
        }
        if self.small_blind > self.big_blind || self.min_raise < 1 {
            return false;
        }
        self.has_valid_ladders()
    }
}

impl Clone for ActionConfig {
    fn clone(&self) -> (r: ActionConfig)
        ensures
            r.player_count == self.player_count,
            r.buy_in == self.buy_in,
            r.ante == self.ante,
            r.small_blind == self.small_blind,
            r.big_blind == self.big_blind,
            r.min_raise == self.min_raise,
            r.commited_to_pot_percentage == self.commited_to_pot_percentage,
            r.preflop_raise_sizes@ == self.preflop_raise_sizes@,
            r.postflop_raise_sizes@ == self.postflop_raise_sizes@,
            r.wf() == self.wf(),
            r.ladders_wf() == self.ladders_wf(),
    {
        let r = ActionConfig {
            player_count: self.player_count,
            buy_in: self.buy_in,
            ante: self.ante,
            small_blind: self.small_blind,
            big_blind: self.big_blind,
            min_raise: self.min_raise,
            commited_to_pot_percentage: self.commited_to_pot_percentage,
            preflop_raise_sizes: self.preflop_raise_sizes.clone(),
            postflop_raise_sizes: self.postflop_raise_sizes.clone(),
        };
        assert(r.preflop_raise_sizes@ =~= self.preflop_raise_sizes@);
        assert(r.postflop_raise_sizes@ =~= self.postflop_raise_sizes@);
        r
    }
}

} // verus!
