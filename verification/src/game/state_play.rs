//! The state at which a seat acts, and the rules of what it may do.

use vstd::prelude::*;
use crate::game::action::{Action, ActionConfig, ActionType, Ratio};
use crate::game::state::{child_is, GameState, Outcome, StateType, TreeError};
use crate::game::state_chance::StateChance;
use crate::game::state_data::{lemma_count_upto_positive, Ledger, StateData};
use crate::game::state_terminal::StateTerminal;

verus! {

/// The ledger after the seat to move has acted, before the turn moves on:
/// the action is appended to the history and becomes the seat's last action.
pub open spec fn record(l: Ledger, action_type: ActionType, raise_index: int) -> Ledger {
    let action = Action {
        action_type,
        raise_index: raise_index as i8,
        player_index: l.player_to_move as i32,
        street: l.street as u8,
    };
    Ledger {
        history: l.history.push(action),
        last_actions: l.last_actions.update(l.player_to_move, Some(action)),
        ..l
    }
}

/// The ledger after the seat to move has put `amount` more chips in.
pub open spec fn commit(l: Ledger, amount: int) -> Ledger {
    Ledger {
        bets: l.bets.update(l.player_to_move, l.to_move_bet() + amount),
        stacks: l.stacks.update(l.player_to_move, l.to_move_stack() - amount),
        ..l
    }
}

/// The kind of state that follows a closed round or a passed turn.
pub open spec fn kind_after(l: Ledger, next: int) -> StateType {
    if next != -1 {
        StateType::Play
    } else if l.street != 4 {
        StateType::Chance
    } else {
        StateType::Terminal
    }
}

/// Folding is legal while a bigger bet than one's own stands.
pub open spec fn fold_legal(l: Ledger) -> bool {
    l.biggest_bet() > l.to_move_bet()
}

pub open spec fn fold_ledger(l: Ledger) -> Ledger {
    let folded = Ledger {
        is_player_in: l.is_player_in.update(l.player_to_move, false),
        players_in_hand: l.players_in_hand - 1,
        ..l
    };
    Ledger {
        player_to_move: l.next_player(l.last_player),
        ..record(folded, ActionType::Fold, -1)
    }
}

pub open spec fn fold_outcome(l: Ledger) -> Option<Outcome> {
    if fold_legal(l) {
        let after = fold_ledger(l);
        Some(
            Outcome {
                kind: if after.active_players() == 1 {
                    StateType::Terminal
                } else {
                    kind_after(l, after.player_to_move)
                },
                ledger: after,
            },
        )
    } else {
        None
    }
}

/// Calling is legal while it leaves chips behind; a call for the whole
/// stack is an all-in.
pub open spec fn call_legal(l: Ledger) -> bool {
    l.to_call() < l.to_move_stack()
}

pub open spec fn call_ledger(l: Ledger) -> Ledger {
    Ledger {
        player_to_move: l.next_player(l.last_player),
        ..record(commit(l, l.to_call()), ActionType::Call, -1)
    }
}

pub open spec fn call_outcome(l: Ledger) -> Option<Outcome> {
    if call_legal(l) {
        let after = call_ledger(l);
        Some(Outcome { kind: kind_after(l, after.player_to_move), ledger: after })
    } else {
        None
    }
}

/// The raise ladder of the current street.
pub open spec fn raise_sizes(cfg: &ActionConfig, l: Ledger) -> Seq<Ratio> {
    if l.street == 1 {
        cfg.preflop_raise_sizes@
    } else {
        cfg.postflop_raise_sizes@
    }
}

/// By how much a raise of size `ratio` tops the biggest bet: before the flop
/// the biggest bet is scaled and the raise is what exceeds it, after the
/// flop the pot is scaled.
pub open spec fn raise_amount(l: Ledger, ratio: Ratio) -> int {
    if l.street == 1 {
        ratio.scaled(l.biggest_bet()) - l.biggest_bet()
    } else {
        ratio.scaled(l.pot())
    }
}

/// The chips that the raise moves from the stack to the bet: the call and
/// the raise on top of it.
pub open spec fn raise_bet(l: Ledger, ratio: Ratio) -> int {
    l.to_call() + raise_amount(l, ratio)
}

/// A raise is legal unless its size is disabled, the street's action cap is
/// reached, it is smaller than the minimum raise, it takes the whole stack
/// (an all-in), or it leaves less behind than the commitment floor.
pub open spec fn raise_legal(cfg: &ActionConfig, l: Ledger, ratio: Ratio) -> bool {
    &&& !ratio.is_disabled()
    &&& !l.cap_reached()
    &&& raise_amount(l, ratio) >= l.min_raise
    &&& raise_bet(l, ratio) < l.to_move_stack()
    &&& 100 * (l.to_move_stack() - raise_bet(l, ratio)) >= cfg.commitment_floor_x100()
}

/// The ledger after a raise or an all-in of `amount` chips: the seat before
/// the actor now closes the round.
pub open spec fn reopen_ledger(
    l: Ledger,
    amount: int,
    action_type: ActionType,
    raise_index: int,
) -> Ledger {
    let last = l.last_player_before(l.player_to_move);
    Ledger {
        last_player: last,
        player_to_move: l.next_player(last),
        ..record(commit(l, amount), action_type, raise_index)
    }
}

pub open spec fn raise_ledger(l: Ledger, ratio: Ratio, index: int) -> Ledger {
    reopen_ledger(l, raise_bet(l, ratio), ActionType::Raise, index)
}

/// A legal raise after which no seat could act.
pub open spec fn raise_is_dead_end(cfg: &ActionConfig, l: Ledger, ratio: Ratio) -> bool {
    raise_legal(cfg, l, ratio) && l.next_player(l.last_player_before(l.player_to_move)) == -1
}

pub open spec fn raise_outcome(cfg: &ActionConfig, l: Ledger, ratio: Ratio, index: int) -> Option<
    Outcome,
> {
    if raise_legal(cfg, l, ratio) {
        Some(Outcome { kind: StateType::Play, ledger: raise_ledger(l, ratio, index) })
    } else {
        None
    }
}

/// Going all-in is legal with chips behind, under the same cap as raises.
pub open spec fn all_in_legal(l: Ledger) -> bool {
    !l.cap_reached() && l.to_move_stack() > 0
}

pub open spec fn all_in_ledger(l: Ledger) -> Ledger {
    reopen_ledger(l, l.to_move_stack(), ActionType::AllIn, -1)
}

pub open spec fn all_in_outcome(l: Ledger) -> Option<Outcome> {
    if all_in_legal(l) {
        let after = all_in_ledger(l);
        Some(Outcome { kind: kind_after(l, after.player_to_move), ledger: after })
    } else {
        None
    }
}

/// What the action of slot `slot` leads to, in the fixed order fold, call,
/// one slot per raise size, all-in; `None` where the action is illegal.
pub open spec fn slot_outcome(cfg: &ActionConfig, l: Ledger, slot: int) -> Option<Outcome> {
    if slot == 0 {
        fold_outcome(l)
    } else if slot == 1 {
        call_outcome(l)
    } else if slot < 2 + cfg.postflop_raise_sizes@.len() {
        raise_outcome(cfg, l, raise_sizes(cfg, l)[slot - 2], slot - 2)
    } else {
        all_in_outcome(l)
    }
}

/// The legality mask of a ledger.
pub open spec fn legal_mask(cfg: &ActionConfig, l: Ledger) -> Seq<bool> {
    Seq::new(cfg.slot_count(), |slot: int| slot_outcome(cfg, l, slot) is Some)
}

/// `after` is `before` with one more slot that holds what `outcome` asks for.
pub open spec fn slot_added(
    before: Seq<Option<GameState>>,
    after: Seq<Option<GameState>>,
    cfg: &ActionConfig,
    outcome: Option<Outcome>,
) -> bool {
    &&& after.len() == before.len() + 1
    &&& after.drop_last() == before
    &&& child_is(after.last(), cfg, outcome)
}

/// A state at which a seat is to act. Its children are built once, on the
/// first expansion, one slot per action.
pub struct StatePlay<'a> {
    pub action_config: &'a ActionConfig,
    pub state_data: StateData,
    pub children: Vec<Option<GameState<'a>>>,
    pub valid_actions_mask: Vec<bool>,
}

impl<'a> StatePlay<'a> {
    pub fn new(action_config: &'a ActionConfig, state_data: StateData) -> (r: StatePlay<'a>)
        ensures
            r.action_config == action_config,
            r.state_data == state_data,
            r.children@.len() == 0,
            r.valid_actions_mask@.len() == 0,
    {
        StatePlay { action_config, state_data, children: Vec::new(), valid_actions_mask: Vec::new() }
    }

    pub fn get_type(&self) -> (r: StateType)
        ensures
            r == StateType::Play,
    {
        StateType::Play
    }

    /// The child of slot `index`; `None` where the action is illegal.
    pub fn get_child(&self, index: usize) -> (r: &Option<GameState<'a>>)
        requires
            index < self.children@.len(),
        ensures
            *r == self.children@[index as int],
    {
        &self.children[index]
    }

    pub fn get_valid_actions_mask(&self) -> (r: Vec<bool>)
        ensures
            r@ == self.valid_actions_mask@,
    {
        let r = self.valid_actions_mask.clone();
        assert(r@ =~= self.valid_actions_mask@);
        r
    }

    pub fn get_state_data(&self) -> (r: &StateData)
        ensures
            r == &self.state_data,
    {
        &self.state_data
    }

    /// The state that follows once `state_data` is the ledger and `next`
    /// the seat to move in it.
    fn successor(action_config: &'a ActionConfig, state_data: StateData, street: u8) -> (r:
        GameState<'a>)
        ensures
            r.state_type() == kind_after(
                Ledger { street: street as int, ..state_data@ },
                state_data@.player_to_move,
            ),
            r.ledger() == state_data@,
            r.is_fresh(action_config),
    {
        if state_data.player_to_move != -1 {
            GameState::Play(StatePlay::new(action_config, state_data))
        } else if street != 4 {
            GameState::Chance(StateChance::new(action_config, state_data))
        } else {
            GameState::Terminal(StateTerminal::new(state_data))
        }
    }

    /// Whether no child was built yet.
    pub open spec fn is_unexpanded(&self) -> bool {
        self.children@.len() == 0 && self.valid_actions_mask@.len() == 0
    }

    /// Whether the children and the mask are those that the rules give for
    /// the ledger: one slot per action, in the fixed order.
    pub open spec fn is_expanded(&self) -> bool {
        &&& self.children@.len() == self.action_config.slot_count()
        &&& self.valid_actions_mask@ == legal_mask(self.action_config, self.state_data@)
        &&& forall|slot: int|
            0 <= slot < self.action_config.slot_count() ==> child_is(
                #[trigger] self.children@[slot],
                self.action_config,
                slot_outcome(self.action_config, self.state_data@, slot),
            )
    }

    /// Whether some raise of the ladder is legal and leaves no seat to act.
    pub open spec fn has_dead_end_raise(&self) -> bool {
        exists|i: int|
            0 <= i < raise_sizes(self.action_config, self.state_data@).len() && raise_is_dead_end(
                self.action_config,
                self.state_data@,
                #[trigger] raise_sizes(self.action_config, self.state_data@)[i],
            )
    }

    /// Whether the rules allow the seat to move some action.
    pub open spec fn has_legal_action(&self) -> bool {
        exists|slot: int|
            0 <= slot < self.action_config.slot_count() && #[trigger] legal_mask(
                self.action_config,
                self.state_data@,
            )[slot]
    }

    /// Adds the slot of the fold.
    pub fn handle_fold(&mut self, biggest_bet: u32)
        requires
            old(self).state_data@.awaits_action(),
            biggest_bet == old(self).state_data@.biggest_bet(),
        ensures
            final(self).action_config == old(self).action_config,
            final(self).state_data == old(self).state_data,
            slot_added(
                old(self).children@,
                final(self).children@,
                old(self).action_config,
                fold_outcome(old(self).state_data@),
            ),
            final(self).valid_actions_mask@ == old(self).valid_actions_mask@.push(
                fold_legal(old(self).state_data@),
            ),
    {
        let ghost l = self.state_data@;
        if biggest_bet > self.state_data.get_to_move_bet() {
            let mover: usize = self.state_data.get_player_to_move() as usize;
            let mut new_state_data = self.state_data.clone();
            new_state_data.is_player_in.set(mover, false);
            proof {
                lemma_count_upto_positive(l.is_player_in, mover as int, l.player_count);
            }
            new_state_data.players_in_hand -= 1;
            let new_action = Action {
                action_type: ActionType::Fold,
                raise_index: -1,
                player_index: self.state_data.get_player_to_move(),
                street: new_state_data.street,
            };
            new_state_data.history.push(new_action);
            new_state_data.last_actions.set(mover, Some(new_action));
            new_state_data.player_to_move = self.state_data.get_next_player(
                new_state_data.last_player,
            );
            assert(new_state_data@ =~= fold_ledger(l));
            // check if there is any player that has to play
            let child = if StateData::get_active_players(&new_state_data.is_player_in) == 1 {
                GameState::Terminal(StateTerminal::new(new_state_data))
            } else {
                let street: u8 = new_state_data.street;
                Self::successor(self.action_config, new_state_data, street)
            };
            self.children.push(Some(child));
            self.valid_actions_mask.push(true);
        } else {
            self.children.push(None);
            self.valid_actions_mask.push(false);
        }
        assert(self.children@.drop_last() =~= old(self).children@);
    }

    /// Adds the slot of the call.
    pub fn handle_call(&mut self, biggest_bet: u32)
        requires
            old(self).state_data@.awaits_action(),
            biggest_bet == old(self).state_data@.biggest_bet(),
        ensures
            final(self).action_config == old(self).action_config,
            final(self).state_data == old(self).state_data,
            slot_added(
                old(self).children@,
                final(self).children@,
                old(self).action_config,
                call_outcome(old(self).state_data@),
            ),
            final(self).valid_actions_mask@ == old(self).valid_actions_mask@.push(
                call_legal(old(self).state_data@),
            ),
    {
        let ghost l = self.state_data@;
        proof {
            l.lemma_amounts_fit(l.player_to_move);
        }
        if biggest_bet - self.state_data.get_to_move_bet() < self.state_data.get_to_move_stack() {
            let mover: usize = self.state_data.get_player_to_move() as usize;
            let shortfall: u32 = biggest_bet - self.state_data.get_to_move_bet();
            let mut new_state_data = self.state_data.clone();
            new_state_data.bets.set(mover, self.state_data.bets[mover] + shortfall);
            new_state_data.stacks.set(mover, self.state_data.stacks[mover] - shortfall);
            let new_action = Action {
                action_type: ActionType::Call,
                raise_index: -1,
                player_index: self.state_data.get_player_to_move(),
                street: new_state_data.street,
            };
            new_state_data.history.push(new_action);
            new_state_data.last_actions.set(mover, Some(new_action));
            new_state_data.player_to_move = self.state_data.get_next_player(
                new_state_data.last_player,
            );
            assert(new_state_data@ =~= call_ledger(l));
            let street: u8 = new_state_data.street;
            let child = Self::successor(self.action_config, new_state_data, street);
            self.children.push(Some(child));
            self.valid_actions_mask.push(true);
        } else {
            self.children.push(None);
            self.valid_actions_mask.push(false);
        }
        assert(self.children@.drop_last() =~= old(self).children@);
    }

    /// Adds the slot of the raise of size `action_value`, the size at
    /// `action_index` of the ladder. Fails, and adds nothing, when the raise
    /// is legal and no seat could act after it.
    pub fn handle_raise(
        &mut self,
        pot: u32,
        biggest_bet: u32,
        action_index: usize,
        action_value: Ratio,
    ) -> (res: Result<(), TreeError>)
        requires
            old(self).state_data@.awaits_action(),
            pot == old(self).state_data@.pot(),
            biggest_bet == old(self).state_data@.biggest_bet(),
            action_index <= 127,
            action_value.den > 0,
        ensures
            final(self).action_config == old(self).action_config,
            final(self).state_data == old(self).state_data,
            res is Err <==> raise_is_dead_end(
                old(self).action_config,
                old(self).state_data@,
                action_value,
            ),
            res matches Err(e) ==> e is RaiseWithoutNextActor && e.context() == Some(
                old(self).state_data@,
            ),
            res is Err ==> final(self).children@ == old(self).children@,
            res is Err ==> final(self).valid_actions_mask@ == old(self).valid_actions_mask@,
            res is Ok ==> slot_added(
                old(self).children@,
                final(self).children@,
                old(self).action_config,
                raise_outcome(
                    old(self).action_config,
                    old(self).state_data@,
                    action_value,
                    action_index as int,
                ),
            ) && final(self).valid_actions_mask@ == old(self).valid_actions_mask@.push(
                raise_legal(old(self).action_config, old(self).state_data@, action_value),
            ),
    {
        let ghost l = self.state_data@;
        let ghost cfg = self.action_config;
        proof {
            l.lemma_amounts_fit(l.player_to_move);
        }
        let legal = self.raise_is_legal(pot, biggest_bet, action_value);
        if !legal {
            self.children.push(None);
            self.valid_actions_mask.push(false);
            assert(self.children@.drop_last() =~= old(self).children@);
            return Ok(());
        }
        // Valid raise
        let mover: usize = self.state_data.get_player_to_move() as usize;
        let actual_bet: u32 = self.raise_chips(pot, biggest_bet, action_value);
        let mut new_state_data = self.state_data.clone();
        new_state_data.bets.set(mover, self.state_data.bets[mover] + actual_bet);
        new_state_data.stacks.set(mover, self.state_data.stacks[mover] - actual_bet);
        let new_action = Action {
            action_type: ActionType::Raise,
            raise_index: action_index as i8,
            player_index: self.state_data.get_player_to_move(),
            street: new_state_data.street,
        };
        new_state_data.history.push(new_action);
        new_state_data.last_actions.set(mover, Some(new_action));
        new_state_data.last_player = self.state_data.get_last_player(
            self.state_data.get_player_to_move(),
        );
        new_state_data.player_to_move = self.state_data.get_next_player(
            new_state_data.last_player,
        );
        assert(new_state_data@ =~= raise_ledger(l, action_value, action_index as int));
        if new_state_data.player_to_move != -1 {
            self.children.push(Some(GameState::Play(StatePlay::new(self.action_config, new_state_data))));
            self.valid_actions_mask.push(true);
            assert(self.children@.drop_last() =~= old(self).children@);
            Ok(())
        } else {
            Err(TreeError::RaiseWithoutNextActor { state_data: self.state_data.clone() })
        }
    }

    /// The chips that a raise of size `action_value` moves, where they fit
    /// the stack.
    fn raise_chips(&self, pot: u32, biggest_bet: u32, action_value: Ratio) -> (r: u32)
        requires
            self.state_data@.awaits_action(),
            pot == self.state_data@.pot(),
            biggest_bet == self.state_data@.biggest_bet(),
            action_value.den > 0,
            0 <= raise_amount(self.state_data@, action_value),
            raise_bet(self.state_data@, action_value) < self.state_data@.to_move_stack(),
        ensures
            r == raise_bet(self.state_data@, action_value),
    {
        proof {
            self.state_data@.lemma_amounts_fit(self.state_data@.player_to_move);
        }
        let to_call: u32 = biggest_bet - self.state_data.get_to_move_bet();
        let scaled: u128 = if self.state_data.street == 1 {
            action_value.apply(biggest_bet)
        } else {
            action_value.apply(pot)
        };
        let raise: u128 = if self.state_data.street == 1 {
            scaled - biggest_bet as u128
        } else {
            scaled
        };
        (to_call as u128 + raise) as u32
    }

    /// Whether a raise of size `action_value` is legal.
    fn raise_is_legal(&self, pot: u32, biggest_bet: u32, action_value: Ratio) -> (r: bool)
        requires
            self.state_data@.awaits_action(),
            pot == self.state_data@.pot(),
            biggest_bet == self.state_data@.biggest_bet(),
            action_value.den > 0,
        ensures
            r == raise_legal(self.action_config, self.state_data@, action_value),
    {
        let ghost l = self.state_data@;
        proof {
            l.lemma_amounts_fit(l.player_to_move);
        }
        if action_value.num == 0 {
            return false;
        }
        // No raise once the street has seen more than max_actions - player_count actions
        let (action_cnt, has_all_in) = self.state_data.street_actions();
        let max_actions: usize = self.state_data.player_count as usize * 3;
        if !has_all_in && action_cnt > max_actions - self.state_data.player_count as usize {
            return false;
        }
        let to_call: u32 = biggest_bet - self.state_data.get_to_move_bet();
        let scaled: u128 = if self.state_data.street == 1 {
            action_value.apply(biggest_bet)
        } else {
            action_value.apply(pot)
        };
        if self.state_data.street == 1 && scaled < biggest_bet as u128 {
            return false;
        }
        let raise: u128 = if self.state_data.street == 1 {
            scaled - biggest_bet as u128
        } else {
            scaled
        };
        let stack: u128 = self.state_data.get_to_move_stack() as u128;
        if raise < self.state_data.min_raise as u128 || raise >= stack {
            return false;
        }
        let actual_bet: u128 = to_call as u128 + raise;
        if actual_bet >= stack {
            return false;
        }
        let stack_left: u64 = (stack - actual_bet) as u64;
        let percentage: u64 = self.action_config.commited_to_pot_percentage as u64;
        let buy_in: u64 = self.action_config.buy_in as u64;
        assert(percentage * buy_in <= 0xffff_ffff * 0xffff_ffff) by (nonlinear_arith)
            requires
                percentage <= 0xffff_ffff,
                buy_in <= 0xffff_ffff,
        ;
        100 * stack_left >= percentage * buy_in
    }

    /// Adds one slot per raise size of the street's ladder. Fails, and adds
    /// nothing, when one of the raises is legal and no seat could act after
    /// it.
    pub fn handle_raises(&mut self, pot: u32, biggest_bet: u32) -> (res: Result<(), TreeError>)
        requires
            old(self).state_data@.awaits_action(),
            old(self).action_config.ladders_wf(),
            pot == old(self).state_data@.pot(),
            biggest_bet == old(self).state_data@.biggest_bet(),
        ensures
            final(self).action_config == old(self).action_config,
            final(self).state_data == old(self).state_data,
            res is Err <==> old(self).has_dead_end_raise(),
            res matches Err(e) ==> e is RaiseWithoutNextActor && e.context() == Some(
                old(self).state_data@,
            ),
            res is Err ==> final(self).children@ == old(self).children@,
            res is Err ==> final(self).valid_actions_mask@ == old(self).valid_actions_mask@,
            res is Ok ==> {
                let cfg = old(self).action_config;
                let l = old(self).state_data@;
                let sizes = raise_sizes(cfg, l);
                &&& final(self).children@.len() == old(self).children@.len() + sizes.len()
                &&& final(self).children@.take(old(self).children@.len() as int) == old(
                    self,
                ).children@
                &&& forall|i: int|
                    0 <= i < sizes.len() ==> child_is(
                        #[trigger] final(self).children@[old(self).children@.len() + i],
                        cfg,
                        raise_outcome(cfg, l, sizes[i], i),
                    )
                &&& final(self).valid_actions_mask@ == old(self).valid_actions_mask@ + Seq::new(
                    sizes.len(),
                    |i: int| raise_legal(cfg, l, sizes[i]),
                )
            },
    {
        let ghost l = self.state_data@;
        let action_config: &ActionConfig = self.action_config;
        let raises: &Vec<Ratio> = if self.state_data.street == 1 {
            &action_config.preflop_raise_sizes
        } else {
            &action_config.postflop_raise_sizes
        };
        let children_before: usize = self.children.len();
        let mask_before: usize = self.valid_actions_mask.len();
        // Iterate through configured raise sizes
        let mut i: usize = 0;
        while i < raises.len()
            invariant
                self.action_config == old(self).action_config,
                self.action_config == action_config,
                self.state_data == old(self).state_data,
                l == self.state_data@,
                l.awaits_action(),
                action_config.ladders_wf(),
                pot == l.pot(),
                biggest_bet == l.biggest_bet(),
                raises@ == raise_sizes(action_config, l),
                i <= raises@.len(),
                children_before == old(self).children@.len(),
                mask_before == old(self).valid_actions_mask@.len(),
                self.children@.len() == children_before + i,
                self.children@.take(children_before as int) == old(self).children@,
                forall|j: int|
                    0 <= j < i ==> child_is(
                        #[trigger] self.children@[children_before + j],
                        action_config,
                        raise_outcome(action_config, l, raises@[j], j),
                    ),
                forall|j: int|
                    0 <= j < i ==> !raise_is_dead_end(action_config, l, #[trigger] raises@[j]),
                self.valid_actions_mask@ == old(self).valid_actions_mask@ + Seq::new(
                    i as nat,
                    |j: int| raise_legal(action_config, l, raises@[j]),
                ),
            decreases raises@.len() - i,
        {
            let ghost children_mid = self.children@;
            let ghost mask_mid = self.valid_actions_mask@;
            match self.handle_raise(pot, biggest_bet, i, raises[i]) {
                Ok(()) => {},
                Err(e) => {
                    self.children.truncate(children_before);
                    self.valid_actions_mask.truncate(mask_before);
                    assert(self.children@ =~= old(self).children@);
                    assert(self.valid_actions_mask@ =~= old(self).valid_actions_mask@);
                    return Err(e);
                },
            }
            proof {
                assert(self.children@.drop_last() == children_mid);
                assert(self.children@.take(children_before as int) =~= children_mid.take(
                    children_before as int,
                ));
                assert forall|j: int| 0 <= j < i + 1 implies child_is(
                    #[trigger] self.children@[children_before + j],
                    action_config,
                    raise_outcome(action_config, l, raises@[j], j),
                ) by {
                    if j < i {
                        assert(self.children@[children_before + j] == children_mid[children_before
                            + j]);
                    }
                }
                assert(self.valid_actions_mask@ =~= old(self).valid_actions_mask@ + Seq::new(
                    (i + 1) as nat,
                    |j: int| raise_legal(action_config, l, raises@[j]),
                ));
            }
            i += 1;
        }
        Ok(())
    }

    /// Adds the slot of the all-in.
    pub fn handle_all_in(&mut self)
        requires
            old(self).state_data@.awaits_action(),
        ensures
            final(self).action_config == old(self).action_config,
            final(self).state_data == old(self).state_data,
            slot_added(
                old(self).children@,
                final(self).children@,
                old(self).action_config,
                all_in_outcome(old(self).state_data@),
            ),
            final(self).valid_actions_mask@ == old(self).valid_actions_mask@.push(
                all_in_legal(old(self).state_data@),
            ),
    {
        let ghost l = self.state_data@;
        proof {
            l.lemma_amounts_fit(l.player_to_move);
        }
        // No all-in once the street has seen more than max_actions - player_count
        // actions, unless one of them was an all-in
        let (action_cnt, has_all_in) = self.state_data.street_actions();
        let max_actions: usize = self.state_data.player_count as usize * 3;
        let capped: bool = !has_all_in && action_cnt > max_actions
            - self.state_data.player_count as usize;
        if !capped && self.state_data.get_to_move_stack() > 0 {
            let mover: usize = self.state_data.get_player_to_move() as usize;
            let mut new_state_data = self.state_data.clone();
            new_state_data.bets.set(
                mover,
                self.state_data.bets[mover] + self.state_data.get_to_move_stack(),
            );
            new_state_data.stacks.set(mover, 0);
            let new_action = Action {
                action_type: ActionType::AllIn,
                raise_index: -1,
                player_index: self.state_data.get_player_to_move(),
                street: new_state_data.street,
            };
            new_state_data.history.push(new_action);
            new_state_data.last_actions.set(mover, Some(new_action));
            new_state_data.last_player = self.state_data.get_last_player(
                self.state_data.get_player_to_move(),
            );
            new_state_data.player_to_move = self.state_data.get_next_player(
                new_state_data.last_player,
            );
            assert(new_state_data@ =~= all_in_ledger(l));
            let street: u8 = self.state_data.street;
            let child = Self::successor(self.action_config, new_state_data, street);
            self.children.push(Some(child));
            self.valid_actions_mask.push(true);
        } else {
            self.children.push(None);
            self.valid_actions_mask.push(false);
        }
        assert(self.children@.drop_last() =~= old(self).children@);
    }

    /// Builds the children and the legality mask, once: a state that was
    /// expanded before is left as it is. Fails, and leaves the state
    /// unexpanded, when a legal raise would leave no seat to act or when no
    /// action at all is legal; the error then holds a copy of the ledger.
    pub fn create_children(&mut self) -> (res: Result<(), TreeError>)
        requires
            old(self).state_data@.awaits_action(),
            old(self).action_config.ladders_wf(),
            old(self).children@.len() == 0 ==> old(self).is_unexpanded(),
        ensures
            final(self).action_config == old(self).action_config,
            final(self).state_data == old(self).state_data,
            !old(self).is_unexpanded() ==> res is Ok && *final(self) == *old(self),
            old(self).is_unexpanded() && res is Ok ==> final(self).is_expanded(),
            old(self).is_unexpanded() && res is Ok ==> final(self).has_legal_action(),
            res is Err ==> final(self).is_unexpanded(),
            old(self).is_unexpanded() ==> (res is Ok <==> !old(self).has_dead_end_raise() && old(
                self,
            ).has_legal_action()),
            old(self).is_unexpanded() ==> (res is Err && res->Err_0 is RaiseWithoutNextActor
                <==> old(self).has_dead_end_raise()),
            old(self).is_unexpanded() ==> (res is Err && res->Err_0 is NoLegalAction <==> !old(
                self,
            ).has_dead_end_raise() && !old(self).has_legal_action()),
            res matches Err(e) ==> e.context() == Some(old(self).state_data@),
    {
        if !self.children.is_empty() {
            return Ok(());
        }
        let ghost l = self.state_data@;
        let ghost cfg = self.action_config;
        let (pot, biggest_bet) = self.state_data.pot_and_biggest_bet();

        self.handle_fold(biggest_bet);
        self.handle_call(biggest_bet);
        let ghost two = self.children@;
        match self.handle_raises(pot, biggest_bet) {
            Ok(()) => {},
            Err(e) => {
                self.children.clear();
                self.valid_actions_mask.clear();
                return Err(e);
            },
        }
        let ghost with_raises = self.children@;
        self.handle_all_in();

        proof {
            let k = cfg.postflop_raise_sizes@.len() as int;
            assert(raise_sizes(cfg, l).len() == k);
            assert(self.children@.len() == 3 + k);
            assert(self.children@.drop_last() == with_raises);
            assert(with_raises.take(2) == two);
            assert(self.valid_actions_mask@ =~= legal_mask(cfg, l));
            assert forall|slot: int| 0 <= slot < cfg.slot_count() implies child_is(
                #[trigger] self.children@[slot],
                cfg,
                slot_outcome(cfg, l, slot),
            ) by {
                if slot < 2 {
                    assert(self.children@[slot] == with_raises[slot]);
                    assert(with_raises[slot] == with_raises.take(2)[slot]);
                    assert(two.drop_last()[0] == two[0]);
                } else if slot < 2 + k {
                    assert(self.children@[slot] == with_raises[2 + (slot - 2)]);
                }
            }
        }

        let mut valid_cnt: usize = 0;
        let mut i: usize = 0;
        while i < self.valid_actions_mask.len()
            invariant
                i <= self.valid_actions_mask@.len(),
                valid_cnt <= i,
                valid_cnt == 0 <==> forall|j: int| 0 <= j < i ==> !self.valid_actions_mask@[j],
            decreases self.valid_actions_mask@.len() - i,
        {
            if self.valid_actions_mask[i] {
                valid_cnt += 1;
            }
            i += 1;
        }
        if valid_cnt == 0 {
            self.children.clear();
            self.valid_actions_mask.clear();
            return Err(TreeError::NoLegalAction { state_data: self.state_data.clone() });
        }
        proof {
            let j = choose|j: int| 0 <= j < i && self.valid_actions_mask@[j];
            assert(legal_mask(cfg, l)[j]);
        }
        Ok(())
    }
}

} // verus!
