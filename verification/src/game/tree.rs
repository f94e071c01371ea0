//! One hand, played from the first bet to the showdown.

use vstd::prelude::*;
use crate::agent::Agent;
use crate::game::action::ActionConfig;
use crate::game::laws::{
    hand_inv,
    is_line,
    lemma_action_advances,
    lemma_deal_advances,
    lemma_no_dead_end,
    lemma_some_action_is_legal,
    nearer_end,
    phase,
    stacks_total,
    turns_left,
};
use crate::game::state::{GameState, Outcome, StateType, TreeError};
use crate::game::state_chance::chance_outcome;
use crate::game::state_data::{count_upto, sum_upto, Ledger, StateData};
use crate::game::state_play::{legal_mask, raise_sizes, slot_outcome, StatePlay};

verus! {

/// What seat `seat` posts before the first action: the ante, and the small
/// blind on seat 0 and the big blind on seat 1.
pub open spec fn forced_bet(cfg: &ActionConfig, seat: int) -> int {
    cfg.ante + if seat == 0 {
        cfg.small_blind as int
    } else if seat == 1 {
        cfg.big_blind as int
    } else {
        0
    }
}

/// The ledger of a hand before the first action: every seat has bought in
/// and posted, the seat after the big blind moves first and the big blind
/// closes the round.
pub open spec fn initial_ledger(cfg: &ActionConfig) -> Ledger {
    let n = cfg.player_count as nat;
    Ledger {
        player_count: cfg.player_count as int,
        bets: Seq::new(n, |seat: int| forced_bet(cfg, seat)),
        stacks: Seq::new(n, |seat: int| cfg.buy_in - forced_bet(cfg, seat)),
        is_player_in: Seq::new(n, |seat: int| true),
        players_in_hand: cfg.player_count as int,
        history: Seq::empty(),
        last_actions: Seq::new(n, |seat: int| None),
        player_to_move: if cfg.player_count == 2 {
            0
        } else {
            2
        },
        last_player: 1,
        street: 1,
        min_raise: cfg.min_raise as int,
    }
}

proof fn lemma_uniform_total(l: Ledger, chips: int, k: int)
    requires
        0 <= k <= l.player_count,
        forall|seat: int| 0 <= seat < l.player_count ==> #[trigger] l.chips_of(seat) == chips,
    ensures
        sum_upto(l.bets, k) + sum_upto(l.stacks, k) == k * chips,
    decreases k,
{
    if k > 0 {
        lemma_uniform_total(l, chips, k - 1);
        assert(l.chips_of(k - 1) == chips);
        assert((k - 1) * chips + chips == k * chips) by (nonlinear_arith);
    }
}

proof fn lemma_all_in_hand(s: Seq<bool>, k: int)
    requires
        0 <= k <= s.len(),
        forall|i: int| 0 <= i < s.len() ==> #[trigger] s[i],
    ensures
        count_upto(s, k) == k,
    decreases k,
{
    if k > 0 {
        lemma_all_in_hand(s, k - 1);
    }
}

/// The first ledger of a hand is one of a hand that the tree plays.
pub proof fn lemma_initial_ledger(cfg: &ActionConfig)
    requires
        cfg.wf(),
    ensures
        hand_inv(cfg, StateType::Play, initial_ledger(cfg)),
{
    let l = initial_ledger(cfg);
    assert forall|seat: int| 0 <= seat < l.player_count implies #[trigger] l.chips_of(seat)
        == cfg.buy_in by {}
    lemma_uniform_total(l, cfg.buy_in as int, l.player_count);
    lemma_all_in_hand(l.is_player_in, l.player_count);
}

impl StateData {
    /// The ledger of a hand before the first action.
    pub fn new(action_config: &ActionConfig) -> (r: StateData)
        requires
            action_config.wf(),
        ensures
            r@ == initial_ledger(action_config),
    {
        let n: usize = action_config.player_count as usize;
        let mut bets: Vec<u32> = Vec::new();
        let mut stacks: Vec<u32> = Vec::new();
        let mut is_player_in: Vec<bool> = Vec::new();
        let mut last_actions: Vec<Option<crate::game::action::Action>> = Vec::new();
        let mut seat: usize = 0;
        while seat < n
            invariant
                action_config.wf(),
                n == action_config.player_count,
                seat <= n,
                bets@.len() == seat,
                stacks@.len() == seat,
                is_player_in@.len() == seat,
                last_actions@.len() == seat,
                forall|i: int| 0 <= i < seat ==> #[trigger] bets@[i] == forced_bet(action_config, i),
                forall|i: int|
                    0 <= i < seat ==> #[trigger] stacks@[i] == action_config.buy_in - forced_bet(
                        action_config,
                        i,
                    ),
                forall|i: int| 0 <= i < seat ==> #[trigger] is_player_in@[i],
                forall|i: int| 0 <= i < seat ==> #[trigger] last_actions@[i] is None,
            decreases n - seat,
        {
            let blind: u32 = if seat == 0 {
                action_config.small_blind
            } else if seat == 1 {
                action_config.big_blind
            } else {
                0
            };
            let posted: u32 = action_config.ante + blind;
            bets.push(posted);
            stacks.push(action_config.buy_in - posted);
            is_player_in.push(true);
            last_actions.push(None);
            seat += 1;
        }
        let r = StateData {
            player_count: action_config.player_count,
            bets,
            stacks,
            is_player_in,
            players_in_hand: action_config.player_count,
            history: Vec::new(),
            last_actions,
            player_to_move: if action_config.player_count == 2 {
                0
            } else {
                2
            },
            last_player: 1,
            street: 1,
            min_raise: action_config.min_raise,
        };
        assert(r@ =~= initial_ledger(action_config));
        r
    }
}

/// Deals the cards and settles the hand at its end. Nothing is assumed of
/// what it returns: the tree checks the rewards it hands back.
pub trait Dealer {
    /// Deals what `street` brings: the hole cards on street 1, the flop,
    /// the turn and the river on streets 2 to 4.
    fn deal(&mut self, street: u8, deterministic_dealing: bool);

    /// What each seat has won or lost at the end of the hand, in
    /// millionths of a chip.
    fn rewards(&mut self, state_data: &StateData) -> Vec<i64>;
}

/// One hand. The tree owns the state that the hand has reached; the states
/// passed on the way are dropped.
pub struct Tree<'a> {
    pub player_count: u32,
    pub action_config: &'a ActionConfig,
    pub root: GameState<'a>,
}

impl<'a> Tree<'a> {
    /// The invariant of a tree: its state is one of a hand under its
    /// configuration, unexpanded or expanded as the rules say.
    pub open spec fn wf(&self) -> bool {
        &&& self.action_config.wf()
        &&& self.player_count == self.action_config.player_count
        &&& hand_inv(self.action_config, self.root.state_type(), self.root.ledger())
        &&& match self.root {
            GameState::Play(s) => s.action_config == self.action_config && (s.is_unexpanded()
                || s.is_expanded()),
            GameState::Chance(s) => s.action_config == self.action_config && (s.child is None
                || s.is_expanded()),
            GameState::Terminal(_) => true,
        }
    }

    /// Where the hand stands: the kind and the ledger of its state.
    pub open spec fn position(&self) -> Outcome {
        Outcome { kind: self.root.state_type(), ledger: self.root.ledger() }
    }

    /// Whether the hand can have come from `from` to `to` by the rules: a
    /// line of play leads from the one to the other.
    pub open spec fn follows_the_rules(cfg: &ActionConfig, from: Outcome, to: Outcome) -> bool {
        exists|line: Seq<Outcome>|
            is_line(cfg, line) && line.len() > 0 && line[0] == from && #[trigger] line.last() == to
    }

    /// A hand before its first action.
    pub fn new(player_count: u32, action_config: &'a ActionConfig) -> (r: Tree<'a>)
        requires
            action_config.wf(),
            player_count == action_config.player_count,
        ensures
            r.wf(),
            r.player_count == player_count,
            r.action_config == action_config,
            r.root.state_type() == StateType::Play,
            r.root.ledger() == initial_ledger(action_config),
            r.root.is_fresh(action_config),
    {
        proof {
            lemma_initial_ledger(action_config);
        }
        Tree {
            player_count,
            action_config,
            root: GameState::Play(StatePlay::new(action_config, StateData::new(action_config))),
        }
    }

    pub fn get_type(&self) -> (r: StateType)
        ensures
            r == self.root.state_type(),
    {
        self.root.get_type()
    }

    pub fn get_state_data(&self) -> (r: &StateData)
        ensures
            r@ == self.root.ledger(),
    {
        self.root.get_state_data()
    }

    /// The legality mask of the state the hand is at; empty unless it is an
    /// expanded play state.
    pub fn get_valid_actions_mask(&self) -> (r: Vec<bool>)
        ensures
            self.root matches GameState::Play(s) ==> r@ == s.valid_actions_mask@,
            !(self.root is Play) ==> r@.len() == 0,
    {
        match &self.root {
            GameState::Play(state) => state.get_valid_actions_mask(),
            _ => Vec::new(),
        }
    }

    /// Expands the state the hand is at, if it was not expanded before. In
    /// a hand that the tree plays this never fails.
    pub fn create_children(&mut self) -> (res: Result<(), TreeError>)
        requires
            old(self).wf(),
        ensures
            res is Ok,
            final(self).wf(),
            final(self).player_count == old(self).player_count,
            final(self).action_config == old(self).action_config,
            final(self).root.state_type() == old(self).root.state_type(),
            final(self).root.ledger() == old(self).root.ledger(),
            final(self).root matches GameState::Play(s) ==> s.is_expanded(),
            final(self).root matches GameState::Chance(s) ==> s.is_expanded(),
    {
        let ghost cfg = self.action_config;
        let ghost l = self.root.ledger();
        match &mut self.root {
            GameState::Play(state) => {
                proof {
                    lemma_some_action_is_legal(cfg, l);
                    assert forall|i: int| 0 <= i < raise_sizes(cfg, l).len() implies !crate::game::state_play::raise_is_dead_end(
                        cfg,
                        l,
                        #[trigger] raise_sizes(cfg, l)[i],
                    ) by {
                        lemma_no_dead_end(cfg, l, raise_sizes(cfg, l)[i]);
                    }
                    assert(legal_mask(cfg, l)[0] || legal_mask(cfg, l)[1]);
                }
                state.create_children()
            },
            GameState::Chance(state) => {
                state.create_children();
                Ok(())
            },
            GameState::Terminal(_) => Ok(()),
        }
    }

    /// Takes the action of slot `action_index` at an expanded play state:
    /// the hand moves on to the child of that slot. An index that is out of
    /// range or masked out is refused, and the hand stays where it is.
    pub fn apply_action(&mut self, action_index: usize) -> (res: Result<(), TreeError>)
        requires
            old(self).wf(),
            old(self).root is Play,
            old(self).root->Play_0.is_expanded(),
        ensures
            final(self).player_count == old(self).player_count,
            final(self).action_config == old(self).action_config,
            final(self).wf(),
            res is Err <==> !(action_index < legal_mask(
                old(self).action_config,
                old(self).root.ledger(),
            ).len() && legal_mask(old(self).action_config, old(self).root.ledger())[action_index as int]),
            res is Err ==> res == Err::<(), TreeError>(TreeError::IllegalAction) && final(self).root
                == old(self).root,
            res is Ok ==> {
                let o = slot_outcome(
                    old(self).action_config,
                    old(self).root.ledger(),
                    action_index as int,
                )->0;
                &&& final(self).root.state_type() == o.kind
                &&& final(self).root.ledger() == o.ledger
                &&& final(self).root.is_fresh(old(self).action_config)
                &&& nearer_end(o.kind, o.ledger, StateType::Play, old(self).root.ledger())
            },
    {
        let ghost cfg = self.action_config;
        let ghost l = self.root.ledger();
        let taken: Option<GameState<'a>> = match &mut self.root {
            GameState::Play(state) => {
                if action_index < state.valid_actions_mask.len()
                    && state.valid_actions_mask[action_index] {
                    proof {
                        lemma_action_advances(cfg, l, action_index as int);
                    }
                    state.children.swap_remove(action_index)
                } else {
                    None
                }
            },
            _ => None,
        };
        match taken {
            Some(child) => {
                self.root = child;
                Ok(())
            },
            None => Err(TreeError::IllegalAction),
        }
    }

    /// Moves a hand at a chance state on to the state after the deal.
    pub fn advance_street(&mut self)
        requires
            old(self).wf(),
            old(self).root is Chance,
        ensures
            final(self).player_count == old(self).player_count,
            final(self).action_config == old(self).action_config,
            final(self).wf(),
            ({
                let o = chance_outcome(old(self).action_config, old(self).root.ledger());
                &&& final(self).root.state_type() == o.kind
                &&& final(self).root.ledger() == o.ledger
                &&& final(self).root.is_fresh(old(self).action_config)
                &&& nearer_end(o.kind, o.ledger, StateType::Chance, old(self).root.ledger())
            }),
    {
        let ghost cfg = self.action_config;
        let ghost l = self.root.ledger();
        proof {
            lemma_deal_advances(cfg, l);
        }
        let taken: Option<Box<GameState<'a>>> = match &mut self.root {
            GameState::Chance(state) => {
                state.create_children();
                state.child.take()
            },
            _ => None,
        };
        match taken {
            Some(child) => {
                self.root = *child;
            },
            None => {},
        }
    }

    /// Plays the hand to its end and hands back what each seat won or
    /// lost. At every play state the seat to move is asked for a slot,
    /// which is checked against the legality mask; the dealer is asked for
    /// the cards of each street and, at the end, for the rewards.
    ///
    /// Whatever agents and dealer answer, the hand ends: it fails with
    /// `IllegalAction` or `AgentFailed` at the first choice that is not a
    /// legal slot, and at a terminal state it ends in what `settle` makes
    /// of the dealer's rewards: the rewards, or `ShowdownFailed` where they
    /// are not one per seat.
    pub fn play_one_hand<A: Agent, D: Dealer>(
        &mut self,
        agents: &Vec<A>,
        dealer: &mut D,
        deterministic_dealing: bool,
    ) -> (res: Result<Vec<i64>, TreeError>)
        requires
            old(self).wf(),
            agents@.len() == old(self).player_count,
        ensures
            final(self).wf(),
            final(self).player_count == old(self).player_count,
            final(self).action_config == old(self).action_config,
            res matches Ok(rewards) ==> final(self).root is Terminal && rewards@.len() == old(
                self,
            ).player_count,
            res matches Err(e) ==> e == TreeError::IllegalAction || e == TreeError::AgentFailed || e
                == TreeError::ShowdownFailed,
            res matches Err(e) ==> (e != TreeError::ShowdownFailed <==> final(self).root is Play),
            Self::follows_the_rules(
                old(self).action_config,
                old(self).position(),
                final(self).position(),
            ),
    {
        let action_config: &ActionConfig = self.action_config;
        let ghost line: Seq<Outcome> = seq![self.position()];
        dealer.deal(self.get_state_data().street, deterministic_dealing);
        let mut at_end: bool = self.get_type() == StateType::Terminal;
        while !at_end
            invariant
                self.wf(),
                self.player_count == old(self).player_count,
                self.action_config == old(self).action_config,
                self.action_config == action_config,
                agents@.len() == self.player_count,
                at_end == (self.root is Terminal),
                is_line(action_config, line),
                line.len() > 0,
                line[0] == old(self).position(),
                line.last() == self.position(),
            decreases
                    stacks_total(self.root.ledger()),
                    phase(self.root.state_type(), self.root.ledger()),
                    turns_left(self.root.state_type(), self.root.ledger()),
        {
            let ghost before = line;
            if self.get_type() == StateType::Chance {
                let street: u8 = self.get_state_data().street;
                self.advance_street();
                proof {
                    line = before.push(self.position());
                }
                let dealt_to: u8 = self.get_state_data().street;
                let mut next: u8 = street;
                while next < dealt_to
                    invariant
                        street <= next <= dealt_to <= 4,
                    decreases dealt_to - next,
                {
                    next += 1;
                    dealer.deal(next, deterministic_dealing);
                }
            } else {
                let expanded = self.create_children();
                let mask = self.get_valid_actions_mask();
                let state_data = self.get_state_data();
                let seat: usize = state_data.get_player_to_move() as usize;
                let chosen = agents[seat].choose_action(
                    state_data,
                    &mask,
                    state_data.street,
                    action_config,
                );
                match chosen {
                    Ok(action_index) => {
                        match self.apply_action(action_index) {
                            Ok(()) => {
                                proof {
                                    lemma_action_advances(
                                        action_config,
                                        before.last().ledger,
                                        action_index as int,
                                    );
                                    line = before.push(self.position());
                                }
                            },
                            Err(e) => {
                                return Err(e);
                            },
                        }
                    },
                    Err(_) => {
                        return Err(TreeError::AgentFailed);
                    },
                }
            }
            proof {
                assert forall|i: int| 0 <= i < line.len() - 1 implies crate::game::laws::steps_to(
                    action_config,
                    #[trigger] line[i],
                    line[i + 1],
                ) by {
                    if i < before.len() - 1 {
                        assert(line[i] == before[i] && line[i + 1] == before[i + 1]);
                    } else {
                        assert(line[i] == before.last());
                    }
                }
            }
            at_end = self.get_type() == StateType::Terminal;
        }
        let rewards = dealer.rewards(self.get_state_data());
        settle(rewards, self.player_count)
    }
}

/// What a hand ends in once the dealer has handed back `rewards`: the
/// rewards themselves, as they are, where they are one per seat, and else
/// the failure of the showdown.
pub fn settle(rewards: Vec<i64>, player_count: u32) -> (res: Result<Vec<i64>, TreeError>)
    ensures
        res is Ok <==> rewards@.len() == player_count,
        res matches Ok(r) ==> r@ == rewards@,
        res matches Err(e) ==> e == TreeError::ShowdownFailed,
{
    if rewards.len() != player_count as usize {
        return Err(TreeError::ShowdownFailed);
    }
    Ok(rewards)
}

} // verus!
