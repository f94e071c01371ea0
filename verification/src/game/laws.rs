//! What holds of every hand: the invariants of the ledger along a line of
//! play, and the laws of the legality mask.

use vstd::prelude::*;
use crate::game::action::{ActionConfig, ActionType, Ratio};
use crate::game::state::{Outcome, StateType};
use crate::game::state_chance::{chance_outcome, next_street_ledger, run_out_ledger};
use crate::game::state_data::{
    count_upto,
    lemma_count_upto_bounds,
    lemma_count_upto_clear,
    lemma_count_upto_positive,
    lemma_count_upto_witness,
    lemma_sum_upto_update,
    street_run,
    street_run_has_all_in,
    sum_upto,
    Ledger,
};
use crate::game::state_play::{
    all_in_ledger,
    all_in_legal,
    all_in_outcome,
    call_ledger,
    call_legal,
    call_outcome,
    commit,
    fold_ledger,
    fold_legal,
    fold_outcome,
    kind_after,
    legal_mask,
    raise_amount,
    raise_bet,
    raise_is_dead_end,
    raise_ledger,
    raise_legal,
    raise_outcome,
    raise_sizes,
    record,
    reopen_ledger,
    slot_outcome,
};

verus! {

/// What every state of a hand satisfies: a well-formed ledger, with a seat
/// to act at a play state and a street to come at a chance state.
pub open spec fn state_ok(kind: StateType, l: Ledger) -> bool {
    &&& l.wf()
    &&& match kind {
        StateType::Play => l.awaits_action(),
        StateType::Chance => 1 <= l.street <= 3,
        StateType::Terminal => true,
    }
}

/// A play state without a seat to move: what a raise leads to after which
/// no seat could act. The tree refuses to build it.
pub open spec fn is_dead_end(o: Outcome) -> bool {
    o.kind == StateType::Play && o.ledger.player_to_move == -1
}

/// Whether `to` is what one action, or the deal, leads to from `from`.
pub open spec fn steps_to(cfg: &ActionConfig, from: Outcome, to: Outcome) -> bool {
    match from.kind {
        StateType::Play => !is_dead_end(to) && exists|slot: int|
            0 <= slot < cfg.slot_count() && #[trigger] slot_outcome(cfg, from.ledger, slot) == Some(
                to,
            ),
        StateType::Chance => chance_outcome(cfg, from.ledger) == to,
        StateType::Terminal => false,
    }
}

/// A line of play: each state follows from the one before it.
pub open spec fn is_line(cfg: &ActionConfig, line: Seq<Outcome>) -> bool {
    forall|i: int| 0 <= i < line.len() - 1 ==> steps_to(cfg, #[trigger] line[i], line[i + 1])
}

/// Moving chips from the stack to the bet of the seat to move keeps the
/// ledger well-formed and every seat's chips.
pub proof fn lemma_commit(l: Ledger, amount: int)
    requires
        l.wf(),
        l.is_seat(l.player_to_move),
        0 <= amount <= l.to_move_stack(),
    ensures
        commit(l, amount).wf(),
        commit(l, amount).total_chips() == l.total_chips(),
        commit(l, amount).pot() == l.pot() + amount,
        sum_upto(commit(l, amount).stacks, l.player_count) == sum_upto(l.stacks, l.player_count)
            - amount,
        forall|seat: int| l.is_seat(seat) ==> #[trigger] commit(l, amount).chips_of(seat) == l.chips_of(seat),
        forall|seat: int|
            seat != l.player_to_move ==> (#[trigger] commit(l, amount).can_act(seat) <==> l.can_act(
                seat,
            )),
{
    lemma_sum_upto_update(l.bets, l.player_to_move, l.to_move_bet() + amount, l.player_count);
    lemma_sum_upto_update(l.stacks, l.player_to_move, l.to_move_stack() - amount, l.player_count);
}

/// Recording an action changes neither the chips nor who can act.
pub proof fn lemma_record(l: Ledger, action_type: ActionType, raise_index: int)
    requires
        l.wf(),
        l.is_seat(l.player_to_move),
    ensures
        record(l, action_type, raise_index).wf(),
        forall|seat: int| #[trigger]
            record(l, action_type, raise_index).can_act(seat) <==> l.can_act(seat),
{
}

/// What an action leads to is in order when the ledger before it was, and
/// every seat has the chips it had.
pub open spec fn follows_in_order(l: Ledger, o: Outcome) -> bool {
    &&& state_ok(o.kind, o.ledger)
    &&& o.ledger.player_count == l.player_count
    &&& o.ledger.min_raise == l.min_raise
    &&& o.ledger.street == l.street
    &&& forall|seat: int| l.is_seat(seat) ==> #[trigger] o.ledger.chips_of(seat) == l.chips_of(seat)
    &&& o.kind == StateType::Play ==> o.ledger.can_act(o.ledger.player_to_move)
    &&& o.kind != StateType::Terminal && l.players_in_hand >= 2 ==> o.ledger.players_in_hand >= 2
}

pub proof fn lemma_fold_step(l: Ledger)
    requires
        l.awaits_action(),
        fold_legal(l),
    ensures
        follows_in_order(l, fold_outcome(l)->0),
{
    let o = fold_outcome(l)->0;
    let p = l.player_to_move;
    l.lemma_next_player(l.last_player);
    lemma_count_upto_clear(l.is_player_in, p, l.player_count);
    lemma_count_upto_positive(l.is_player_in, p, l.player_count);
    assert(o.ledger.bets == l.bets);
    assert(o.ledger.stacks == l.stacks);
    assert(o.ledger.wf());
}

pub proof fn lemma_call_step(l: Ledger)
    requires
        l.awaits_action(),
        call_legal(l),
    ensures
        follows_in_order(l, call_outcome(l)->0),
{
    let p = l.player_to_move;
    l.lemma_amounts_fit(p);
    l.lemma_next_player(l.last_player);
    lemma_commit(l, l.to_call());
    lemma_record(commit(l, l.to_call()), ActionType::Call, -1);
}

/// A raise or an all-in of `amount` chips leads to a ledger that is in
/// order.
pub proof fn lemma_reopen_step(l: Ledger, amount: int, action_type: ActionType, raise_index: int)
    requires
        l.awaits_action(),
        0 <= amount <= l.to_move_stack(),
    ensures
        ({
            let after = reopen_ledger(l, amount, action_type, raise_index);
            follows_in_order(l, Outcome { kind: kind_after(l, after.player_to_move), ledger: after })
        }),
{
    let p = l.player_to_move;
    l.lemma_amounts_fit(p);
    l.lemma_last_player_before(p);
    l.lemma_next_player(l.last_player_before(p));
    lemma_commit(l, amount);
    lemma_record(commit(l, amount), action_type, raise_index);
}

/// One action at a play state leads to a state that is in order and in
/// which every seat has the chips it had.
pub proof fn lemma_action_keeps_order(cfg: &ActionConfig, l: Ledger, slot: int)
    requires
        cfg.ladders_wf(),
        l.awaits_action(),
        0 <= slot < cfg.slot_count(),
        slot_outcome(cfg, l, slot) is Some,
        !is_dead_end(slot_outcome(cfg, l, slot)->0),
    ensures
        follows_in_order(l, slot_outcome(cfg, l, slot)->0),
{
    let p = l.player_to_move;
    l.lemma_amounts_fit(p);
    if slot == 0 {
        lemma_fold_step(l);
    } else if slot == 1 {
        lemma_call_step(l);
    } else if slot < 2 + cfg.postflop_raise_sizes@.len() {
        let ratio = raise_sizes(cfg, l)[slot - 2];
        lemma_reopen_step(l, raise_bet(l, ratio), ActionType::Raise, slot - 2);
        l.lemma_last_player_before(p);
    } else {
        lemma_reopen_step(l, l.to_move_stack(), ActionType::AllIn, -1);
    }
}

/// The deal after a closed round leads to a state that is in order and in
/// which every seat has the chips it had.
pub proof fn lemma_deal_keeps_order(cfg: &ActionConfig, l: Ledger)
    requires
        state_ok(StateType::Chance, l),
    ensures
        ({
            let o = chance_outcome(cfg, l);
            &&& state_ok(o.kind, o.ledger)
            &&& o.kind != StateType::Chance
            &&& o.ledger.player_count == l.player_count
            &&& o.ledger.players_in_hand == l.players_in_hand
            &&& o.ledger.bets == l.bets
            &&& o.ledger.stacks == l.stacks
            &&& o.kind == StateType::Play ==> o.ledger.can_act(o.ledger.player_to_move)
                && o.ledger.street == l.street + 1 && o.ledger.min_raise == cfg.min_raise
        }),
{
    let o = chance_outcome(cfg, l);
    if l.actors() >= 2 {
        let x = l.lemma_actors_witness(l.player_count);
        l.lemma_lowest_actor(0);
        l.lemma_highest_actor(l.player_count);
        assert(o.ledger.can_act(l.lowest_actor_from(0)));
    }
}

/// Along a line of play that starts in order, every state is in order and
/// every seat keeps the chips it started with.
pub proof fn lemma_line_keeps_order(cfg: &ActionConfig, line: Seq<Outcome>, i: int)
    requires
        cfg.ladders_wf(),
        is_line(cfg, line),
        0 <= i < line.len(),
        state_ok(line[0].kind, line[0].ledger),
    ensures
        state_ok(line[i].kind, line[i].ledger),
        line[i].ledger.player_count == line[0].ledger.player_count,
        forall|seat: int|
            line[0].ledger.is_seat(seat) ==> #[trigger] line[i].ledger.chips_of(seat)
                == line[0].ledger.chips_of(seat),
    decreases i,
{
    if i > 0 {
        lemma_line_keeps_order(cfg, line, i - 1);
        let from = line[i - 1];
        let to = line[i];
        assert(steps_to(cfg, from, to));
        match from.kind {
            StateType::Play => {
                let slot = choose|slot: int|
                    0 <= slot < cfg.slot_count() && #[trigger] slot_outcome(cfg, from.ledger, slot)
                        == Some(to);
                lemma_action_keeps_order(cfg, from.ledger, slot);
                assert forall|seat: int| line[0].ledger.is_seat(seat) implies #[trigger] to.ledger.chips_of(
                    seat,
                ) == line[0].ledger.chips_of(seat) by {
                    assert(from.ledger.is_seat(seat));
                    assert(to.ledger.chips_of(seat) == from.ledger.chips_of(seat));
                }
            },
            StateType::Chance => {
                lemma_deal_keeps_order(cfg, from.ledger);
                assert forall|seat: int| line[0].ledger.is_seat(seat) implies #[trigger] to.ledger.chips_of(
                    seat,
                ) == line[0].ledger.chips_of(seat) by {
                    assert(to.ledger.chips_of(seat) == from.ledger.chips_of(seat));
                }
            },
            StateType::Terminal => {},
        }
    }
}

/// In every ledger that a line of play reaches, the bet and the stack of a
/// seat add up to what the seat started the hand with.
pub proof fn lemma_chip_conservation(cfg: &ActionConfig, line: Seq<Outcome>, seat: int)
    requires
        cfg.ladders_wf(),
        line.len() > 0,
        is_line(cfg, line),
        state_ok(line[0].kind, line[0].ledger),
        line[0].ledger.is_seat(seat),
    ensures
        line.last().ledger.bets[seat] + line.last().ledger.stacks[seat] == line[0].ledger.bets[seat]
            + line[0].ledger.stacks[seat],
{
    lemma_line_keeps_order(cfg, line, line.len() - 1);
    assert(line.last().ledger.chips_of(seat) == line[0].ledger.chips_of(seat));
}

/// The legality mask has one slot for the fold, one for the call, one per
/// postflop raise size and one for the all-in; and a seat with chips behind
/// can always fold or call.
pub proof fn lemma_mask_shape(cfg: &ActionConfig, l: Ledger)
    requires
        l.awaits_action(),
    ensures
        legal_mask(cfg, l).len() == 3 + cfg.postflop_raise_sizes@.len(),
        l.to_move_stack() > 0 ==> legal_mask(cfg, l)[0] || legal_mask(cfg, l)[1],
{
    l.lemma_amounts_fit(l.player_to_move);
}

/// The fold's mask entry is set exactly when the biggest bet exceeds the
/// bet of the seat to move.
pub proof fn lemma_fold_mask(cfg: &ActionConfig, l: Ledger)
    ensures
        legal_mask(cfg, l)[0] <==> l.biggest_bet() > l.bets[l.player_to_move],
{
}

/// A raise size of zero is masked out on every ledger.
pub proof fn lemma_disabled_raise_masked(cfg: &ActionConfig, l: Ledger, index: int)
    requires
        0 <= index < cfg.postflop_raise_sizes@.len(),
        raise_sizes(cfg, l)[index].is_disabled(),
    ensures
        !legal_mask(cfg, l)[2 + index],
{
}

/// Once a seat went all-in on the street, the action cap blocks neither
/// raise nor all-in; before that, both are blocked as soon as more than
/// `3 * seats - seats` actions were taken on the street.
pub proof fn lemma_all_in_lifts_cap(cfg: &ActionConfig, l: Ledger, ratio: Ratio)
    ensures
        l.street_has_all_in() ==> (all_in_legal(l) <==> l.to_move_stack() > 0),
        l.street_has_all_in() ==> (raise_legal(cfg, l, ratio) <==> !ratio.is_disabled()
            && raise_amount(l, ratio) >= l.min_raise && raise_bet(l, ratio) < l.to_move_stack()
            && 100 * (l.to_move_stack() - raise_bet(l, ratio)) >= cfg.commitment_floor_x100()),
        !l.street_has_all_in() && l.street_actions() > 3 * l.player_count - l.player_count
            ==> !all_in_legal(l) && !raise_legal(cfg, l, ratio),
{
}

/// What holds of every state of a hand that the tree plays: the state is
/// in order, every seat holds the buy-in between bet and stack, the seat
/// to move has chips, and at least two seats are in while the hand is on.
pub open spec fn hand_inv(cfg: &ActionConfig, kind: StateType, l: Ledger) -> bool {
    &&& state_ok(kind, l)
    &&& l.player_count == cfg.player_count
    &&& l.min_raise >= 1
    &&& forall|seat: int| l.is_seat(seat) ==> #[trigger] l.chips_of(seat) == cfg.buy_in
    &&& kind == StateType::Play ==> l.can_act(l.player_to_move)
    &&& kind != StateType::Terminal ==> l.players_in_hand >= 2
}

/// The chips behind, over all seats.
pub open spec fn stacks_total(l: Ledger) -> int {
    sum_upto(l.stacks, l.player_count)
}

/// The rounds that can still follow, counted twice, and one more while a
/// round is on.
pub open spec fn phase(kind: StateType, l: Ledger) -> int {
    match kind {
        StateType::Play => 2 * (5 - l.street) + 1,
        StateType::Chance => 2 * (5 - l.street),
        StateType::Terminal => 0,
    }
}

/// The seats that may still be asked before the round closes.
pub open spec fn turns_left(kind: StateType, l: Ledger) -> int {
    if kind == StateType::Play {
        l.gap(l.succ(l.player_to_move), l.succ(l.last_player))
    } else {
        0
    }
}

/// Whether a hand at `(kind2, l2)` is nearer its end than one at
/// `(kind1, l1)`: fewer chips behind, or as many and fewer rounds to come,
/// or as many of both and fewer seats to ask.
pub open spec fn nearer_end(kind2: StateType, l2: Ledger, kind1: StateType, l1: Ledger) -> bool {
    let s1 = stacks_total(l1);
    let s2 = stacks_total(l2);
    let p1 = phase(kind1, l1);
    let p2 = phase(kind2, l2);
    &&& 0 <= s2 && 0 <= p2 && 0 <= turns_left(kind2, l2)
    &&& s2 < s1 || (s2 == s1 && (p2 < p1 || (p2 == p1 && turns_left(kind2, l2) < turns_left(
        kind1,
        l1,
    ))))
}

/// In a hand that the tree plays, a legal raise always leaves a seat to act.
pub proof fn lemma_no_dead_end(cfg: &ActionConfig, l: Ledger, ratio: Ratio)
    requires
        hand_inv(cfg, StateType::Play, l),
    ensures
        !raise_is_dead_end(cfg, l, ratio),
{
    let p = l.player_to_move;
    if raise_legal(cfg, l, ratio) {
        l.lemma_amounts_fit(p);
        l.lemma_last_player_before(p);
        lemma_count_upto_clear(l.is_player_in, p, l.player_count);
        let x = lemma_count_upto_witness(l.is_player_in.update(p, false), l.player_count);
        assert(x != p && l.is_player_in[x]);
        if l.stacks[x] == 0 {
            assert(l.chips_of(x) == cfg.buy_in);
            assert(l.chips_of(p) == cfg.buy_in);
            l.lemma_amounts_fit(x);
            assert(false);
        }
        assert(l.can_act(x));
    }
}

/// In a hand that the tree plays, the seat to move can fold or call.
pub proof fn lemma_some_action_is_legal(cfg: &ActionConfig, l: Ledger)
    requires
        hand_inv(cfg, StateType::Play, l),
    ensures
        legal_mask(cfg, l)[0] || legal_mask(cfg, l)[1],
{
    lemma_mask_shape(cfg, l);
}

/// In a hand that the tree plays, every legal action leads to a state of
/// such a hand that is nearer the end.
pub proof fn lemma_action_advances(cfg: &ActionConfig, l: Ledger, slot: int)
    requires
        cfg.wf(),
        hand_inv(cfg, StateType::Play, l),
        0 <= slot < cfg.slot_count(),
        slot_outcome(cfg, l, slot) is Some,
    ensures
        ({
            let o = slot_outcome(cfg, l, slot)->0;
            &&& !is_dead_end(o)
            &&& hand_inv(cfg, o.kind, o.ledger)
            &&& nearer_end(o.kind, o.ledger, StateType::Play, l)
        }),
{
    let o = slot_outcome(cfg, l, slot)->0;
    let p = l.player_to_move;
    l.lemma_amounts_fit(p);
    if 2 <= slot < 2 + cfg.postflop_raise_sizes@.len() {
        lemma_no_dead_end(cfg, l, raise_sizes(cfg, l)[slot - 2]);
    }
    lemma_action_keeps_order(cfg, l, slot);
    crate::game::state_data::lemma_sum_upto_monotonic(o.ledger.stacks, 0, o.ledger.player_count);
    if slot == 0 {
        l.lemma_next_player(l.last_player);
    } else if slot == 1 {
        l.lemma_next_player(l.last_player);
        lemma_commit(l, l.to_call());
    } else if slot < 2 + cfg.postflop_raise_sizes@.len() {
        lemma_commit(l, raise_bet(l, raise_sizes(cfg, l)[slot - 2]));
    } else {
        lemma_commit(l, l.to_move_stack());
    }
}

/// In a hand that the tree plays, the deal leads to a state of such a hand
/// that is nearer the end.
pub proof fn lemma_deal_advances(cfg: &ActionConfig, l: Ledger)
    requires
        cfg.wf(),
        hand_inv(cfg, StateType::Chance, l),
    ensures
        ({
            let o = chance_outcome(cfg, l);
            &&& hand_inv(cfg, o.kind, o.ledger)
            &&& o.kind != StateType::Chance
            &&& nearer_end(o.kind, o.ledger, StateType::Chance, l)
        }),
{
    let o = chance_outcome(cfg, l);
    lemma_deal_keeps_order(cfg, l);
    crate::game::state_data::lemma_sum_upto_monotonic(o.ledger.stacks, 0, o.ledger.player_count);
    assert forall|seat: int| o.ledger.is_seat(seat) implies #[trigger] o.ledger.chips_of(seat)
        == cfg.buy_in by {
        assert(l.chips_of(seat) == cfg.buy_in);
    }
}

} // verus!
