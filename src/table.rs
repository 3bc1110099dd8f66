//! The table: the phases of a hand, the betting sub-round and the showdown.

use vstd::prelude::*;

use crate::actor::Actor;
use crate::card::Card;
use crate::card_stack::{strength, value, CardStack};
use crate::context::{GameContext, GameContextPlayer};
use crate::player::{Player, PlayerAction};

verus! {

/// The phases of a hand, in order; the showdown ends it.
#[derive(Debug, Clone, Copy, PartialEq, Eq, Structural)]
pub enum GameState {
    PreFlop,
    Flop,
    Turn,
    River,
    Showdown,
}

impl GameState {
    pub open spec fn spec_next(self) -> GameState {
        match self {
            GameState::PreFlop => GameState::Flop,
            GameState::Flop => GameState::Turn,
            GameState::Turn => GameState::River,
            GameState::River => GameState::Showdown,
            GameState::Showdown => GameState::Showdown,
        }
    }

    /// The phase that follows this one.
    pub fn next(self) -> (r: GameState)
        ensures
            r == self.spec_next(),
    {
        match self {
            GameState::PreFlop => GameState::Flop,
            GameState::Flop => GameState::Turn,
            GameState::Turn => GameState::River,
            GameState::River => GameState::Showdown,
            GameState::Showdown => GameState::Showdown,
        }
    }
}

/// The deck ran out before the phase's cards were dealt.
#[derive(Debug, Clone, Copy, PartialEq, Eq, Structural)]
pub enum DealError {
    EmptyDeck,
}

/// What the betting sub-round needs next.
#[derive(Debug, Clone, Copy, PartialEq, Eq, Structural)]
pub enum Turn {
    /// Every active player with chips has matched the high bet.
    Settled,
    /// The seat cannot act (folded, out, or all-in) and is passed over.
    Skip(usize),
    /// The seat must decide.
    Act(usize),
}

/// The highest bet among the active players, or zero.
pub open spec fn high_bet(ps: Seq<Player>) -> nat
    decreases ps.len(),
{
    if ps.len() == 0 {
        0
    } else {
        let m = high_bet(ps.drop_last());
        if ps.last().active() && ps.last().bet > m {
            ps.last().bet as nat
        } else {
            m
        }
    }
}

/// The sum of the bets: the pot.
pub open spec fn bets_total(ps: Seq<Player>) -> nat
    decreases ps.len(),
{
    if ps.len() == 0 {
        0
    } else {
        bets_total(ps.drop_last()) + ps.last().bet as nat
    }
}

/// All the chips at the table, in front of the players and in the pot.
pub open spec fn chips_total(ps: Seq<Player>) -> nat
    decreases ps.len(),
{
    if ps.len() == 0 {
        0
    } else {
        chips_total(ps.drop_last()) + ps.last().bet as nat + ps.last().chips as nat
    }
}

/// The sub-round is over: each active player with chips left has matched the
/// high bet (a player who went all-in for less has nothing more to add).
pub open spec fn settled(ps: Seq<Player>) -> bool {
    forall|i: int| 0 <= i < ps.len() && #[trigger] ps[i].can_act() ==> ps[i].bet == high_bet(ps)
}

/// How many players are still at the table.
pub open spec fn seated(ps: Seq<Player>) -> nat
    decreases ps.len(),
{
    if ps.len() == 0 {
        0
    } else {
        seated(ps.drop_last()) + if ps.last().eliminated {
            0nat
        } else {
            1nat
        }
    }
}

/// The strength of a player's hole cards together with the board.
pub open spec fn seat_strength(p: Player, community: Seq<Card>) -> nat {
    strength(p.hand.cards@ + community)
}

proof fn lemma_bets_within(ps: Seq<Player>)
    ensures
        bets_total(ps) <= chips_total(ps),
    decreases ps.len(),
{
    if ps.len() > 0 {
        lemma_bets_within(ps.drop_last());
    }
}

proof fn lemma_total_prefix(ps: Seq<Player>, i: int)
    requires
        0 <= i <= ps.len(),
    ensures
        chips_total(ps.take(i)) <= chips_total(ps),
        bets_total(ps.take(i)) <= bets_total(ps),
        ps.take(i).len() > 0 ==> ps.take(i).drop_last() == ps.take(i - 1),
    decreases ps.len(),
{
    if i < ps.len() {
        assert(ps.take(i) =~= ps.drop_last().take(i));
        lemma_total_prefix(ps.drop_last(), i);
    } else {
        assert(ps.take(i) =~= ps);
    }
    if i > 0 {
        assert(ps.take(i).drop_last() =~= ps.take(i - 1));
    }
}

proof fn lemma_player_within(ps: Seq<Player>, i: int)
    requires
        0 <= i < ps.len(),
    ensures
        ps[i].bet + ps[i].chips <= chips_total(ps),
    decreases ps.len(),
{
    if i < ps.len() - 1 {
        lemma_player_within(ps.drop_last(), i);
    }
}

/// Replacing one player by another with as many chips in all keeps the total.
proof fn lemma_total_update(ps: Seq<Player>, i: int, p: Player)
    requires
        0 <= i < ps.len(),
        p.bet + p.chips == ps[i].bet + ps[i].chips,
    ensures
        chips_total(ps.update(i, p)) == chips_total(ps),
    decreases ps.len(),
{
    let q = ps.update(i, p);
    if i < ps.len() - 1 {
        assert(q.drop_last() =~= ps.drop_last().update(i, p));
        lemma_total_update(ps.drop_last(), i, p);
    } else {
        assert(q.drop_last() =~= ps.drop_last());
    }
}

/// Totals depend on the bets and chips alone.
proof fn lemma_total_same(ps: Seq<Player>, qs: Seq<Player>)
    requires
        ps.len() == qs.len(),
        forall|i: int| 0 <= i < ps.len() ==> (#[trigger] ps[i]).bet == qs[i].bet && ps[i].chips == qs[i].chips,
    ensures
        chips_total(ps) == chips_total(qs),
        bets_total(ps) == bets_total(qs),
    decreases ps.len(),
{
    if ps.len() > 0 {
        lemma_total_same(ps.drop_last(), qs.drop_last());
    }
}

/// Replacing one player changes the total by the difference of their chips in all.
proof fn lemma_total_replace(ps: Seq<Player>, i: int, p: Player)
    requires
        0 <= i < ps.len(),
    ensures
        chips_total(ps.update(i, p)) + ps[i].bet + ps[i].chips == chips_total(ps) + p.bet + p.chips,
    decreases ps.len(),
{
    let q = ps.update(i, p);
    if i < ps.len() - 1 {
        assert(q.drop_last() =~= ps.drop_last().update(i, p));
        lemma_total_replace(ps.drop_last(), i, p);
    } else {
        assert(q.drop_last() =~= ps.drop_last());
    }
}

/// Taking every bet back out of the pot leaves the chips in front of the players.
proof fn lemma_zero_bets(ps: Seq<Player>, qs: Seq<Player>)
    requires
        ps.len() == qs.len(),
        forall|i: int| 0 <= i < ps.len() ==> (#[trigger] qs[i]).bet == 0 && qs[i].chips == ps[i].chips,
    ensures
        chips_total(qs) + bets_total(ps) == chips_total(ps),
    decreases ps.len(),
{
    if ps.len() > 0 {
        lemma_zero_bets(ps.drop_last(), qs.drop_last());
    }
}

/// The top `k` cards of a deck, in the order they are drawn.
pub open spec fn top_cards(d: Seq<Card>, k: nat) -> Seq<Card> {
    Seq::new(k, |t: int| d[d.len() - 1 - t])
}

/// Moves the top `k` cards of the deck to the board, in the order drawn.
fn deal_to_board(deck: &mut CardStack, community: &mut CardStack, k: usize) -> (r: Result<(), DealError>)
    ensures
        old(deck).cards@.len() < k ==> r == Err::<(), DealError>(DealError::EmptyDeck) && *final(deck) == *old(deck)
            && *final(community) == *old(community),
        old(deck).cards@.len() >= k ==> {
            &&& r == Ok::<(), DealError>(())
            &&& final(deck).cards@ == old(deck).cards@.take(old(deck).cards@.len() - k)
            &&& final(community).cards@ == old(community).cards@ + top_cards(old(deck).cards@, k as nat)
        },
        final(deck).max_cards == old(deck).max_cards,
        final(community).max_cards == old(community).max_cards,
{
    if deck.cards.len() < k {
        return Err(DealError::EmptyDeck);
    }
    let ghost d = deck.cards@;
    let ghost b = community.cards@;
    let mut t: usize = 0;
    while t < k
        invariant
            t <= k <= d.len(),
            deck.cards@ == d.take(d.len() - t),
            community.cards@ == b + top_cards(d, t as nat),
            deck.max_cards == old(deck).max_cards,
            community.max_cards == old(community).max_cards,
        decreases k - t,
    {
        let c = deck.pop();
        match c {
            Some(card) => {
                community.push(card);
                assert(community.cards@ =~= b + top_cards(d, t as nat + 1));
            },
            None => {},
        }
        assert(deck.cards@ =~= d.take(d.len() - t - 1));
        t = t + 1;
    }
    Ok(())
}

/// The player has nothing more to add in this sub-round: they cannot act, or
/// their bet is the high bet `h`.
pub open spec fn matched(p: Player, h: nat) -> bool {
    !p.can_act() || p.bet == h
}

/// The `k`-th seat visited when a lap of `n` seats starts at `start`.
pub open spec fn lap_seat(start: int, k: int, n: int) -> int {
    if start + k < n {
        start + k
    } else {
        start + k - n
    }
}

/// `after` follows `before` when the seat is visited and, if it can act,
/// calls or folds.
pub open spec fn call_step(before: Seq<Player>, after: Seq<Player>, seat: int) -> bool {
    &&& after.len() == before.len()
    &&& forall|k: int| 0 <= k < before.len() && k != seat ==> #[trigger] after[k] == before[k]
    &&& before[seat].can_act() ==> {
        ||| before[seat].acted(after[seat], high_bet(before), PlayerAction::Call)
        ||| before[seat].acted(after[seat], high_bet(before), PlayerAction::Fold)
    }
    &&& !before[seat].can_act() ==> after[seat] == before[seat]
}

proof fn lemma_high_bound(ps: Seq<Player>, i: int)
    requires
        0 <= i < ps.len(),
        ps[i].active(),
    ensures
        ps[i].bet <= high_bet(ps),
    decreases ps.len(),
{
    if i < ps.len() - 1 {
        lemma_high_bound(ps.drop_last(), i);
    }
}

proof fn lemma_high_update(ps: Seq<Player>, i: int, q: Player)
    requires
        0 <= i < ps.len(),
        q.active() == ps[i].active(),
        ps[i].bet <= q.bet,
    ensures
        q.active() ==> high_bet(ps.update(i, q)) == if q.bet > high_bet(ps) {
            q.bet as nat
        } else {
            high_bet(ps)
        },
        !q.active() ==> high_bet(ps.update(i, q)) == high_bet(ps),
    decreases ps.len(),
{
    let u = ps.update(i, q);
    if i == ps.len() - 1 {
        assert(u.drop_last() =~= ps.drop_last());
    } else {
        assert(u.drop_last() =~= ps.drop_last().update(i, q));
        lemma_high_update(ps.drop_last(), i, q);
    }
}

/// Replacing a player by one who is out of the hand does not raise the high bet.
proof fn lemma_high_drop(ps: Seq<Player>, i: int, q: Player)
    requires
        0 <= i < ps.len(),
        !q.active(),
    ensures
        high_bet(ps.update(i, q)) <= high_bet(ps),
    decreases ps.len(),
{
    let u = ps.update(i, q);
    if i == ps.len() - 1 {
        assert(u.drop_last() =~= ps.drop_last());
    } else {
        assert(u.drop_last() =~= ps.drop_last().update(i, q));
        lemma_high_drop(ps.drop_last(), i, q);
    }
}

/// A call leaves the high bet where it was, and the caller has then matched
/// it or put in every chip they had.
pub proof fn lemma_call_matches(ps: Seq<Player>, i: int, after: Player)
    requires
        0 <= i < ps.len(),
        ps[i].can_act(),
        ps[i].acted(after, high_bet(ps), PlayerAction::Call),
    ensures
        high_bet(ps.update(i, after)) == high_bet(ps),
        matched(after, high_bet(ps)),
{
    lemma_high_bound(ps, i);
    lemma_high_update(ps, i, after);
}

proof fn lemma_lap_prefix(states: Seq<Seq<Player>>, start: int, k: int)
    requires
        states.len() == states[0].len() + 1,
        states[0].len() > 0,
        0 <= start < states[0].len(),
        0 <= k <= states[0].len(),
        forall|m: int|
            0 <= m < states[0].len() ==> call_step(
                #[trigger] states[m],
                states[m + 1],
                lap_seat(start, m, states[0].len() as int),
            ),
    ensures
        states[k].len() == states[0].len(),
        forall|m: int|
            0 <= m < k ==> matched(
                #[trigger] states[k][lap_seat(start, m, states[0].len() as int)],
                high_bet(states[k]),
            ),
    decreases k,
{
    if k > 0 {
        let n = states[0].len() as int;
        lemma_lap_prefix(states, start, k - 1);
        let before = states[k - 1];
        let after = states[k];
        let seat = lap_seat(start, k - 1, n);
        assert(call_step(before, after, seat));
        assert forall|m: int| 0 <= m < k - 1 implies lap_seat(start, m, n) != seat by {}
        if before[seat].can_act() {
            assert(after =~= before.update(seat, after[seat]));
            if before[seat].acted(after[seat], high_bet(before), PlayerAction::Call) {
                lemma_call_matches(before, seat, after[seat]);
            } else {
                lemma_high_drop(before, seat, after[seat]);
                assert forall|m: int| 0 <= m < k - 1 implies matched(
                    #[trigger] after[lap_seat(start, m, n)],
                    high_bet(after),
                ) by {
                    let x = lap_seat(start, m, n);
                    assert(after[x] == before[x]);
                    if after[x].can_act() {
                        lemma_high_bound(after, x);
                    }
                }
            }
        } else {
            assert(after =~= before);
        }
    }
}

/// A lap in which every seat is visited once and each player who can act
/// calls or folds, raising never, ends the betting sub-round: it is settled
/// after as many turns as there are seats.
pub proof fn lemma_calls_settle(states: Seq<Seq<Player>>, start: int)
    requires
        states.len() == states[0].len() + 1,
        states[0].len() > 0,
        0 <= start < states[0].len(),
        forall|m: int|
            0 <= m < states[0].len() ==> call_step(
                #[trigger] states[m],
                states[m + 1],
                lap_seat(start, m, states[0].len() as int),
            ),
    ensures
        settled(states[states[0].len() as int]),
{
    let n = states[0].len() as int;
    lemma_lap_prefix(states, start, n);
    let last = states[n];
    assert forall|i: int| 0 <= i < last.len() && #[trigger] last[i].can_act() implies last[i].bet
        == high_bet(last) by {
        let m = if i >= start {
            i - start
        } else {
            i + n - start
        };
        assert(lap_seat(start, m, n) == i);
        assert(matched(last[lap_seat(start, m, n)], high_bet(last)));
    }
}

/// `after` follows `before` when the seat is visited and, if it can act, calls.
pub open spec fn calls_step(before: Seq<Player>, after: Seq<Player>, seat: int) -> bool {
    &&& after.len() == before.len()
    &&& forall|k: int| 0 <= k < before.len() && k != seat ==> #[trigger] after[k] == before[k]
    &&& before[seat].can_act() ==> before[seat].acted(after[seat], high_bet(before), PlayerAction::Call)
    &&& !before[seat].can_act() ==> after[seat] == before[seat]
}

proof fn lemma_calls_prefix(states: Seq<Seq<Player>>, start: int, k: int)
    requires
        states.len() == states[0].len() + 1,
        states[0].len() > 0,
        0 <= start < states[0].len(),
        0 <= k <= states[0].len(),
        forall|i: int| 0 <= i < states[0].len() ==> (#[trigger] states[0][i]).active(),
        forall|i: int|
            0 <= i < states[0].len() ==> (#[trigger] states[0][i]).chips + states[0][i].bet
                >= high_bet(states[0]),
        forall|m: int|
            0 <= m < states[0].len() ==> calls_step(
                #[trigger] states[m],
                states[m + 1],
                lap_seat(start, m, states[0].len() as int),
            ),
    ensures
        states[k].len() == states[0].len(),
        high_bet(states[k]) == high_bet(states[0]),
        forall|i: int| 0 <= i < states[0].len() ==> (#[trigger] states[k][i]).active(),
        forall|i: int|
            0 <= i < states[0].len() ==> (#[trigger] states[k][i]).chips + states[k][i].bet
                == states[0][i].chips + states[0][i].bet,
        forall|m: int|
            0 <= m < k ==> (#[trigger] states[k][lap_seat(start, m, states[0].len() as int)]).bet
                == high_bet(states[0]),
        forall|i: int|
            0 <= i < states[0].len() && (forall|m: int| 0 <= m < k ==> lap_seat(start, m, states[0].len() as int) != i)
                ==> #[trigger] states[k][i] == states[0][i],
    decreases k,
{
    if k > 0 {
        let n = states[0].len() as int;
        let h = high_bet(states[0]);
        lemma_calls_prefix(states, start, k - 1);
        let before = states[k - 1];
        let after = states[k];
        let seat = lap_seat(start, k - 1, n);
        assert(calls_step(before, after, seat));
        assert forall|m: int| 0 <= m < k - 1 implies lap_seat(start, m, n) != seat by {}
        assert(before[seat] == states[0][seat]);
        if before[seat].can_act() {
            assert(after =~= before.update(seat, after[seat]));
            lemma_call_matches(before, seat, after[seat]);
        } else {
            assert(after =~= before);
            lemma_high_bound(before, seat);
        }
    }
}

/// When every player is in the hand and has chips enough to call, a lap in
/// which each one who can act calls leaves every bet at the high bet that the
/// lap opened with, within as many turns as there are seats, and nobody folds.
pub proof fn lemma_calls_equalize(states: Seq<Seq<Player>>, start: int)
    requires
        states.len() == states[0].len() + 1,
        states[0].len() > 0,
        0 <= start < states[0].len(),
        forall|i: int| 0 <= i < states[0].len() ==> (#[trigger] states[0][i]).active(),
        forall|i: int|
            0 <= i < states[0].len() ==> (#[trigger] states[0][i]).chips + states[0][i].bet
                >= high_bet(states[0]),
        forall|m: int|
            0 <= m < states[0].len() ==> calls_step(
                #[trigger] states[m],
                states[m + 1],
                lap_seat(start, m, states[0].len() as int),
            ),
    ensures
        forall|i: int|
            0 <= i < states[0].len() ==> (#[trigger] states[states[0].len() as int][i]).bet
                == high_bet(states[0]) && !states[states[0].len() as int][i].folded,
        settled(states[states[0].len() as int]),
{
    let n = states[0].len() as int;
    lemma_calls_prefix(states, start, n);
    let last = states[n];
    assert forall|i: int| 0 <= i < n implies (#[trigger] last[i]).bet == high_bet(states[0])
        && !last[i].folded by {
        let m = if i >= start {
            i - start
        } else {
            i + n - start
        };
        assert(lap_seat(start, m, n) == i);
    }
}

pub struct TexasHoldem {
    pub players: Vec<Player>,
    pub actors: Vec<Actor>,
    pub blinds: usize,
    pub buy_in: usize,
    pub state: GameState,
    pub dealer: usize,
    /// The seat visited last in the current betting sub-round.
    pub turn: usize,
}

impl TexasHoldem {
    /// One actor per player, and every chip countable.
    pub open spec fn wf(&self) -> bool {
        &&& self.actors@.len() == self.players@.len()
        &&& chips_total(self.players@) <= usize::MAX
    }

    pub fn new(players: usize, blinds: usize, buy_in: usize) -> (r: Self)
        ensures
            r.wf(),
            r.players@.len() == 0,
            r.actors@.len() == 0,
            r.blinds == blinds,
            r.buy_in == buy_in,
            r.state == GameState::PreFlop,
            r.dealer == 0,
            r.turn == 0,
    {
        Self {
            players: Vec::with_capacity(players),
            actors: Vec::with_capacity(players),
            blinds,
            buy_in,
            state: GameState::PreFlop,
            dealer: 0,
            turn: 0,
        }
    }

    /// Seats a new player with the buy-in, decided for by `actor`.
    pub fn add_player(&mut self, name: String, actor: Actor)
        requires
            old(self).wf(),
            chips_total(old(self).players@) + old(self).buy_in <= usize::MAX,
        ensures
            final(self).wf(),
            final(self).players@.len() == old(self).players@.len() + 1,
            final(self).players@.drop_last() == old(self).players@,
            final(self).players@.last().name@ == name@,
            final(self).players@.last().chips == old(self).buy_in,
            final(self).players@.last().bet == 0,
            final(self).players@.last().hand.cards@.len() == 0,
            !final(self).players@.last().folded,
            !final(self).players@.last().eliminated,
            final(self).buy_in == old(self).buy_in,
            final(self).blinds == old(self).blinds,
            final(self).state == old(self).state,
            final(self).dealer == old(self).dealer,
            final(self).turn == old(self).turn,
    {
        let p = Player::new(name, self.buy_in);
        self.players.push(p);
        self.actors.push(actor);
        assert(self.players@.drop_last() =~= old(self).players@);
    }

    /// The highest bet among the active players.
    pub fn current_bet(&self) -> (r: usize)
        ensures
            r == high_bet(self.players@),
    {
        let mut m: usize = 0;
        let mut i: usize = 0;
        while i < self.players.len()
            invariant
                i <= self.players@.len(),
                m == high_bet(self.players@.take(i as int)),
            decreases self.players@.len() - i,
        {
            assert(self.players@.take(i as int + 1).drop_last() =~= self.players@.take(i as int));
            let p = &self.players[i];
            if !p.folded && !p.eliminated && p.bet > m {
                m = p.bet;
            }
            i = i + 1;
        }
        assert(self.players@.take(self.players@.len() as int) =~= self.players@);
        m
    }

    /// The pot: every bet of this hand.
    pub fn pot(&self) -> (r: usize)
        requires
            self.wf(),
        ensures
            r == bets_total(self.players@),
    {
        let mut total: usize = 0;
        let mut i: usize = 0;
        while i < self.players.len()
            invariant
                i <= self.players@.len(),
                self.wf(),
                total == bets_total(self.players@.take(i as int)),
            decreases self.players@.len() - i,
        {
            proof {
                lemma_total_prefix(self.players@, i as int + 1);
                lemma_bets_within(self.players@);
            }
            total = total + self.players[i].bet;
            i = i + 1;
        }
        assert(self.players@.take(self.players@.len() as int) =~= self.players@);
        total
    }

    /// Whether the betting sub-round is over.
    pub fn is_settled(&self) -> (r: bool)
        ensures
            r == settled(self.players@),
    {
        let high = self.current_bet();
        let mut i: usize = 0;
        while i < self.players.len()
            invariant
                i <= self.players@.len(),
                high == high_bet(self.players@),
                forall|k: int| 0 <= k < i && #[trigger] self.players@[k].can_act() ==> self.players@[k].bet == high,
            decreases self.players@.len() - i,
        {
            let p = &self.players[i];
            if !p.folded && !p.eliminated && p.chips > 0 && p.bet != high {
                assert(self.players@[i as int].can_act());
                return false;
            }
            i = i + 1;
        }
        true
    }

    /// Starts a betting sub-round: the seat after the dealer acts first. Bets
    /// count for the whole hand and are not reset between phases, so the pot is
    /// always the sum of the bets. As a consequence a sub-round after the flop,
    /// the turn or the river opens already settled, and no one is asked to act,
    /// unless an active player with chips is still short of the high bet.
    pub fn begin_betting(&mut self)
        requires
            old(self).players@.len() > 0,
        ensures
            final(self).turn == old(self).dealer as int % old(self).players@.len() as int,
            final(self).players == old(self).players,
            final(self).actors == old(self).actors,
            final(self).dealer == old(self).dealer,
            final(self).state == old(self).state,
            final(self).blinds == old(self).blinds,
            final(self).buy_in == old(self).buy_in,
    {
        self.turn = self.dealer % self.players.len();
    }

    /// One step of the betting sub-round: over once settled; otherwise the
    /// next seat in rotation, which acts unless it has folded, is out, or is
    /// all-in.
    pub fn next_turn(&mut self) -> (r: Turn)
        requires
            old(self).players@.len() > 0,
            old(self).turn < old(self).players@.len(),
        ensures
            final(self).players == old(self).players,
            final(self).actors == old(self).actors,
            final(self).dealer == old(self).dealer,
            final(self).state == old(self).state,
            final(self).blinds == old(self).blinds,
            final(self).buy_in == old(self).buy_in,
            final(self).turn < final(self).players@.len(),
            settled(old(self).players@) ==> r == Turn::Settled && final(self).turn == old(self).turn,
            !settled(old(self).players@) ==> {
                &&& final(self).turn == (old(self).turn + 1) % (old(self).players@.len() as int)
                &&& r == if old(self).players@[final(self).turn as int].can_act() {
                    Turn::Act(final(self).turn)
                } else {
                    Turn::Skip(final(self).turn)
                }
            },
    {
        if self.is_settled() {
            return Turn::Settled;
        }
        let n = self.players.len();
        assert(self.turn < n);
        self.turn = (self.turn + 1) % n;
        let p = &self.players[self.turn];
        if !p.folded && !p.eliminated && p.chips > 0 {
            Turn::Act(self.turn)
        } else {
            Turn::Skip(self.turn)
        }
    }

    /// Applies the decision of the player in `seat`, against the high bet.
    pub fn apply(&mut self, seat: usize, action: PlayerAction)
        requires
            old(self).wf(),
            seat < old(self).players@.len(),
        ensures
            final(self).wf(),
            final(self).players@.len() == old(self).players@.len(),
            final(self).players@ == old(self).players@.update(seat as int, final(self).players@[seat as int]),
            old(self).players@[seat as int].acted(
                final(self).players@[seat as int],
                high_bet(old(self).players@),
                action,
            ),
            chips_total(final(self).players@) == chips_total(old(self).players@),
            final(self).actors == old(self).actors,
            final(self).dealer == old(self).dealer,
            final(self).turn == old(self).turn,
            final(self).state == old(self).state,
            final(self).blinds == old(self).blinds,
            final(self).buy_in == old(self).buy_in,
    {
        let cur = self.current_bet();
        proof {
            lemma_player_within(self.players@, seat as int);
        }
        let mut p = self.players.remove(seat);
        p.act(cur, action);
        self.players.insert(seat, p);
        proof {
            assert(self.players@ =~= old(self).players@.update(seat as int, p));
            lemma_total_update(old(self).players@, seat as int, p);
        }
    }
    /// What the player in `seat` sees: pot, high bet, what a call costs, the
    /// least raise (twice the high bet), the board, their own cards and chips,
    /// and of everyone only chips, whether they are out, and their bets.
    pub fn context(&self, seat: usize, community: &CardStack) -> (r: GameContext)
        requires
            self.wf(),
            seat < self.players@.len(),
        ensures
            r.pot == bets_total(self.players@),
            r.current_bet == high_bet(self.players@),
            r.call_amount == if high_bet(self.players@) > self.players@[seat as int].bet {
                high_bet(self.players@) - self.players@[seat as int].bet
            } else {
                0int
            },
            r.min_raise == if 2 * high_bet(self.players@) <= usize::MAX {
                2 * high_bet(self.players@) as int
            } else {
                usize::MAX as int
            },
            r.side_pots@.len() == 0,
            r.community.cards@ == community.cards@,
            r.hand.cards@ == self.players@[seat as int].hand.cards@,
            r.chips == self.players@[seat as int].chips,
            r.contribution == self.players@[seat as int].bet,
            r.players@.len() == self.players@.len(),
            forall|i: int|
                0 <= i < self.players@.len() ==> {
                    &&& (#[trigger] r.players@[i]).chips == self.players@[i].chips
                    &&& r.players@[i].eliminated == self.players@[i].eliminated
                    &&& r.players@[i].hand.cards@ == seq![0u32, 0u32]
                },
            r.player_contributions@.len() == self.players@.len(),
            forall|i: int|
                0 <= i < self.players@.len() ==> #[trigger] r.player_contributions@[i]
                    == self.players@[i].bet,
    {
        let pot = self.pot();
        let high = self.current_bet();
        let me = &self.players[seat];
        let call_amount = if high > me.bet {
            high - me.bet
        } else {
            0
        };
        let min_raise = if high <= usize::MAX / 2 {
            2 * high
        } else {
            usize::MAX
        };
        let mut views: Vec<GameContextPlayer> = Vec::new();
        let mut bets: Vec<usize> = Vec::new();
        let mut i: usize = 0;
        while i < self.players.len()
            invariant
                i <= self.players@.len(),
                views@.len() == i,
                bets@.len() == i,
                forall|k: int|
                    0 <= k < i ==> {
                        &&& (#[trigger] views@[k]).chips == self.players@[k].chips
                        &&& views@[k].eliminated == self.players@[k].eliminated
                        &&& views@[k].hand.cards@ == seq![0u32, 0u32]
                    },
                forall|k: int| 0 <= k < i ==> #[trigger] bets@[k] == self.players@[k].bet,
            decreases self.players@.len() - i,
        {
            views.push(GameContextPlayer::of(&self.players[i]));
            bets.push(self.players[i].bet);
            i = i + 1;
        }
        GameContext {
            pot,
            current_bet: high,
            call_amount,
            min_raise,
            side_pots: Vec::new(),
            community: CardStack { max_cards: community.max_cards, cards: community.cards.clone() },
            hand: CardStack { max_cards: me.hand.max_cards, cards: me.hand.cards.clone() },
            chips: me.chips,
            contribution: me.bet,
            players: views,
            player_contributions: bets,
        }
    }

    /// Makes the player in `seat` put `amount` more in, or all their chips
    /// where they do not exceed it.
    fn pay_seat(&mut self, seat: usize, amount: usize)
        requires
            old(self).wf(),
            seat < old(self).players@.len(),
        ensures
            final(self).wf(),
            final(self).players@ == old(self).players@.update(seat as int, final(self).players@[seat as int]),
            final(self).players@[seat as int].bet == old(self).players@[seat as int].bet
                + old(self).players@[seat as int].paid(amount as nat),
            final(self).players@[seat as int].chips == old(self).players@[seat as int].chips
                - old(self).players@[seat as int].paid(amount as nat),
            final(self).players@[seat as int].folded == old(self).players@[seat as int].folded,
            final(self).players@[seat as int].eliminated == old(self).players@[seat as int].eliminated,
            final(self).players@[seat as int].hand == old(self).players@[seat as int].hand,
            chips_total(final(self).players@) == chips_total(old(self).players@),
            final(self).actors == old(self).actors,
            final(self).dealer == old(self).dealer,
            final(self).turn == old(self).turn,
            final(self).state == old(self).state,
            final(self).blinds == old(self).blinds,
            final(self).buy_in == old(self).buy_in,
    {
        proof {
            lemma_player_within(self.players@, seat as int);
        }
        let mut p = self.players.remove(seat);
        p.pay(amount);
        self.players.insert(seat, p);
        proof {
            assert(self.players@ =~= old(self).players@.update(seat as int, p));
            lemma_total_update(old(self).players@, seat as int, p);
        }
    }

    /// The two seats after the dealer post the small blind (half the blinds)
    /// and the big blind, each capped by their chips.
    pub fn post_blinds(&mut self)
        requires
            old(self).wf(),
            old(self).players@.len() >= 2,
        ensures
            final(self).wf(),
            final(self).players@.len() == old(self).players@.len(),
            chips_total(final(self).players@) == chips_total(old(self).players@),
            ({
                let n = old(self).players@.len() as int;
                let small = (old(self).dealer + 1) % n;
                let big = (old(self).dealer + 2) % n;
                &&& final(self).players@[small].bet == old(self).players@[small].bet
                    + old(self).players@[small].paid((old(self).blinds / 2) as nat)
                &&& final(self).players@[big].bet == old(self).players@[big].bet
                    + old(self).players@[big].paid(old(self).blinds as nat)
                &&& forall|i: int|
                    0 <= i < n && i != small && i != big ==> #[trigger] final(self).players@[i]
                        == old(self).players@[i]
            }),
            final(self).actors == old(self).actors,
            final(self).dealer == old(self).dealer,
            final(self).turn == old(self).turn,
            final(self).state == old(self).state,
            final(self).blinds == old(self).blinds,
            final(self).buy_in == old(self).buy_in,
    {
        let n = self.players.len();
        let small = ((self.dealer % n) + 1) % n;
        let big = (small + 1) % n;
        proof {
            let d = self.dealer as int;
            let m = n as int;
            vstd::arithmetic::div_mod::lemma_add_mod_noop(d, 1, m);
            vstd::arithmetic::div_mod::lemma_add_mod_noop(d + 1, 1, m);
            vstd::arithmetic::div_mod::lemma_mod_twice(d, m);
            vstd::arithmetic::div_mod::lemma_small_mod(1, m as nat);
            assert(small as int == (d + 1) % m);
            assert(big as int == (d + 2) % m);
            if small + 1 < n {
                vstd::arithmetic::div_mod::lemma_small_mod((small + 1) as nat, m as nat);
            } else {
                vstd::arithmetic::div_mod::lemma_mod_self_0(m);
                assert(big == 0);
            }
            assert(small != big);
        }
        self.pay_seat(small, self.blinds / 2);
        self.pay_seat(big, self.blinds);
    }

    /// The game is over once at most one player is left at the table.
    pub fn game_over(&self) -> (r: bool)
        ensures
            r == (seated(self.players@) <= 1),
    {
        self.remaining() <= 1
    }

    /// How many players are still at the table.
    pub fn remaining(&self) -> (r: usize)
        ensures
            r == seated(self.players@),
    {
        let mut count: usize = 0;
        let mut i: usize = 0;
        while i < self.players.len()
            invariant
                i <= self.players@.len(),
                count <= i,
                count == seated(self.players@.take(i as int)),
            decreases self.players@.len() - i,
        {
            assert(self.players@.take(i as int + 1).drop_last() =~= self.players@.take(i as int));
            if !self.players[i].eliminated {
                count = count + 1;
            }
            i = i + 1;
        }
        assert(self.players@.take(self.players@.len() as int) =~= self.players@);
        count
    }
    /// Gives each player, seat by seat, the next card of the deck.
    fn deal_round(&mut self, deck: &mut CardStack)
        requires
            old(self).wf(),
            old(deck).cards@.len() >= old(self).players@.len(),
        ensures
            final(self).wf(),
            final(self).players@.len() == old(self).players@.len(),
            final(deck).cards@ == old(deck).cards@.take(old(deck).cards@.len() - old(self).players@.len()),
            final(deck).max_cards == old(deck).max_cards,
            forall|i: int|
                0 <= i < old(self).players@.len() ==> {
                    let (p, q) = (old(self).players@[i], #[trigger] final(self).players@[i]);
                    &&& q.hand.cards@ == p.hand.cards@.push(old(deck).cards@[old(deck).cards@.len() - 1 - i])
                    &&& q.hand.max_cards == p.hand.max_cards
                    &&& q.name == p.name
                    &&& q.chips == p.chips
                    &&& q.bet == p.bet
                    &&& q.folded == p.folded
                    &&& q.eliminated == p.eliminated
                },
            final(self).actors == old(self).actors,
            final(self).dealer == old(self).dealer,
            final(self).turn == old(self).turn,
            final(self).state == old(self).state,
            final(self).blinds == old(self).blinds,
            final(self).buy_in == old(self).buy_in,
    {
        let ghost d = deck.cards@;
        let ghost ps = self.players@;
        let mut i: usize = 0;
        while i < self.players.len()
            invariant
                i <= ps.len() <= d.len(),
                self.players@.len() == ps.len(),
                self.actors == old(self).actors,
                self.dealer == old(self).dealer,
                self.turn == old(self).turn,
                self.state == old(self).state,
                self.blinds == old(self).blinds,
                self.buy_in == old(self).buy_in,
                deck.cards@ == d.take(d.len() - i),
                deck.max_cards == old(deck).max_cards,
                forall|k: int|
                    0 <= k < ps.len() ==> {
                        let (p, q) = (ps[k], #[trigger] self.players@[k]);
                        &&& q.hand.cards@ == if k < i {
                            p.hand.cards@.push(d[d.len() - 1 - k])
                        } else {
                            p.hand.cards@
                        }
                        &&& q.hand.max_cards == p.hand.max_cards
                        &&& q.name == p.name
                        &&& q.chips == p.chips
                        &&& q.bet == p.bet
                        &&& q.folded == p.folded
                        &&& q.eliminated == p.eliminated
                    },
            decreases ps.len() - i,
        {
            let c = deck.pop();
            assert(deck.cards@ =~= d.take(d.len() - i - 1));
            match c {
                Some(card) => {
                    let mut p = self.players.remove(i);
                    p.hand.push(card);
                    self.players.insert(i, p);
                },
                None => {},
            }
            i = i + 1;
        }
        proof {
            lemma_total_same(self.players@, ps);
        }
    }

    /// Deals what the current phase calls for and moves to the next phase:
    /// two cards to each player before the flop, three to the board at the
    /// flop, one at the turn and one at the river, nothing at the showdown. A
    /// deck too short for the phase changes nothing and is an error.
    pub fn deal(&mut self, deck: &mut CardStack, community: &mut CardStack) -> (r: Result<(), DealError>)
        requires
            old(self).wf(),
        ensures
            final(self).wf(),
            final(self).players@.len() == old(self).players@.len(),
            final(self).actors == old(self).actors,
            final(self).dealer == old(self).dealer,
            final(self).turn == old(self).turn,
            final(self).blinds == old(self).blinds,
            final(self).buy_in == old(self).buy_in,
            final(deck).max_cards == old(deck).max_cards,
            final(community).max_cards == old(community).max_cards,
            ({
                let n = old(self).players@.len();
                let d = old(deck).cards@;
                let need: nat = match old(self).state {
                    GameState::PreFlop => 2 * n,
                    GameState::Flop => 3,
                    GameState::Turn => 1,
                    GameState::River => 1,
                    GameState::Showdown => 0,
                };
                &&& d.len() < need ==> {
                    &&& r == Err::<(), DealError>(DealError::EmptyDeck)
                    &&& *final(deck) == *old(deck)
                    &&& *final(community) == *old(community)
                    &&& final(self).players == old(self).players
                    &&& final(self).state == old(self).state
                }
                &&& d.len() >= need ==> {
                    &&& r == Ok::<(), DealError>(())
                    &&& final(self).state == old(self).state.spec_next()
                    &&& final(deck).cards@ == d.take(d.len() - need)
                    &&& old(self).state == GameState::PreFlop ==> {
                        &&& final(community).cards@ == old(community).cards@
                        &&& forall|i: int|
                            0 <= i < n ==> {
                                let (p, q) = (old(self).players@[i], #[trigger] final(self).players@[i]);
                                &&& q.hand.cards@ == p.hand.cards@.push(d[d.len() - 1 - i]).push(
                                    d[d.len() - 1 - n - i],
                                )
                                &&& q.name == p.name
                                &&& q.chips == p.chips
                                &&& q.bet == p.bet
                                &&& q.folded == p.folded
                                &&& q.eliminated == p.eliminated
                            }
                    }
                    &&& old(self).state != GameState::PreFlop ==> {
                        &&& final(community).cards@ == old(community).cards@ + top_cards(d, need)
                        &&& final(self).players == old(self).players
                    }
                }
            }),
    {
        match self.state {
            GameState::PreFlop => {
                let n = self.players.len();
                if deck.cards.len() / 2 < n {
                    return Err(DealError::EmptyDeck);
                }
                let ghost d = deck.cards@;
                self.deal_round(deck);
                self.deal_round(deck);
                assert(deck.cards@ =~= d.take(d.len() - 2 * n));
            },
            GameState::Flop => {
                let r = deal_to_board(deck, community, 3);
                if r.is_err() {
                    return r;
                }
            },
            GameState::Turn | GameState::River => {
                let r = deal_to_board(deck, community, 1);
                if r.is_err() {
                    return r;
                }
            },
            GameState::Showdown => {
                assert(deck.cards@ =~= deck.cards@.take(deck.cards@.len() as int));
                assert(community.cards@ =~= community.cards@ + top_cards(deck.cards@, 0));
            },
        }
        self.state = self.state.next();
        Ok(())
    }
    /// Settles the hand: of the active players, the one whose hole cards with
    /// the board are the strongest wins the pot (on a tie, the lowest seat), and
    /// every bet is cleared. Without an active player nothing changes. Each
    /// active player's strength must fit in a `u32`; `checked_value` tells.
    pub fn showdown(&mut self, community: &CardStack) -> (r: Option<usize>)
        requires
            old(self).wf(),
            forall|i: int|
                0 <= i < old(self).players@.len() && (#[trigger] old(self).players@[i]).active()
                    ==> seat_strength(old(self).players@[i], community.cards@) <= u32::MAX,
        ensures
            final(self).wf(),
            final(self).players@.len() == old(self).players@.len(),
            chips_total(final(self).players@) == chips_total(old(self).players@),
            final(self).actors == old(self).actors,
            final(self).dealer == old(self).dealer,
            final(self).turn == old(self).turn,
            final(self).state == old(self).state,
            final(self).blinds == old(self).blinds,
            final(self).buy_in == old(self).buy_in,
            r.is_none() <==> forall|i: int|
                0 <= i < old(self).players@.len() ==> !(#[trigger] old(self).players@[i]).active(),
            r.is_none() ==> final(self).players == old(self).players,
            r matches Some(w) ==> {
                let ps = old(self).players@;
                let c = community.cards@;
                &&& w < ps.len()
                &&& ps[w as int].active()
                &&& forall|i: int|
                    0 <= i < ps.len() && (#[trigger] ps[i]).active() ==> seat_strength(ps[i], c)
                        <= seat_strength(ps[w as int], c)
                &&& forall|i: int|
                    0 <= i < w && (#[trigger] ps[i]).active() ==> seat_strength(ps[i], c)
                        < seat_strength(ps[w as int], c)
                &&& forall|i: int|
                    0 <= i < ps.len() ==> {
                        let q = #[trigger] final(self).players@[i];
                        &&& q.bet == 0
                        &&& q.chips == ps[i].chips + if i == w {
                            bets_total(ps)
                        } else {
                            0
                        }
                        &&& q.name == ps[i].name
                        &&& q.hand == ps[i].hand
                        &&& q.folded == ps[i].folded
                        &&& q.eliminated == ps[i].eliminated
                    }
            },
    {
        let ghost ps = self.players@;
        let ghost c = community.cards@;
        let mut best: Option<usize> = None;
        let mut best_strength: u32 = 0;
        let mut i: usize = 0;
        while i < self.players.len()
            invariant
                i <= ps.len(),
                self.players@ == ps,
                community.cards@ == c,
                forall|k: int|
                    0 <= k < ps.len() && (#[trigger] ps[k]).active() ==> seat_strength(ps[k], c)
                        <= u32::MAX,
                best.is_none() ==> forall|k: int| 0 <= k < i ==> !(#[trigger] ps[k]).active(),
                best matches Some(w) ==> {
                    &&& w < i
                    &&& ps[w as int].active()
                    &&& best_strength == seat_strength(ps[w as int], c)
                    &&& forall|k: int|
                        0 <= k < i && (#[trigger] ps[k]).active() ==> seat_strength(ps[k], c)
                            <= best_strength
                    &&& forall|k: int|
                        0 <= k < w && (#[trigger] ps[k]).active() ==> seat_strength(ps[k], c)
                            < best_strength
                },
            decreases ps.len() - i,
        {
            let p = &self.players[i];
            if !p.folded && !p.eliminated {
                let mut combined = p.hand.cards.clone();
                let mut board = community.cards.clone();
                combined.append(&mut board);
                assert(combined@ =~= ps[i as int].hand.cards@ + c);
                let strength_here = value(&combined);
                if best.is_none() || strength_here > best_strength {
                    best = Some(i);
                    best_strength = strength_here;
                }
            }
            i = i + 1;
        }
        let w = match best {
            None => {
                return None;
            },
            Some(w) => w,
        };
        let pot = self.pot();
        let mut j: usize = 0;
        while j < self.players.len()
            invariant
                j <= ps.len(),
                w < ps.len(),
                pot == bets_total(ps),
                self.players@.len() == ps.len(),
                self.actors == old(self).actors,
                self.dealer == old(self).dealer,
                self.turn == old(self).turn,
                self.state == old(self).state,
                self.blinds == old(self).blinds,
                self.buy_in == old(self).buy_in,
                forall|k: int|
                    0 <= k < ps.len() ==> {
                        let q = #[trigger] self.players@[k];
                        &&& q.bet == if k < j {
                            0
                        } else {
                            ps[k].bet
                        }
                        &&& q.chips == ps[k].chips
                        &&& q.name == ps[k].name
                        &&& q.hand == ps[k].hand
                        &&& q.folded == ps[k].folded
                        &&& q.eliminated == ps[k].eliminated
                    },
            decreases ps.len() - j,
        {
            let mut p = self.players.remove(j);
            p.bet = 0;
            self.players.insert(j, p);
            j = j + 1;
        }
        proof {
            lemma_zero_bets(ps, self.players@);
            lemma_player_within(self.players@, w as int);
        }
        let ghost zeroed = self.players@;
        let mut p = self.players.remove(w);
        p.chips = p.chips + pot;
        self.players.insert(w, p);
        proof {
            assert(self.players@ =~= zeroed.update(w as int, p));
            lemma_total_replace(zeroed, w as int, p);
        }
        Some(w)
    }

    /// Ends the hand: everyone takes part again with empty hole cards, those
    /// without chips leave the table for good, and the dealer button moves on
    /// one seat.
    pub fn end_hand(&mut self)
        requires
            old(self).wf(),
            old(self).players@.len() > 0,
        ensures
            final(self).wf(),
            final(self).players@.len() == old(self).players@.len(),
            forall|i: int|
                0 <= i < old(self).players@.len() ==> {
                    let (p, q) = (old(self).players@[i], #[trigger] final(self).players@[i]);
                    &&& q.name == p.name
                    &&& q.chips == p.chips
                    &&& q.bet == p.bet
                    &&& !q.folded
                    &&& q.eliminated == (p.eliminated || p.chips == 0)
                    &&& q.hand.cards@.len() == 0
                },
            final(self).state == GameState::PreFlop,
            final(self).dealer == (old(self).dealer + 1) % (old(self).players@.len() as int),
            final(self).actors == old(self).actors,
            final(self).turn == old(self).turn,
            final(self).blinds == old(self).blinds,
            final(self).buy_in == old(self).buy_in,
    {
        let ghost ps = self.players@;
        let mut j: usize = 0;
        while j < self.players.len()
            invariant
                j <= ps.len(),
                self.players@.len() == ps.len(),
                self.actors == old(self).actors,
                self.dealer == old(self).dealer,
                self.turn == old(self).turn,
                self.blinds == old(self).blinds,
                self.buy_in == old(self).buy_in,
                forall|k: int|
                    0 <= k < ps.len() ==> {
                        let (p, q) = (ps[k], #[trigger] self.players@[k]);
                        &&& q.name == p.name
                        &&& q.chips == p.chips
                        &&& q.bet == p.bet
                        &&& k < j ==> !q.folded && q.eliminated == (p.eliminated || p.chips == 0)
                            && q.hand.cards@.len() == 0
                        &&& k >= j ==> q == p
                    },
            decreases ps.len() - j,
        {
            let mut p = self.players.remove(j);
            p.folded = false;
            p.eliminated = p.eliminated || p.chips == 0;
            p.hand = CardStack::new(2);
            self.players.insert(j, p);
            j = j + 1;
        }
        proof {
            lemma_total_same(self.players@, ps);
        }
        self.state = GameState::PreFlop;
        let n = self.players.len();
        self.dealer = ((self.dealer % n) + 1) % n;
        proof {
            let d = old(self).dealer as int;
            let m = n as int;
            vstd::arithmetic::div_mod::lemma_add_mod_noop(d, 1, m);
            vstd::arithmetic::div_mod::lemma_mod_twice(d, m);
            if m > 1 {
                vstd::arithmetic::div_mod::lemma_small_mod(1, m as nat);
            }
        }
    }
}

} // verus!
