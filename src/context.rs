//! The read-only snapshot that a player decides on.

use vstd::prelude::*;

use crate::card::{Card, CONCEALED};
use crate::card_stack::CardStack;
use crate::player::Player;

verus! {

/// What everyone may see of a player: chips and whether they are out, with
/// the hole cards concealed.
pub struct GameContextPlayer {
    pub chips: usize,
    pub hand: CardStack,
    pub eliminated: bool,
}

impl GameContextPlayer {
    pub fn of(p: &Player) -> (r: GameContextPlayer)
        ensures
            r.chips == p.chips,
            r.eliminated == p.eliminated,
            r.hand.cards@ == seq![CONCEALED, CONCEALED],
            r.hand.max_cards == 2,
    {
        let mut hidden: Vec<Card> = Vec::new();
        hidden.push(CONCEALED);
        hidden.push(CONCEALED);
        assert(hidden@ =~= seq![CONCEALED, CONCEALED]);
        GameContextPlayer { chips: p.chips, hand: CardStack { max_cards: 2, cards: hidden }, eliminated: p.eliminated }
    }
}

/// The state of the table as one player sees it when it is their turn.
pub struct GameContext {
    pub pot: usize,
    pub current_bet: usize,
    pub call_amount: usize,
    pub min_raise: usize,
    pub side_pots: Vec<usize>,
    pub community: CardStack,
    pub hand: CardStack,
    pub chips: usize,
    pub contribution: usize,
    pub players: Vec<GameContextPlayer>,
    pub player_contributions: Vec<usize>,
}

} // verus!
