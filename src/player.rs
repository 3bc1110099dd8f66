//! A seat at the table and what one decision does to it.

use vstd::prelude::*;

use crate::card_stack::CardStack;

verus! {

/// What a player decides when it is their turn.
#[derive(Debug, Clone, Copy, PartialEq, Eq, Structural)]
pub enum PlayerAction {
    Call,
    Raise(usize),
    Fold,
}

#[derive(Debug, Clone)]
pub struct Player {
    pub name: String,
    pub eliminated: bool,
    pub hand: CardStack,
    pub chips: usize,
    pub folded: bool,
    /// What the player has put into the pot during this hand.
    pub bet: usize,
}

impl Player {
    pub fn new(name: String, chips: usize) -> (r: Player)
        ensures
            r.name@ == name@,
            r.hand.cards@ == Seq::<u32>::empty(),
            r.hand.max_cards == 0,
            !r.eliminated,
            !r.folded,
            r.chips == chips,
            r.bet == 0,
    {
        Player { name, hand: CardStack::new(0), eliminated: false, chips, folded: false, bet: 0 }
    }

    /// Still in this hand and at the table.
    pub open spec fn active(self) -> bool {
        !self.folded && !self.eliminated
    }

    /// Active, with chips left to bet.
    pub open spec fn can_act(self) -> bool {
        self.active() && self.chips > 0
    }

    /// How much `amount` adds to the bet: all the chips where they do not
    /// exceed it (all-in), else `amount` itself.
    pub open spec fn paid(self, amount: nat) -> nat {
        if self.chips <= amount {
            self.chips as nat
        } else {
            amount
        }
    }

    /// Puts `amount` more into the pot, or all the chips where they do not
    /// exceed it.
    pub fn pay(&mut self, amount: usize)
        requires
            old(self).bet + old(self).chips <= usize::MAX,
        ensures
            final(self).bet == old(self).bet + old(self).paid(amount as nat),
            final(self).chips == old(self).chips - old(self).paid(amount as nat),
            final(self).name == old(self).name,
            final(self).hand == old(self).hand,
            final(self).eliminated == old(self).eliminated,
            final(self).folded == old(self).folded,
    {
        if self.chips <= amount {
            self.bet = self.bet + self.chips;
            self.chips = 0;
        } else {
            self.bet = self.bet + amount;
            self.chips = self.chips - amount;
        }
    }

    /// `after` is this player once `action` has been applied while the
    /// table's high bet is `current_bet`.
    pub open spec fn acted(self, after: Player, current_bet: nat, action: PlayerAction) -> bool {
        &&& after.name == self.name
        &&& after.hand == self.hand
        &&& after.eliminated == self.eliminated
        &&& after.bet + after.chips == self.bet + self.chips
        &&& match action {
            PlayerAction::Call => {
                let need: nat = if current_bet > self.bet {
                    (current_bet - self.bet) as nat
                } else {
                    0
                };
                &&& after.bet == self.bet + self.paid(need)
                &&& after.folded == self.folded
            },
            PlayerAction::Raise(amount) => {
                &&& after.bet == self.bet + self.paid(amount as nat)
                &&& after.folded == self.folded
            },
            PlayerAction::Fold => {
                &&& after.bet == self.bet
                &&& after.chips == self.chips
                &&& after.folded
            },
        }
    }

    /// Applies one decision while the table's high bet is `current_bet`. A call
    /// brings the bet up to the high bet, a raise adds its amount; either one
    /// that the chips cannot cover puts all of them in. A fold leaves the hand.
    pub fn act(&mut self, current_bet: usize, action: PlayerAction)
        requires
            old(self).bet + old(self).chips <= usize::MAX,
        ensures
            old(self).acted(*final(self), current_bet as nat, action),
    {
        match action {
            PlayerAction::Call => {
                let need = if current_bet > self.bet {
                    current_bet - self.bet
                } else {
                    0
                };
                self.pay(need);
            },
            PlayerAction::Raise(amount) => {
                self.pay(amount);
            },
            PlayerAction::Fold => {
                self.folded = true;
            },
        }
    }
}


/// A call that the chips cannot cover puts all of them in: none are left, and
/// the bet grows by exactly what the player had.
pub proof fn lemma_all_in_call(p: Player, after: Player, current_bet: nat)
    requires
        p.acted(after, current_bet, PlayerAction::Call),
        p.bet + p.chips < current_bet,
    ensures
        after.chips == 0,
        after.bet == p.bet + p.chips,
{
}

} // verus!
