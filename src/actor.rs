//! The players' decision makers: bots decide here, a person at the terminal
//! decides outside the library.

use vstd::prelude::*;

use crate::context::GameContext;
use crate::player::PlayerAction;

verus! {

/// A decision maker that sees a snapshot of the table.
pub trait Actionable {
    fn action(&self, game: &GameContext) -> PlayerAction;

    fn name(&self) -> String;
}

/// The person at the terminal, whose decisions come from outside.
pub struct LocalPlayer;

/// A bot that calls or checks while it has put nothing in yet or has matched
/// the high bet, and folds otherwise.
pub struct NPC {
    name: String,
}

impl NPC {
    pub closed spec fn spec_name(&self) -> Seq<char> {
        self.name@
    }

    pub fn new(name: String) -> (r: Self)
        ensures
            r.spec_name() == name@,
    {
        Self { name }
    }

    pub fn decide(&self, game: &GameContext) -> (r: PlayerAction)
        ensures
            r == if game.contribution == 0 || game.contribution == game.current_bet {
                PlayerAction::Call
            } else {
                PlayerAction::Fold
            },
    {
        if game.contribution == 0 || game.contribution == game.current_bet {
            PlayerAction::Call
        } else {
            PlayerAction::Fold
        }
    }
}

impl Actionable for NPC {
    fn action(&self, game: &GameContext) -> PlayerAction {
        self.decide(game)
    }

    fn name(&self) -> String {
        self.name.clone()
    }
}

/// Who sits in a seat: a bot, or the person at the terminal.
pub enum Actor {
    Npc(NPC),
    Local(LocalPlayer),
}

impl Actor {
    /// The decision that the library can make itself: a bot's; none for the
    /// person at the terminal, who must be asked.
    pub fn decide(&self, game: &GameContext) -> (r: Option<PlayerAction>)
        ensures
            match self {
                Actor::Npc(n) => r == Some(
                    if game.contribution == 0 || game.contribution == game.current_bet {
                        PlayerAction::Call
                    } else {
                        PlayerAction::Fold
                    },
                ),
                Actor::Local(_) => r.is_none(),
            },
    {
        match self {
            Actor::Npc(n) => Some(n.decide(game)),
            Actor::Local(_) => None,
        }
    }
}

} // verus!
