//! The poker variants that a table may be set up for.

use vstd::prelude::*;

verus! {

#[derive(Debug, Clone, Copy, PartialEq, Eq, Structural)]
pub enum GameType {
    TexasHoldem,
    Omaha,
    FiveCardDraw,
    SevenCardStud,
    FiveCardStud,
    Razz,
    Pineapple,
    CrazyPineapple,
    OmahaHiLo,
    Courchevel,
    DoubleBoardOmaha,
    Irish,
    Badugi,
    TripleDraw,
    SingleDraw,
    TripleStud,
    DoubleStud,
    EightGame,
    Horse,
    DealerChoice,
}

} // verus!
