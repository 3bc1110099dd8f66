//! A Texas Hold'em table: bit-packed cards, hand evaluation, and the betting
//! state machine that drives a hand from the deal to the showdown.

pub mod actor;
pub mod card;
pub mod card_stack;
pub mod context;
pub mod hand_order;
pub mod player;
pub mod settings;
pub mod table;
