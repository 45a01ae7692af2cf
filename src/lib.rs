//! A poker table engine: cards, a hand evaluator that maps hole and
//! community cards to a totally ordered score, a betting-street state
//! machine, and the round bookkeeping around them.
pub mod card;
pub mod evaluator;
pub mod player;
pub mod poker_game;
pub mod betting;
