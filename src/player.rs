use vstd::prelude::*;
use crate::card::Card;

verus! {

/// A seat at the table.
#[derive(Debug, Clone)]
pub struct Player {
    pub name: String,
    pub chips: u32,
    pub hand: Vec<Card>,
    pub is_human: bool,
    pub is_active: bool,
    pub current_bet: u32,
}

impl Player {
    /// A player with 100 chips, no cards, in the hand and with nothing bet.
    pub fn new(name: String, is_human: bool) -> (r: Self)
        ensures
            r.name == name,
            r.chips == 100,
            r.hand@.len() == 0,
            r.is_human == is_human,
            r.is_active,
            r.current_bet == 0,
    {
        Self { name, chips: 100, hand: Vec::new(), is_human, is_active: true, current_bet: 0 }
    }
}

} // verus!
