use vstd::prelude::*;
use vstd::string::StrSliceExecFns;
use vstd::string::StringExecFns;

verus! {

/// The four suits of a standard deck.
#[derive(Debug, Clone, Copy, PartialEq, Eq, Structural, PartialOrd, Ord, Hash)]
pub enum Suit {
    Hearts,
    Spades,
    Diamonds,
    Clubs,
}

/// A playing card: a rank written as text ("2".."10", "J", "Q", "K", "A") and a suit.
#[derive(Debug, Clone, PartialEq, Eq, PartialOrd, Ord)]
pub struct Card {
    pub rank: String,
    pub suit: Suit,
}

/// The value of a one-character rank name.
pub open spec fn rank_char_value(c: char) -> u32 {
    match c {
        '2' => 2,
        '3' => 3,
        '4' => 4,
        '5' => 5,
        '6' => 6,
        '7' => 7,
        '8' => 8,
        '9' => 9,
        'J' => 11,
        'Q' => 12,
        'K' => 13,
        'A' => 14,
        _ => 0,
    }
}

/// The numeric value of a rank name: 2..=10 for the pips, 11..=14 for
/// J, Q, K and A (the ace is high), 0 for any other text.
pub open spec fn rank_value_of(r: Seq<char>) -> u32 {
    if r.len() == 1 {
        rank_char_value(r[0])
    } else if r.len() == 2 && r[0] == '1' && r[1] == '0' {
        10
    } else {
        0
    }
}

/// The symbol printed after the rank for each suit.
pub open spec fn suit_symbol(s: Suit) -> Seq<char> {
    match s {
        Suit::Hearts => seq!['\u{2665}', '\u{fe0f}'],
        Suit::Spades => seq!['\u{2660}', '\u{fe0f}'],
        Suit::Diamonds => seq!['\u{2666}', '\u{fe0f}'],
        Suit::Clubs => seq!['\u{2663}', '\u{fe0f}'],
    }
}

impl Card {
    /// The value of this card's rank (see `rank_value_of`).
    pub open spec fn value(&self) -> u32 {
        rank_value_of(self.rank@)
    }

    /// The rank followed by the suit symbol, e.g. "10♥️".
    pub fn to_string(&self) -> (r: String)
        ensures
            r@ == self.rank@ + suit_symbol(self.suit),
    {
        let symbol: &str = match self.suit {
            Suit::Hearts => "\u{2665}\u{fe0f}",
            Suit::Spades => "\u{2660}\u{fe0f}",
            Suit::Diamonds => "\u{2666}\u{fe0f}",
            Suit::Clubs => "\u{2663}\u{fe0f}",
        };
        proof {
            reveal_strlit("\u{2665}\u{fe0f}");
            reveal_strlit("\u{2660}\u{fe0f}");
            reveal_strlit("\u{2666}\u{fe0f}");
            reveal_strlit("\u{2663}\u{fe0f}");
        }
        let r = self.rank.clone().concat(symbol);
        assert(symbol@ =~= suit_symbol(self.suit));
        r
    }

    /// The numeric value of the rank.
    pub fn rank_value(&self) -> (r: u32)
        ensures
            r == self.value(),
            r == 0 || (2 <= r <= 14),
    {
        let s = self.rank.as_str();
        let n = s.unicode_len();
        if n == 1 {
            let c = s.get_char(0);
            match c {
                '2' => 2,
                '3' => 3,
                '4' => 4,
                '5' => 5,
                '6' => 6,
                '7' => 7,
                '8' => 8,
                '9' => 9,
                'J' => 11,
                'Q' => 12,
                'K' => 13,
                'A' => 14,
                _ => 0,
            }
        } else if n == 2 {
            let c0 = s.get_char(0);
            let c1 = s.get_char(1);
            if c0 == '1' && c1 == '0' {
                10
            } else {
                0
            }
        } else {
            0
        }
    }
}

/// The text of a rank value in 2..=14.
pub fn rank_name(v: u32) -> (r: String)
    requires
        2 <= v <= 14,
    ensures
        rank_value_of(r@) == v,
{
    let s: &str = match v {
        2 => {
            proof {
                reveal_strlit("2");
                assert("2"@ =~= seq!['2']);
            }
            "2"
        },
        3 => {
            proof {
                reveal_strlit("3");
                assert("3"@ =~= seq!['3']);
            }
            "3"
        },
        4 => {
            proof {
                reveal_strlit("4");
                assert("4"@ =~= seq!['4']);
            }
            "4"
        },
        5 => {
            proof {
                reveal_strlit("5");
                assert("5"@ =~= seq!['5']);
            }
            "5"
        },
        6 => {
            proof {
                reveal_strlit("6");
                assert("6"@ =~= seq!['6']);
            }
            "6"
        },
        7 => {
            proof {
                reveal_strlit("7");
                assert("7"@ =~= seq!['7']);
            }
            "7"
        },
        8 => {
            proof {
                reveal_strlit("8");
                assert("8"@ =~= seq!['8']);
            }
            "8"
        },
        9 => {
            proof {
                reveal_strlit("9");
                assert("9"@ =~= seq!['9']);
            }
            "9"
        },
        10 => {
            proof {
                reveal_strlit("10");
                assert("10"@ =~= seq!['1', '0']);
            }
            "10"
        },
        11 => {
            proof {
                reveal_strlit("J");
                assert("J"@ =~= seq!['J']);
            }
            "J"
        },
        12 => {
            proof {
                reveal_strlit("Q");
                assert("Q"@ =~= seq!['Q']);
            }
            "Q"
        },
        13 => {
            proof {
                reveal_strlit("K");
                assert("K"@ =~= seq!['K']);
            }
            "K"
        },
        _ => {
            proof {
                reveal_strlit("A");
                assert("A"@ =~= seq!['A']);
            }
            "A"
        },
    };
    let r = String::from_str(s);
    r
}

} // verus!
