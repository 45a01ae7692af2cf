use vstd::prelude::*;
use crate::card::{rank_name, Card, Suit};
use crate::evaluator::{
    evaluate_hand, hand_score, lemma_count_where_permutation, suit_index, suited_counts,
    count_where, has_value_suit,
};
use crate::player::Player;
use crate::betting::{
    acting, chips_in_stacks, first_to_act, lemma_chips_in_stacks_update, seats_where, BettingRound,
};

verus! {

/// The table: deck, seats, pot, community cards and the state of the current street.
pub struct PokerGame {
    pub deck: Vec<Card>,
    pub players: Vec<Player>,
    pub pot: u32,
    pub community_cards: Vec<Card>,
    pub current_bet: u32,
    pub last_bettor: Option<usize>,
    pub small_blind: u32,
    pub big_blind: u32,
    pub dealer_position: usize,
}

/// A complete deck: 52 cards, each value 2..=14 of each suit exactly once.
pub open spec fn is_full_deck(d: Seq<Card>) -> bool {
    &&& d.len() == 52
    &&& forall|v: int, s: Suit| 2 <= v <= 14 ==> #[trigger] suited_counts(d)(v, s) == 1
}

/// Where the card of value `v` and suit `s` stands in the unshuffled deck.
pub open spec fn deck_slot(v: int, s: Suit) -> int {
    suit_index(s) * 13 + (v - 2)
}

/// The suit at position `i` (0..4) of the order Hearts, Spades, Diamonds, Clubs.
pub open spec fn suit_at(i: int) -> Suit {
    if i == 0 {
        Suit::Hearts
    } else if i == 1 {
        Suit::Spades
    } else if i == 2 {
        Suit::Diamonds
    } else {
        Suit::Clubs
    }
}

fn suit_from_slot(i: usize) -> (r: Suit)
    requires
        i < 4,
    ensures
        r == suit_at(i as int),
        suit_index(r) == i,
{
    if i == 0 {
        Suit::Hearts
    } else if i == 1 {
        Suit::Spades
    } else if i == 2 {
        Suit::Diamonds
    } else {
        Suit::Clubs
    }
}

/// Relies on rand's `SliceRandom::shuffle` with `rand::thread_rng()`: it only
/// swaps elements of the slice, so the same cards remain, in some order.
#[verifier::external_body]
fn shuffle_cards(cards: &mut Vec<Card>)
    ensures
        final(cards)@.to_multiset() == old(cards)@.to_multiset(),
{
    rand::seq::SliceRandom::shuffle(cards.as_mut_slice(), &mut rand::thread_rng());
}

/// The smaller of two amounts.
pub open spec fn min_u32(a: u32, b: u32) -> u32 {
    if a < b { a } else { b }
}

/// A player after posting a blind of `amount`, capped at their stack.
pub open spec fn after_blind(p: Player, amount: u32) -> Player {
    Player { chips: (p.chips - min_u32(p.chips, amount)) as u32, current_bet: min_u32(p.chips, amount), ..p }
}

/// The blind due from seat `i`: the small blind one seat after the dealer,
/// the big blind two seats after, nothing elsewhere.
pub open spec fn blind_for(g: PokerGame, i: int) -> u32 {
    let n = g.players@.len() as int;
    if i == (g.dealer_position + 1) % n {
        g.small_blind
    } else if i == (g.dealer_position + 2) % n {
        g.big_blind
    } else {
        0
    }
}

/// What seat `i` posts as its blind: the blind due, or its whole stack if
/// that is smaller.
pub open spec fn blind_posted(g: PokerGame, i: int) -> u32 {
    min_u32(g.players@[i].chips, blind_for(g, i))
}

/// With two seats or more, the small and big blind fall on different seats.
pub proof fn lemma_blind_seats_differ(d: int, n: int)
    requires
        d >= 0,
        n >= 2,
    ensures
        (d + 1) % n != (d + 2) % n,
{
    assert((d + 1) % n != (d + 2) % n) by (nonlinear_arith)
        requires
            d >= 0,
            n >= 2,
    ;
}

/// A player as a new round finds them: in the hand, no cards, nothing bet.
pub open spec fn reset_player(p: Player, q: Player) -> bool {
    &&& q.name == p.name
    &&& q.chips == p.chips
    &&& q.is_human == p.is_human
    &&& q.is_active
    &&& q.current_bet == 0
    &&& q.hand@.len() == 0
}

impl PokerGame {
    /// A game over these players, blinds 5 and 10, dealer at seat 0, and a shuffled full deck.
    pub fn new(players: Vec<Player>) -> (r: Self)
        ensures
            is_full_deck(r.deck@),
            r.players@ == players@,
            r.pot == 0,
            r.community_cards@.len() == 0,
            r.current_bet == 0,
            r.last_bettor is None,
            r.small_blind == 5,
            r.big_blind == 10,
            r.dealer_position == 0,
    {
        let mut game = Self {
            deck: Vec::new(),
            players,
            pot: 0,
            community_cards: Vec::new(),
            current_bet: 0,
            last_bettor: None,
            small_blind: 5,
            big_blind: 10,
            dealer_position: 0,
        };
        game.reset_deck();
        game
    }

    /// Replaces the deck by a full deck in random order.
    fn reset_deck(&mut self)
        ensures
            is_full_deck(final(self).deck@),
            final(self).players == old(self).players,
            final(self).pot == old(self).pot,
            final(self).community_cards == old(self).community_cards,
            final(self).current_bet == old(self).current_bet,
            final(self).last_bettor == old(self).last_bettor,
            final(self).small_blind == old(self).small_blind,
            final(self).big_blind == old(self).big_blind,
            final(self).dealer_position == old(self).dealer_position,
    {
        let mut deck: Vec<Card> = Vec::new();
        let mut k: usize = 0;
        while k < 52
            invariant
                k <= 52,
                deck@.len() == k,
                forall|v: int, s: Suit|
                    2 <= v <= 14 ==> #[trigger] suited_counts(deck@)(v, s) == if deck_slot(v, s) < k {
                        1nat
                    } else {
                        0nat
                    },
            decreases 52 - k,
        {
            let suit = suit_from_slot(k / 13);
            let v = (k % 13) as u32 + 2;
            let card = Card { rank: rank_name(v), suit };
            let ghost old_deck = deck@;
            deck.push(card);
            proof {
                assert(deck@.drop_last() =~= old_deck);
                assert(deck@.last() == card);
                assert forall|w: int, t: Suit| 2 <= w <= 14 implies #[trigger] suited_counts(deck@)(w, t)
                    == if deck_slot(w, t) < k + 1 { 1nat } else { 0nat } by {
                    assert(suited_counts(deck@)(w, t) == count_where(deck@, has_value_suit(w, t)));
                    assert(suited_counts(old_deck)(w, t) == count_where(old_deck, has_value_suit(w, t)));
                    if w == v && t == suit {
                        assert(deck_slot(w, t) == k);
                    } else {
                        assert(deck_slot(w, t) != k) by {
                            if deck_slot(w, t) == k {
                                assert(suit_index(t) == k / 13);
                            }
                        }
                    }
                }
            }
            k += 1;
        }
        let ghost before = deck@;
        shuffle_cards(&mut deck);
        proof {
            assert forall|v: int, s: Suit| 2 <= v <= 14 implies #[trigger] suited_counts(deck@)(v, s) == 1 by {
                assert(deck_slot(v, s) < 52);
                assert(suited_counts(before)(v, s) == 1);
                lemma_count_where_permutation(deck@, before, has_value_suit(v, s));
            }
            assert(deck@.len() == deck@.to_multiset().len()) by {
                broadcast use vstd::seq_lib::group_to_multiset_ensures;
            }
            assert(before.len() == before.to_multiset().len()) by {
                broadcast use vstd::seq_lib::group_to_multiset_ensures;
            }
        }
        self.deck = deck;
    }

    /// Moves the dealer button one seat on, wrapping round the table.
    pub fn advance_dealer(&mut self)
        requires
            old(self).players@.len() > 0,
        ensures
            final(self).dealer_position == (old(self).dealer_position + 1) % (old(self).players@.len() as int),
            final(self).players == old(self).players,
            final(self).deck == old(self).deck,
            final(self).pot == old(self).pot,
            final(self).community_cards == old(self).community_cards,
            final(self).current_bet == old(self).current_bet,
            final(self).last_bettor == old(self).last_bettor,
            final(self).small_blind == old(self).small_blind,
            final(self).big_blind == old(self).big_blind,
    {
        self.dealer_position = ((self.dealer_position as u128 + 1) % self.players.len() as u128) as usize;
    }

    /// Starts a round: a fresh shuffled deck, an empty pot and board, no bet,
    /// and every player back in the hand with no cards and nothing bet.
    pub fn reset_round(&mut self)
        ensures
            is_full_deck(final(self).deck@),
            final(self).pot == 0,
            final(self).community_cards@.len() == 0,
            final(self).current_bet == 0,
            final(self).last_bettor is None,
            final(self).small_blind == old(self).small_blind,
            final(self).big_blind == old(self).big_blind,
            final(self).dealer_position == old(self).dealer_position,
            final(self).players@.len() == old(self).players@.len(),
            forall|i: int|
                0 <= i < old(self).players@.len() ==> reset_player(
                    #[trigger] old(self).players@[i],
                    final(self).players@[i],
                ),
    {
        self.reset_deck();
        self.pot = 0;
        self.community_cards.clear();
        self.current_bet = 0;
        self.last_bettor = None;
        let ghost orig = self.players@;
        let n = self.players.len();
        let mut i: usize = 0;
        while i < n
            invariant
                i <= n,
                n == orig.len(),
                self.players@.len() == n,
                is_full_deck(self.deck@),
                self.pot == 0,
                self.community_cards@.len() == 0,
                self.current_bet == 0,
                self.last_bettor is None,
                self.small_blind == old(self).small_blind,
                self.big_blind == old(self).big_blind,
                self.dealer_position == old(self).dealer_position,
                orig == old(self).players@,
                forall|j: int| 0 <= j < i ==> reset_player(#[trigger] orig[j], self.players@[j]),
                forall|j: int| i <= j < n ==> #[trigger] self.players@[j] == orig[j],
            decreases n - i,
        {
            self.players[i].current_bet = 0;
            self.players[i].is_active = true;
            self.players[i].hand.clear();
            i += 1;
        }
    }

    /// Posts a blind of `amount` for the player at `position`, capped at their
    /// stack (a short stack goes all in), and returns what was posted.
    pub fn place_blind(&mut self, position: usize, amount: u32) -> (r: u32)
        requires
            position < old(self).players@.len(),
            old(self).pot + amount <= u32::MAX,
        ensures
            r == min_u32(old(self).players@[position as int].chips, amount),
            final(self).players@ == old(self).players@.update(
                position as int,
                after_blind(old(self).players@[position as int], amount),
            ),
            final(self).pot == old(self).pot + r,
            final(self).deck == old(self).deck,
            final(self).community_cards == old(self).community_cards,
            final(self).current_bet == old(self).current_bet,
            final(self).last_bettor == old(self).last_bettor,
            final(self).small_blind == old(self).small_blind,
            final(self).big_blind == old(self).big_blind,
            final(self).dealer_position == old(self).dealer_position,
    {
        let chips = self.players[position].chips;
        let blind_amount = if chips < amount { chips } else { amount };
        self.players[position].chips = chips - blind_amount;
        self.players[position].current_bet = blind_amount;
        self.pot = self.pot + blind_amount;
        blind_amount
    }

    /// Posts the small blind one seat after the dealer and the big blind two
    /// seats after, each capped at the player's stack, and sets the table-high
    /// bet to the larger of the two amounts posted.
    pub fn collect_blinds(&mut self)
        requires
            old(self).players@.len() > 0,
            old(self).pot + old(self).small_blind + old(self).big_blind <= u32::MAX,
        ensures
            ({
                let n = old(self).players@.len() as int;
                let sb = (old(self).dealer_position + 1) % n;
                let bb = (old(self).dealer_position + 2) % n;
                let mid = old(self).players@.update(sb, after_blind(old(self).players@[sb], old(self).small_blind));
                &&& final(self).players@ == mid.update(bb, after_blind(mid[bb], old(self).big_blind))
                &&& final(self).pot == old(self).pot + mid[sb].current_bet + final(self).players@[bb].current_bet
                &&& final(self).current_bet == if final(self).players@[bb].current_bet >= final(self).players@[sb].current_bet {
                    final(self).players@[bb].current_bet
                } else {
                    final(self).players@[sb].current_bet
                }
            }),
            old(self).players@.len() >= 2 ==> {
                let n = old(self).players@.len() as int;
                let sb = (old(self).dealer_position + 1) % n;
                let bb = (old(self).dealer_position + 2) % n;
                &&& final(self).players@.len() == n
                &&& forall|i: int|
                    0 <= i < n ==> #[trigger] final(self).players@[i] == if i == sb || i == bb {
                        after_blind(old(self).players@[i], blind_for(*old(self), i))
                    } else {
                        old(self).players@[i]
                    }
                &&& final(self).pot == old(self).pot + blind_posted(*old(self), sb) + blind_posted(*old(self), bb)
                &&& final(self).current_bet == if blind_posted(*old(self), bb) >= blind_posted(*old(self), sb) {
                    blind_posted(*old(self), bb)
                } else {
                    blind_posted(*old(self), sb)
                }
            },
            final(self).deck == old(self).deck,
            final(self).community_cards == old(self).community_cards,
            final(self).last_bettor == old(self).last_bettor,
            final(self).small_blind == old(self).small_blind,
            final(self).big_blind == old(self).big_blind,
            final(self).dealer_position == old(self).dealer_position,
    {
        proof {
            if self.players@.len() >= 2 {
                lemma_blind_seats_differ(self.dealer_position as int, self.players@.len() as int);
            }
        }
        let n = self.players.len();
        let sb_pos = ((self.dealer_position as u128 + 1) % n as u128) as usize;
        let bb_pos = ((self.dealer_position as u128 + 2) % n as u128) as usize;
        let small = self.small_blind;
        let big = self.big_blind;
        self.place_blind(sb_pos, small);
        self.place_blind(bb_pos, big);
        let bb_bet = self.players[bb_pos].current_bet;
        let sb_bet = self.players[sb_pos].current_bet;
        self.current_bet = if bb_bet >= sb_bet { bb_bet } else { sb_bet };
    }

    /// Gives each player, in seat order, the top card of the deck.
    fn deal_one_each(&mut self)
        requires
            old(self).deck@.len() >= old(self).players@.len(),
        ensures
            ({
                let d = old(self).deck@;
                let n = old(self).players@.len();
                &&& final(self).deck@ == d.subrange(0, d.len() - n)
                &&& final(self).players@.len() == n
                &&& forall|i: int|
                    0 <= i < n ==> same_but_hand(#[trigger] old(self).players@[i], final(self).players@[i])
                        && final(self).players@[i].hand@ == old(self).players@[i].hand@.push(d[d.len() - 1 - i])
            }),
            final(self).pot == old(self).pot,
            final(self).community_cards == old(self).community_cards,
            final(self).current_bet == old(self).current_bet,
            final(self).last_bettor == old(self).last_bettor,
            final(self).small_blind == old(self).small_blind,
            final(self).big_blind == old(self).big_blind,
            final(self).dealer_position == old(self).dealer_position,
    {
        let ghost d = self.deck@;
        let ghost orig = self.players@;
        let n = self.players.len();
        let mut i: usize = 0;
        while i < n
            invariant
                i <= n,
                n == orig.len(),
                d.len() >= n,
                self.players@.len() == n,
                self.deck@ == d.subrange(0, d.len() - i),
                forall|j: int|
                    0 <= j < i ==> same_but_hand(#[trigger] orig[j], self.players@[j])
                        && self.players@[j].hand@ == orig[j].hand@.push(d[d.len() - 1 - j]),
                forall|j: int| i <= j < n ==> #[trigger] self.players@[j] == orig[j],
                self.pot == old(self).pot,
                self.community_cards == old(self).community_cards,
                self.current_bet == old(self).current_bet,
                self.last_bettor == old(self).last_bettor,
                self.small_blind == old(self).small_blind,
                self.big_blind == old(self).big_blind,
                self.dealer_position == old(self).dealer_position,
            decreases n - i,
        {
            let card = self.deck.pop().unwrap();
            self.players[i].hand.push(card);
            i += 1;
        }
    }

    /// Deals two cards to each player: one card per player per pass, two passes.
    pub fn deal_hole_cards(&mut self)
        requires
            old(self).deck@.len() >= 2 * old(self).players@.len(),
        ensures
            ({
                let d = old(self).deck@;
                let n = old(self).players@.len();
                &&& final(self).deck@ == d.subrange(0, d.len() - 2 * n)
                &&& final(self).players@.len() == n
                &&& forall|i: int|
                    0 <= i < n ==> same_but_hand(#[trigger] old(self).players@[i], final(self).players@[i])
                        && final(self).players@[i].hand@ == old(self).players@[i].hand@.push(
                        d[d.len() - 1 - i],
                    ).push(d[d.len() - 1 - n - i])
            }),
            final(self).pot == old(self).pot,
            final(self).community_cards == old(self).community_cards,
            final(self).current_bet == old(self).current_bet,
            final(self).last_bettor == old(self).last_bettor,
            final(self).small_blind == old(self).small_blind,
            final(self).big_blind == old(self).big_blind,
            final(self).dealer_position == old(self).dealer_position,
    {
        self.deal_one_each();
        self.deal_one_each();
    }

    /// Turns over `count` cards from the top of the deck onto the board.
    pub fn deal_community_cards(&mut self, count: usize)
        requires
            old(self).deck@.len() >= count,
        ensures
            ({
                let d = old(self).deck@;
                let c = old(self).community_cards@;
                &&& final(self).deck@ == d.subrange(0, d.len() - count)
                &&& final(self).community_cards@.len() == c.len() + count
                &&& final(self).community_cards@.subrange(0, c.len() as int) == c
                &&& forall|j: int| 0 <= j < count ==> #[trigger] final(self).community_cards@[c.len() + j] == d[d.len() - 1 - j]
            }),
            final(self).players == old(self).players,
            final(self).pot == old(self).pot,
            final(self).current_bet == old(self).current_bet,
            final(self).last_bettor == old(self).last_bettor,
            final(self).small_blind == old(self).small_blind,
            final(self).big_blind == old(self).big_blind,
            final(self).dealer_position == old(self).dealer_position,
    {
        let ghost d = self.deck@;
        let ghost c = self.community_cards@;
        let mut k: usize = 0;
        while k < count
            invariant
                k <= count,
                d.len() >= count,
                self.deck@ == d.subrange(0, d.len() - k),
                self.community_cards@.len() == c.len() + k,
                self.community_cards@.subrange(0, c.len() as int) == c,
                forall|j: int| 0 <= j < k ==> #[trigger] self.community_cards@[c.len() + j] == d[d.len() - 1 - j],
                self.players == old(self).players,
                self.pot == old(self).pot,
                self.current_bet == old(self).current_bet,
                self.last_bettor == old(self).last_bettor,
                self.small_blind == old(self).small_blind,
                self.big_blind == old(self).big_blind,
                self.dealer_position == old(self).dealer_position,
            decreases count - k,
        {
            let ghost before = self.community_cards@;
            let card = self.deck.pop().unwrap();
            self.community_cards.push(card);
            proof {
                assert(self.community_cards@.subrange(0, c.len() as int) =~= before.subrange(0, c.len() as int));
            }
            k += 1;
        }
    }
}

/// Two views of a player that differ at most in their cards.
pub open spec fn same_but_hand(p: Player, q: Player) -> bool {
    &&& q.name == p.name
    &&& q.chips == p.chips
    &&& q.is_human == p.is_human
    &&& q.is_active == p.is_active
    &&& q.current_bet == p.current_bet
}

/// The score of seat `i`'s best hand with the board.
pub open spec fn seat_score(g: PokerGame, i: int) -> int {
    hand_score(g.players@[i].hand@ + g.community_cards@)
}

/// Seat `w` wins the showdown: it is still in the hand, no seat in the hand
/// scores more, and every seat in the hand before it scores less.
pub open spec fn is_showdown_winner(g: PokerGame, w: int) -> bool {
    &&& 0 <= w < g.players@.len()
    &&& g.players@[w].is_active
    &&& forall|j: int|
        0 <= j < g.players@.len() && #[trigger] g.players@[j].is_active ==> seat_score(g, j) <= seat_score(g, w)
    &&& forall|j: int| 0 <= j < w && #[trigger] g.players@[j].is_active ==> seat_score(g, j) < seat_score(g, w)
}

/// Players who still hold chips.
pub open spec fn has_chips() -> spec_fn(Player) -> bool {
    |p: Player| p.chips > 0
}

/// Where a seat sits for advice: the first third of the table is early, the
/// second third middle, the rest late.
pub open spec fn position_name(i: int, n: int) -> Seq<char> {
    if i < n / 3 {
        "early"@
    } else if i < 2 * n / 3 {
        "middle"@
    } else {
        "late"@
    }
}

impl PokerGame {
    /// "early", "middle" or "late": the third of the table where the seat sits.
    pub fn get_position(&self, player_index: usize) -> (r: &'static str)
        ensures
            r@ == position_name(player_index as int, self.players@.len() as int),
    {
        let num_players = self.players.len();
        let two_thirds = ((2 * (num_players as u128)) / 3) as usize;
        if player_index < num_players / 3 {
            "early"
        } else if player_index < two_thirds {
            "middle"
        } else {
            "late"
        }
    }

    /// The showdown winner: the first seat still in the hand whose score is the
    /// highest among the seats still in the hand.
    pub fn determine_winner(&self) -> (r: usize)
        requires
            exists|j: int| 0 <= j < self.players@.len() && #[trigger] self.players@[j].is_active,
            forall|i: int|
                0 <= i < self.players@.len() ==> #[trigger] self.players@[i].hand@.len()
                    + self.community_cards@.len() <= usize::MAX,
        ensures
            is_showdown_winner(*self, r as int),
    {
        let mut found = false;
        let mut best_score: u32 = 0;
        let mut winner_index: usize = 0;
        let n = self.players.len();
        let mut i: usize = 0;
        while i < n
            invariant
                i <= n,
                n == self.players@.len(),
                forall|k: int|
                    0 <= k < self.players@.len() ==> #[trigger] self.players@[k].hand@.len()
                        + self.community_cards@.len() <= usize::MAX,
                !found ==> forall|j: int| 0 <= j < i ==> !#[trigger] self.players@[j].is_active,
                found ==> winner_index < i,
                found ==> self.players@[winner_index as int].is_active,
                found ==> seat_score(*self, winner_index as int) == best_score,
                found ==> forall|j: int|
                    0 <= j < i && #[trigger] self.players@[j].is_active ==> seat_score(*self, j) <= best_score,
                found ==> forall|j: int|
                    0 <= j < winner_index && #[trigger] self.players@[j].is_active ==> seat_score(*self, j)
                        < best_score,
            decreases n - i,
        {
            if self.players[i].is_active {
                let score = evaluate_hand(self.players[i].hand.as_slice(), self.community_cards.as_slice());
                assert(score == seat_score(*self, i as int));
                if !found || score > best_score {
                    found = true;
                    best_score = score;
                    winner_index = i;
                }
            }
            i += 1;
        }
        winner_index
    }

    /// Pays the whole pot to the showdown winner and returns the winner's seat.
    pub fn award_pot(&mut self) -> (r: usize)
        requires
            exists|j: int| 0 <= j < old(self).players@.len() && #[trigger] old(self).players@[j].is_active,
            forall|i: int|
                0 <= i < old(self).players@.len() ==> #[trigger] old(self).players@[i].hand@.len()
                    + old(self).community_cards@.len() <= usize::MAX,
            forall|i: int|
                0 <= i < old(self).players@.len() ==> #[trigger] old(self).players@[i].chips + old(self).pot
                    <= u32::MAX,
        ensures
            is_showdown_winner(*old(self), r as int),
            final(self).players@ == old(self).players@.update(
                r as int,
                Player { chips: (old(self).players@[r as int].chips + old(self).pot) as u32, ..old(self).players@[r as int] },
            ),
            final(self).pot == old(self).pot,
            final(self).deck == old(self).deck,
            final(self).community_cards == old(self).community_cards,
            final(self).current_bet == old(self).current_bet,
            final(self).last_bettor == old(self).last_bettor,
            final(self).small_blind == old(self).small_blind,
            final(self).big_blind == old(self).big_blind,
            final(self).dealer_position == old(self).dealer_position,
    {
        let winner = self.determine_winner();
        let pot = self.pot;
        self.players[winner].chips = self.players[winner].chips + pot;
        winner
    }

    /// Removes, in order, every player left without chips.
    pub fn remove_broke_players(&mut self)
        ensures
            final(self).players@ == old(self).players@.filter(has_chips()),
            final(self).pot == old(self).pot,
            final(self).deck == old(self).deck,
            final(self).community_cards == old(self).community_cards,
            final(self).current_bet == old(self).current_bet,
            final(self).last_bettor == old(self).last_bettor,
            final(self).small_blind == old(self).small_blind,
            final(self).big_blind == old(self).big_blind,
            final(self).dealer_position == old(self).dealer_position,
    {
        let ghost orig = self.players@;
        let ghost keep = has_chips();
        let mut rest: Vec<Player> = Vec::new();
        std::mem::swap(&mut self.players, &mut rest);
        let mut kept: Vec<Player> = Vec::new();
        let n = rest.len();
        let mut i: usize = 0;
        while i < n
            invariant
                i <= n,
                n == orig.len(),
                keep == has_chips(),
                rest@ == orig.subrange(i as int, n as int),
                kept@ == orig.take(i as int).filter(keep),
            decreases n - i,
        {
            let p = rest.remove(0);
            let ghost before = kept@;
            proof {
                let next = orig.take(i as int + 1);
                assert(next.drop_last() =~= orig.take(i as int));
                assert(next.last() == p);
                reveal(Seq::filter);
                assert(next.filter(keep) == if keep(p) { before.push(p) } else { before });
            }
            if p.chips > 0 {
                kept.push(p);
            }
            proof {
                assert(kept@ == orig.take(i as int + 1).filter(keep));
                assert(rest@ =~= orig.subrange(i as int + 1, n as int));
            }
            i += 1;
        }
        proof {
            assert(orig.take(n as int) =~= orig);
        }
        self.players = kept;
    }
}

/// The cards turned over before each street: none before the flop, three for
/// the flop, then one for the turn and one for the river.
pub open spec fn street_cards(street: int) -> int {
    if street == 0 {
        0
    } else if street == 1 {
        3
    } else {
        1
    }
}

/// Dropping players without chips leaves the stack total as it was.
pub proof fn lemma_chips_in_stacks_filter(players: Seq<Player>)
    ensures
        chips_in_stacks(players.filter(has_chips())) == chips_in_stacks(players),
    decreases players.len(),
{
    reveal(Seq::filter);
    if players.len() > 0 {
        lemma_chips_in_stacks_filter(players.drop_last());
        let rest = players.drop_last().filter(has_chips());
        let p = players.last();
        assert(rest.push(p).drop_last() =~= rest);
    }
}

impl PokerGame {
    /// Opens a round: a fresh shuffled deck, an empty pot and board, every
    /// player back in the hand; then the small and big blinds are posted
    /// (capped at the stacks) and two hole cards dealt to each player.
    pub fn start_round(&mut self)
        requires
            2 <= old(self).players@.len() <= 26,
            old(self).small_blind + old(self).big_blind <= u32::MAX,
        ensures
            ({
                let n = old(self).players@.len() as int;
                let sb = (old(self).dealer_position + 1) % n;
                let bb = (old(self).dealer_position + 2) % n;
                &&& final(self).players@.len() == n
                &&& forall|i: int|
                    0 <= i < n ==> {
                        let p = #[trigger] old(self).players@[i];
                        let q = final(self).players@[i];
                        &&& q.name == p.name
                        &&& q.is_human == p.is_human
                        &&& q.is_active
                        &&& q.hand@.len() == 2
                        &&& q.current_bet == blind_posted(*old(self), i)
                        &&& q.chips == p.chips - blind_posted(*old(self), i)
                    }
                &&& final(self).pot == blind_posted(*old(self), sb) + blind_posted(*old(self), bb)
                &&& final(self).current_bet == if blind_posted(*old(self), bb) >= blind_posted(*old(self), sb) {
                    blind_posted(*old(self), bb)
                } else {
                    blind_posted(*old(self), sb)
                }
                &&& final(self).deck@.len() == 52 - 2 * n
            }),
            final(self).community_cards@.len() == 0,
            final(self).last_bettor is None,
            final(self).small_blind == old(self).small_blind,
            final(self).big_blind == old(self).big_blind,
            final(self).dealer_position == old(self).dealer_position,
    {
        let ghost before = *self;
        self.reset_round();
        let ghost reset = *self;
        self.collect_blinds();
        let ghost blinded = *self;
        self.deal_hole_cards();
        proof {
            let n = before.players@.len() as int;
            assert forall|i: int| 0 <= i < n implies blind_for(reset, i) == blind_for(before, i)
                && #[trigger] blind_posted(reset, i) == blind_posted(before, i) by {
                assert(reset_player(before.players@[i], reset.players@[i]));
            }
            assert forall|i: int| 0 <= i < n implies {
                let p = #[trigger] before.players@[i];
                let q = self.players@[i];
                &&& q.name == p.name
                &&& q.is_human == p.is_human
                &&& q.is_active
                &&& q.hand@.len() == 2
                &&& q.current_bet == blind_posted(before, i)
                &&& q.chips == p.chips - blind_posted(before, i)
            } by {
                assert(reset_player(before.players@[i], reset.players@[i]));
                assert(same_but_hand(blinded.players@[i], self.players@[i]));
                assert(blind_posted(reset, i) == blind_posted(before, i));
            }
        }
    }

    /// Opens street `street` (0 before the flop, then flop, turn and river):
    /// turns over its cards from the top of the deck and starts its betting.
    pub fn open_street(&mut self, street: usize) -> (r: BettingRound)
        requires
            street < 4,
            old(self).players@.len() > 0,
            old(self).deck@.len() >= street_cards(street as int),
        ensures
            ({
                let d = old(self).deck@;
                let c = old(self).community_cards@;
                let m = street_cards(street as int);
                &&& final(self).deck@ == d.subrange(0, d.len() - m)
                &&& final(self).community_cards@.len() == c.len() + m
                &&& final(self).community_cards@.subrange(0, c.len() as int) == c
                &&& forall|j: int| 0 <= j < m ==> #[trigger] final(self).community_cards@[c.len() + j] == d[d.len() - 1 - j]
            }),
            r.start == first_to_act(old(self).dealer_position as int, old(self).players@.len() as int, street == 0),
            r.order@ == seats_where(old(self).players@, r.start as int, old(self).players@.len() as int, acting()),
            r.next == 0,
            r.current_bet == old(self).current_bet,
            r.last_raiser is None,
            !r.raised,
            r.fits(old(self).players@.len() as int),
            final(self).players == old(self).players,
            final(self).pot == old(self).pot,
            final(self).current_bet == old(self).current_bet,
            final(self).last_bettor == old(self).last_bettor,
            final(self).small_blind == old(self).small_blind,
            final(self).big_blind == old(self).big_blind,
            final(self).dealer_position == old(self).dealer_position,
    {
        let count: usize = if street == 0 {
            0
        } else if street == 1 {
            3
        } else {
            1
        };
        self.deal_community_cards(count);
        self.start_betting_round(street == 0)
    }

    /// Closes a round: pays the pot to the showdown winner, then removes the
    /// players left without chips. Returns the winner's seat as it was before
    /// the removal. No chip is created or lost.
    pub fn end_round(&mut self) -> (r: usize)
        requires
            exists|j: int| 0 <= j < old(self).players@.len() && #[trigger] old(self).players@[j].is_active,
            forall|i: int|
                0 <= i < old(self).players@.len() ==> #[trigger] old(self).players@[i].hand@.len()
                    + old(self).community_cards@.len() <= usize::MAX,
            forall|i: int|
                0 <= i < old(self).players@.len() ==> #[trigger] old(self).players@[i].chips + old(self).pot
                    <= u32::MAX,
        ensures
            is_showdown_winner(*old(self), r as int),
            final(self).players@ == old(self).players@.update(
                r as int,
                Player { chips: (old(self).players@[r as int].chips + old(self).pot) as u32, ..old(self).players@[r as int] },
            ).filter(has_chips()),
            chips_in_stacks(final(self).players@) == chips_in_stacks(old(self).players@) + old(self).pot,
            final(self).pot == old(self).pot,
            final(self).deck == old(self).deck,
            final(self).community_cards == old(self).community_cards,
            final(self).current_bet == old(self).current_bet,
            final(self).last_bettor == old(self).last_bettor,
            final(self).small_blind == old(self).small_blind,
            final(self).big_blind == old(self).big_blind,
            final(self).dealer_position == old(self).dealer_position,
    {
        let ghost before = self.players@;
        let winner = self.award_pot();
        let ghost paid = self.players@;
        self.remove_broke_players();
        proof {
            lemma_chips_in_stacks_update(before, winner as int, paid[winner as int]);
            lemma_chips_in_stacks_filter(paid);
        }
        winner
    }
}

} // verus!
