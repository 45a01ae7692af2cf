use vstd::prelude::*;
use vstd::string::StrSliceExecFns;
use crate::player::Player;
use crate::poker_game::{min_u32, PokerGame};

verus! {

/// `a + b`, or `u32::MAX` where the sum does not fit.
pub open spec fn sat_add(a: u32, b: u32) -> u32 {
    if a + b > u32::MAX { u32::MAX } else { (a + b) as u32 }
}

/// What `p` still has to put in to match a table-high bet of `table_bet`.
pub open spec fn to_call(table_bet: u32, p: Player) -> u32 {
    if table_bet > p.current_bet { (table_bet - p.current_bet) as u32 } else { 0 }
}

/// What a decision of `bet` chips commits: never more than the stack.
pub open spec fn committed(p: Player, bet: u32) -> u32 {
    min_u32(bet, p.chips)
}

/// The player after deciding to put in `bet` while the table-high bet is
/// `table_bet`: nothing committed with something to call is a fold, nothing
/// committed with nothing to call is a check, anything else moves chips from
/// the stack to the player's bet for this street.
pub open spec fn after_bet(p: Player, table_bet: u32, bet: u32) -> Player {
    let a = committed(p, bet);
    if a == 0 {
        if to_call(table_bet, p) > 0 {
            Player { is_active: false, ..p }
        } else {
            p
        }
    } else {
        Player { current_bet: sat_add(p.current_bet, a), chips: (p.chips - a) as u32, ..p }
    }
}

/// In the hand and holding chips: a player who takes turns.
pub open spec fn can_act(p: Player) -> bool {
    p.is_active && p.chips > 0
}

/// Must act again this street: can act and has not matched the table-high bet.
pub open spec fn owes_action(p: Player, table_bet: u32) -> bool {
    can_act(p) && p.current_bet < table_bet
}

/// The players who take turns on a new street.
pub open spec fn acting() -> spec_fn(Player) -> bool {
    |p: Player| can_act(p)
}

/// The players who must answer a table-high bet of `table_bet`.
pub open spec fn owing(table_bet: u32) -> spec_fn(Player) -> bool {
    |p: Player| owes_action(p, table_bet)
}

/// The first `k` seats counted from `start` round the table, keeping those
/// whose players satisfy `keep`.
pub open spec fn seats_where(players: Seq<Player>, start: int, k: int, keep: spec_fn(Player) -> bool) -> Seq<usize>
    decreases k,
{
    if k <= 0 {
        Seq::empty()
    } else {
        let prev = seats_where(players, start, k - 1, keep);
        let i = (start + k - 1) % (players.len() as int);
        if keep(players[i]) {
            prev.push(i as usize)
        } else {
            prev
        }
    }
}

/// The seat where a street's action begins: three after the dealer before the
/// flop (past the blinds), one after the dealer on later streets.
pub open spec fn first_to_act(dealer: int, n: int, preflop: bool) -> int {
    (dealer + if preflop { 3int } else { 1int }) % n
}

/// One betting street in progress. The seats in `order` act in turn from
/// position `next`; `start` is the street's first seat, from which each pass
/// is ordered; `raised` tells whether the current pass has seen a raise.
pub struct BettingRound {
    pub start: usize,
    pub order: Vec<usize>,
    pub next: usize,
    pub current_bet: u32,
    pub last_raiser: Option<usize>,
    pub raised: bool,
}

impl BettingRound {
    /// Its seats are seats of a table of `n`.
    pub open spec fn fits(&self, n: int) -> bool {
        &&& self.start < n
        &&& forall|j: int| 0 <= j < self.order@.len() ==> #[trigger] self.order@[j] < n
    }

    /// The street is over: the pass is done and it held no raise.
    pub open spec fn is_over(&self) -> bool {
        self.next >= self.order@.len() && !self.raised
    }
}

/// The chips left in all stacks.
pub open spec fn chips_in_stacks(players: Seq<Player>) -> int
    decreases players.len(),
{
    if players.len() == 0 {
        0
    } else {
        chips_in_stacks(players.drop_last()) + players.last().chips
    }
}

/// A bound on the turns left in a street: every turn lowers it, and opening a
/// new pass never raises it. Chips leaving the stacks pay for the passes that
/// raises reopen.
pub open spec fn street_measure(players: Seq<Player>, round: BettingRound) -> int {
    let n = players.len() as int;
    let left = if round.next < round.order@.len() { round.order@.len() - round.next } else { 0 };
    (n + 2) * chips_in_stacks(players) + left + if round.raised { n + 1 } else { 0 }
}

/// Changing one player changes the stack total by the difference of their stacks.
pub proof fn lemma_chips_in_stacks_update(players: Seq<Player>, i: int, q: Player)
    requires
        0 <= i < players.len(),
    ensures
        chips_in_stacks(players.update(i, q)) == chips_in_stacks(players) - players[i].chips + q.chips,
        chips_in_stacks(players) >= 0,
    decreases players.len(),
{
    let u = players.update(i, q);
    if i == players.len() - 1 {
        assert(u.drop_last() =~= players.drop_last());
        lemma_chips_in_stacks_nonneg(players.drop_last());
    } else {
        lemma_chips_in_stacks_update(players.drop_last(), i, q);
        assert(u.drop_last() =~= players.drop_last().update(i, q));
    }
}

/// The stack total is never negative.
pub proof fn lemma_chips_in_stacks_nonneg(players: Seq<Player>)
    ensures
        chips_in_stacks(players) >= 0,
    decreases players.len(),
{
    if players.len() > 0 {
        lemma_chips_in_stacks_nonneg(players.drop_last());
    }
}

/// A pass holds at most the `k` seats walked.
pub proof fn lemma_seats_where_len(players: Seq<Player>, start: int, k: int, keep: spec_fn(Player) -> bool)
    ensures
        seats_where(players, start, k, keep).len() <= if k > 0 { k } else { 0 },
    decreases k,
{
    if k > 0 {
        lemma_seats_where_len(players, start, k - 1, keep);
    }
}

/// Every seat of a pass reopened after a raise to `table_bet` belongs to a
/// player who is in the hand, holds chips, and is below `table_bet`: a player
/// who went all in is never asked to act again, even below the table-high bet.
pub proof fn lemma_reopened_pass_owes(players: Seq<Player>, start: int, k: int, table_bet: u32)
    requires
        0 < players.len() <= usize::MAX,
        start >= 0,
    ensures
        forall|j: int|
            0 <= j < seats_where(players, start, k, owing(table_bet)).len() ==> {
                let s = #[trigger] seats_where(players, start, k, owing(table_bet))[j] as int;
                &&& 0 <= s < players.len()
                &&& players[s].is_active
                &&& players[s].chips > 0
                &&& players[s].current_bet < table_bet
            },
    decreases k,
{
    if k > 0 {
        lemma_reopened_pass_owes(players, start, k - 1, table_bet);
        let i = (start + k - 1) % (players.len() as int);
        assert(0 <= i < players.len());
        let prev = seats_where(players, start, k - 1, owing(table_bet));
        let cur = seats_where(players, start, k, owing(table_bet));
        assert forall|j: int| 0 <= j < cur.len() implies {
            let s = #[trigger] cur[j] as int;
            &&& 0 <= s < players.len()
            &&& players[s].is_active
            &&& players[s].chips > 0
            &&& players[s].current_bet < table_bet
        } by {
            if j < prev.len() {
                assert(cur[j] == prev[j]);
            } else {
                assert(owes_action(players[i], table_bet));
                assert(cur == prev.push(i as usize));
                assert(cur[j] as int == i);
            }
        }
    }
}

impl PokerGame {
    /// The seats from `start` round the table whose players can act (or, with
    /// `answering`, who must answer a table-high bet of `table_bet`).
    fn seats_in_turn(&self, start: usize, answering: bool, table_bet: u32) -> (r: Vec<usize>)
        requires
            start < self.players@.len(),
        ensures
            r@ == seats_where(
                self.players@,
                start as int,
                self.players@.len() as int,
                if answering { owing(table_bet) } else { acting() },
            ),
            forall|j: int| 0 <= j < r@.len() ==> #[trigger] r@[j] < self.players@.len(),
    {
        let ghost keep = if answering { owing(table_bet) } else { acting() };
        let n = self.players.len();
        let mut seats: Vec<usize> = Vec::new();
        let mut k: usize = 0;
        while k < n
            invariant
                k <= n,
                n == self.players@.len(),
                start < n,
                keep == if answering { owing(table_bet) } else { acting() },
                seats@ == seats_where(self.players@, start as int, k as int, keep),
                forall|j: int| 0 <= j < seats@.len() ==> #[trigger] seats@[j] < n,
            decreases n - k,
        {
            let i = ((start as u128 + k as u128) % n as u128) as usize;
            let p = &self.players[i];
            let takes_turn = p.is_active && p.chips > 0 && (!answering || p.current_bet < table_bet);
            if takes_turn {
                seats.push(i);
            }
            k += 1;
        }
        seats
    }

    /// Opens a betting street: the players who can act, in seat order from the
    /// first to act, facing the current table-high bet.
    pub fn start_betting_round(&self, preflop: bool) -> (r: BettingRound)
        requires
            self.players@.len() > 0,
        ensures
            r.start == first_to_act(self.dealer_position as int, self.players@.len() as int, preflop),
            r.order@ == seats_where(self.players@, r.start as int, self.players@.len() as int, acting()),
            r.next == 0,
            r.current_bet == self.current_bet,
            r.last_raiser is None,
            !r.raised,
            r.fits(self.players@.len() as int),
    {
        let n = self.players.len();
        let offset: u128 = if preflop { 3 } else { 1 };
        let start = ((self.dealer_position as u128 + offset) % n as u128) as usize;
        let order = self.seats_in_turn(start, false, 0);
        BettingRound { start, order, next: 0, current_bet: self.current_bet, last_raiser: None, raised: false }
    }

    /// The seat whose turn it is, or `None` once the street is over. When a
    /// pass that held a raise ends, the next pass holds every seat, in order
    /// from the street's first seat, whose player must answer the table-high bet.
    pub fn next_turn(&self, round: &mut BettingRound) -> (r: Option<usize>)
        requires
            old(round).fits(self.players@.len() as int),
        ensures
            old(round).next >= old(round).order@.len() && old(round).raised ==> {
                &&& final(round).order@ == seats_where(
                    self.players@,
                    old(round).start as int,
                    self.players@.len() as int,
                    owing(old(round).current_bet),
                )
                &&& final(round).next == 0
                &&& !final(round).raised
            },
            !(old(round).next >= old(round).order@.len() && old(round).raised) ==> *final(round) == *old(round),
            final(round).start == old(round).start,
            final(round).current_bet == old(round).current_bet,
            final(round).last_raiser == old(round).last_raiser,
            final(round).fits(self.players@.len() as int),
            r == if final(round).next < final(round).order@.len() {
                Some(final(round).order@[final(round).next as int])
            } else {
                None::<usize>
            },
            r is None <==> final(round).is_over(),
            street_measure(self.players@, *final(round)) <= street_measure(self.players@, *old(round)),
            street_measure(self.players@, *final(round)) >= 0,
    {
        proof {
            lemma_chips_in_stacks_nonneg(self.players@);
            lemma_seats_where_len(
                self.players@,
                round.start as int,
                self.players@.len() as int,
                owing(round.current_bet),
            );
            let n = self.players@.len() as int;
            assert((n + 2) * chips_in_stacks(self.players@) >= 0) by (nonlinear_arith)
                requires
                    n >= 0,
                    chips_in_stacks(self.players@) >= 0,
            ;
        }
        if round.next >= round.order.len() && round.raised {
            round.order = self.seats_in_turn(round.start, true, round.current_bet);
            round.next = 0;
            round.raised = false;
        }
        if round.next < round.order.len() {
            Some(round.order[round.next])
        } else {
            None
        }
    }

    /// What the player at `player_index` must still put in to call.
    pub fn amount_to_call(&self, round: &BettingRound, player_index: usize) -> (r: u32)
        requires
            player_index < self.players@.len(),
        ensures
            r == to_call(round.current_bet, self.players@[player_index as int]),
    {
        round.current_bet.saturating_sub(self.players[player_index].current_bet)
    }

    /// Applies the decision of the player whose turn it is to commit `bet`
    /// chips (capped at their stack; 0 folds when something is owed and checks
    /// otherwise). Chips committed leave the stack and enter the pot; a bet
    /// that tops the table-high bet raises it and makes this player the last
    /// raiser.
    pub fn apply_bet(&mut self, round: &mut BettingRound, bet: u32)
        requires
            old(round).next < old(round).order@.len(),
            old(round).fits(old(self).players@.len() as int),
        ensures
            ({
                let i = old(round).order@[old(round).next as int];
                let p = old(self).players@[i as int];
                let q = after_bet(p, old(round).current_bet, bet);
                let raise = committed(p, bet) > 0 && q.current_bet > old(round).current_bet;
                &&& final(self).players@ == old(self).players@.update(i as int, q)
                &&& final(self).pot == sat_add(old(self).pot, committed(p, bet))
                &&& final(round).current_bet == if raise { q.current_bet } else { old(round).current_bet }
                &&& final(round).last_raiser == if raise { Some(i) } else { old(round).last_raiser }
                &&& final(round).raised == (old(round).raised || raise)
            }),
            final(round).start == old(round).start,
            final(round).order == old(round).order,
            final(round).next == old(round).next + 1,
            final(round).fits(old(self).players@.len() as int),
            street_measure(final(self).players@, *final(round)) < street_measure(old(self).players@, *old(round)),
            old(self).pot + committed(old(self).players@[old(round).order@[old(round).next as int] as int], bet)
                <= u32::MAX ==> chips_in_stacks(final(self).players@) + final(self).pot == chips_in_stacks(
                old(self).players@,
            ) + old(self).pot,
            final(self).deck == old(self).deck,
            final(self).community_cards == old(self).community_cards,
            final(self).current_bet == old(self).current_bet,
            final(self).last_bettor == old(self).last_bettor,
            final(self).small_blind == old(self).small_blind,
            final(self).big_blind == old(self).big_blind,
            final(self).dealer_position == old(self).dealer_position,
    {
        let i = round.order[round.next];
        let ghost p = self.players@[i as int];
        let ghost q = after_bet(p, round.current_bet, bet);
        let ghost old_players = self.players@;
        let required = round.current_bet.saturating_sub(self.players[i].current_bet);
        let chips = self.players[i].chips;
        let actual_bet = if bet < chips { bet } else { chips };
        if actual_bet == 0 {
            if required > 0 {
                self.players[i].is_active = false;
            }
        } else {
            let total_bet = self.players[i].current_bet.saturating_add(actual_bet);
            self.players[i].current_bet = total_bet;
            self.players[i].chips = chips - actual_bet;
            self.pot = self.pot.saturating_add(actual_bet);
            if total_bet > round.current_bet {
                round.current_bet = total_bet;
                round.last_raiser = Some(i);
                round.raised = true;
            }
        }
        assert(self.players@ =~= old_players.update(i as int, q));
        proof {
            lemma_chips_in_stacks_update(old_players, i as int, q);
            let n = old_players.len() as int;
            let a = committed(p, bet) as int;
            let before = chips_in_stacks(old_players);
            let after = chips_in_stacks(self.players@);
            assert(after == before - a);
            assert((n + 2) * after == (n + 2) * before - (n + 2) * a) by (nonlinear_arith)
                requires
                    after == before - a,
            ;
            if a > 0 {
                assert((n + 2) * a >= n + 2) by (nonlinear_arith)
                    requires
                        a >= 1,
                        n >= 0,
                ;
            }
        }
        let pass_len = round.order.len();
        assert(round.next < pass_len);
        round.next = round.next + 1;
    }

    /// Closes a street: the table-high bet and the last raiser become the game's.
    pub fn finish_betting_round(&mut self, round: &BettingRound)
        ensures
            final(self).current_bet == round.current_bet,
            final(self).last_bettor == round.last_raiser,
            final(self).players == old(self).players,
            final(self).deck == old(self).deck,
            final(self).pot == old(self).pot,
            final(self).community_cards == old(self).community_cards,
            final(self).small_blind == old(self).small_blind,
            final(self).big_blind == old(self).big_blind,
            final(self).dealer_position == old(self).dealer_position,
    {
        self.current_bet = round.current_bet;
        self.last_bettor = round.last_raiser;
    }
}

/// Relies on rand's `Rng::gen_ratio` with `rand::thread_rng()`: true with
/// probability `numerator / denominator`; never true for a numerator of 0,
/// always true when numerator and denominator are equal.
#[verifier::external_body]
fn random_ratio(numerator: u32, denominator: u32) -> (r: bool)
    requires
        0 < denominator,
        numerator <= denominator,
    ensures
        numerator == 0 ==> !r,
        numerator == denominator ==> r,
{
    rand::Rng::gen_ratio(&mut rand::thread_rng(), numerator, denominator)
}

/// Relies on rand's `Rng::gen_range` over `low..=high` with `rand::thread_rng()`:
/// a value inside that range.
#[verifier::external_body]
fn random_in_range(low: u32, high: u32) -> (r: u32)
    requires
        low <= high,
    ensures
        low <= r <= high,
{
    rand::Rng::gen_range(&mut rand::thread_rng(), low..=high)
}

/// Whether two strings hold the same characters.
fn same_text(a: &str, b: &str) -> (r: bool)
    ensures
        r == (a@ == b@),
{
    let n = a.unicode_len();
    if n != b.unicode_len() {
        return false;
    }
    let mut i: usize = 0;
    while i < n
        invariant
            n == a@.len(),
            n == b@.len(),
            i <= n,
            forall|j: int| 0 <= j < i ==> a@[j] == b@[j],
        decreases n - i,
    {
        if a.get_char(i) != b.get_char(i) {
            return false;
        }
        i += 1;
    }
    assert(a@ =~= b@);
    true
}

/// The chance, in percent, that an automated player named `name` raises:
/// 20, 40, 60 or 80 for the four difficulty names, 0 for any other name.
pub open spec fn raise_percent(name: Seq<char>) -> u32 {
    if name == "IA-Facile"@ {
        20
    } else if name == "IA-Interm\u{e9}diaire"@ {
        40
    } else if name == "IA-Difficile"@ {
        60
    } else if name == "IA-Extr\u{ea}mement-Difficile"@ {
        80
    } else {
        0
    }
}

/// The raise chance, in percent, of an automated player with this name.
pub fn raise_chance(name: &str) -> (r: u32)
    ensures
        r == raise_percent(name@),
        r <= 100,
{
    if same_text(name, "IA-Facile") {
        20
    } else if same_text(name, "IA-Interm\u{e9}diaire") {
        40
    } else if same_text(name, "IA-Difficile") {
        60
    } else if same_text(name, "IA-Extr\u{ea}mement-Difficile") {
        80
    } else {
        0
    }
}

/// The bet of an automated player, given the random draws: nothing when the
/// call is beyond the stack; `required + extra` when it chose to raise and has
/// chips beyond the call; otherwise exactly the call.
pub open spec fn ai_bet_value(chips: u32, required: u32, raises: bool, extra: u32) -> int {
    if required > chips {
        0
    } else if raises && chips > required {
        required + extra
    } else {
        required as int
    }
}

/// The bet of an automated player holding `chips`, owing `required`, once the
/// random draws are made: whether it raises, and by how much (`extra`, from 1
/// to what it holds beyond the call).
pub fn ai_choice(chips: u32, required: u32, raises: bool, extra: u32) -> (r: u32)
    requires
        raises && required < chips ==> 1 <= extra <= chips - required,
    ensures
        r == ai_bet_value(chips, required, raises, extra),
        r <= chips,
{
    if required > chips {
        0
    } else if raises && chips > required {
        required + extra
    } else {
        required
    }
}

/// Whether a bet typed by a human holding `chips` and owing `required` is
/// accepted: no more than the stack, and either at least the call or 0 (a
/// fold, or a check when nothing is owed).
pub fn human_bet_accepted(chips: u32, required: u32, bet: u32) -> (r: bool)
    ensures
        r == (bet <= chips && (bet >= required || bet == 0)),
{
    bet <= chips && (bet >= required || bet == 0)
}

impl PokerGame {
    /// The bet of the automated player at `player_index`, owing `required`: it
    /// draws whether to raise (by the chance its name gives) and by how much,
    /// then decides as `ai_choice` does. Whatever is drawn, the bet is 0 when
    /// the call is beyond the stack, never exceeds the stack, and is at least
    /// the call otherwise.
    pub fn ai_bet(&self, player_index: usize, required: u32) -> (r: u32)
        requires
            player_index < self.players@.len(),
        ensures
            ({
                let p = self.players@[player_index as int];
                &&& required > p.chips ==> r == 0
                &&& required <= p.chips ==> required <= r <= p.chips
                &&& raise_percent(p.name@) == 0 ==> r == ai_bet_value(p.chips, required, false, 0)
            }),
    {
        let chips = self.players[player_index].chips;
        if required > chips {
            return 0;
        }
        let chance = raise_chance(self.players[player_index].name.as_str());
        let raises = random_ratio(chance, 100);
        if raises && chips > required {
            let extra = random_in_range(1, chips - required);
            ai_choice(chips, required, raises, extra)
        } else {
            ai_choice(chips, required, raises, 0)
        }
    }
}

} // verus!
