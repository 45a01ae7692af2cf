use vstd::prelude::*;
use crate::card::{Card, Suit};

verus! {

/// How many cards of `cs` satisfy `f`.
pub open spec fn count_where(cs: Seq<Card>, f: spec_fn(Card) -> bool) -> nat
    decreases cs.len(),
{
    if cs.len() == 0 {
        0
    } else {
        count_where(cs.drop_last(), f) + if f(cs.last()) { 1nat } else { 0nat }
    }
}

/// Cards of rank value `v`.
pub open spec fn has_value(v: int) -> spec_fn(Card) -> bool {
    |c: Card| c.value() as int == v
}

/// Cards of suit `s`.
pub open spec fn has_suit(s: Suit) -> spec_fn(Card) -> bool {
    |c: Card| c.suit == s
}

/// Cards of rank value `v` and suit `s`.
pub open spec fn has_value_suit(v: int, s: Suit) -> spec_fn(Card) -> bool {
    |c: Card| c.value() as int == v && c.suit == s
}

/// For each rank value, how many cards of `cs` carry it.
pub open spec fn value_counts(cs: Seq<Card>) -> spec_fn(int) -> nat {
    |v: int| count_where(cs, has_value(v))
}

/// For each suit, how many cards of `cs` carry it.
pub open spec fn suit_counts(cs: Seq<Card>) -> spec_fn(Suit) -> nat {
    |s: Suit| count_where(cs, has_suit(s))
}

/// For each rank value and suit, how many cards of `cs` carry both.
pub open spec fn suited_counts(cs: Seq<Card>) -> spec_fn(int, Suit) -> nat {
    |v: int, s: Suit| count_where(cs, has_value_suit(v, s))
}

/// The ace plays as 1 at the bottom of a straight: value 1 stands for 14.
pub open spec fn ace_low(v: int) -> int {
    if v == 1 { 14 } else { v }
}

/// Five consecutive values ending at `h` (1 standing for the ace) all satisfy `p`.
pub open spec fn run_of(p: spec_fn(int) -> bool, h: int) -> bool {
    forall|k: int| 0 <= k < 5 ==> #[trigger] p(ace_low(h - k))
}

/// The values that `cnt` gives at least one card.
pub open spec fn present(cnt: spec_fn(int) -> nat) -> spec_fn(int) -> bool {
    |v: int| cnt(v) > 0
}

/// The values that `cnt` gives at least `n` cards.
pub open spec fn at_least(cnt: spec_fn(int) -> nat, n: int) -> spec_fn(int) -> bool {
    |v: int| cnt(v) >= n
}

/// The values other than `x` that `cnt` gives at least `n` cards.
pub open spec fn at_least_except(cnt: spec_fn(int) -> nat, n: int, x: int) -> spec_fn(int) -> bool {
    |v: int| v != x && cnt(v) >= n
}

/// The largest `v` in `lo..=hi` with `p(v)`, if any.
pub open spec fn highest_in(p: spec_fn(int) -> bool, lo: int, hi: int) -> Option<int>
    decreases hi - lo + 1,
{
    if hi < lo {
        None
    } else if p(hi) {
        Some(hi)
    } else {
        highest_in(p, lo, hi - 1)
    }
}

/// Some suit holds five consecutive values ending at `h`.
pub open spec fn straight_flush_at(sc: spec_fn(int, Suit) -> nat) -> spec_fn(int) -> bool {
    |h: int|
        run_of(present(in_suit(sc, Suit::Hearts)), h) || run_of(present(in_suit(sc, Suit::Spades)), h)
            || run_of(present(in_suit(sc, Suit::Diamonds)), h) || run_of(present(in_suit(sc, Suit::Clubs)), h)
}

/// Five consecutive values, of any suits, end at `h`.
pub open spec fn straight_at(vc: spec_fn(int) -> nat) -> spec_fn(int) -> bool {
    |h: int| run_of(present(vc), h)
}

/// High card of the best straight flush.
pub open spec fn straight_flush_high(sc: spec_fn(int, Suit) -> nat) -> Option<int> {
    highest_in(straight_flush_at(sc), 5, 14)
}

/// High card of the best straight.
pub open spec fn straight_high(vc: spec_fn(int) -> nat) -> Option<int> {
    highest_in(straight_at(vc), 5, 14)
}

/// The highest rank value held at least `n` times.
pub open spec fn multiple_value(vc: spec_fn(int) -> nat, n: int) -> Option<int> {
    highest_in(at_least(vc, n), 0, 14)
}

/// `triple * 10 + pair` for the highest triple and the highest other pair.
pub open spec fn full_house_value(vc: spec_fn(int) -> nat) -> Option<int> {
    match multiple_value(vc, 3) {
        None => None,
        Some(t) => match highest_in(at_least_except(vc, 2, t), 0, 14) {
            None => None,
            Some(p) => Some(t * 10 + p),
        },
    }
}

/// `higher * 15 + lower` for the two highest pairs.
pub open spec fn two_pair_value(vc: spec_fn(int) -> nat) -> Option<int> {
    match multiple_value(vc, 2) {
        None => None,
        Some(hi) => match highest_in(at_least(vc, 2), 0, hi - 1) {
            None => None,
            Some(lo) => Some(hi * 15 + lo),
        },
    }
}

/// The first suit, in the order Hearts, Spades, Diamonds, Clubs, held five times or more.
pub open spec fn flush_suit(su: spec_fn(Suit) -> nat) -> Option<Suit> {
    if su(Suit::Hearts) >= 5 {
        Some(Suit::Hearts)
    } else if su(Suit::Spades) >= 5 {
        Some(Suit::Spades)
    } else if su(Suit::Diamonds) >= 5 {
        Some(Suit::Diamonds)
    } else if su(Suit::Clubs) >= 5 {
        Some(Suit::Clubs)
    } else {
        None
    }
}

/// The sum of the `k` highest values at or below `v`, where value `x` is held `cnt(x)` times.
pub open spec fn top_sum(cnt: spec_fn(int) -> nat, v: int, k: nat) -> int
    decreases v + 1,
{
    if v < 0 || k == 0 {
        0
    } else {
        let take: nat = if cnt(v) < k { cnt(v) } else { k };
        take * v + top_sum(cnt, v - 1, (k - take) as nat)
    }
}

/// The counts of one suit's values.
pub open spec fn in_suit(sc: spec_fn(int, Suit) -> nat, s: Suit) -> spec_fn(int) -> nat {
    |v: int| sc(v, s)
}

/// The score of a set of cards described by its counts, checked band by band from the top.
pub open spec fn score_of(
    sc: spec_fn(int, Suit) -> nat,
    vc: spec_fn(int) -> nat,
    su: spec_fn(Suit) -> nat,
) -> int {
    if let Some(h) = straight_flush_high(sc) {
        if h == 14 { 1000 } else { 900 + h }
    } else if let Some(q) = multiple_value(vc, 4) {
        800 + q
    } else if let Some(f) = full_house_value(vc) {
        700 + f
    } else if let Some(s) = flush_suit(su) {
        600 + top_sum(in_suit(sc, s), 14, 5)
    } else if let Some(h) = straight_high(vc) {
        500 + h
    } else if let Some(t) = multiple_value(vc, 3) {
        400 + t
    } else if let Some(tp) = two_pair_value(vc) {
        300 + tp
    } else if let Some(p) = multiple_value(vc, 2) {
        200 + p
    } else {
        top_sum(vc, 14, 5)
    }
}

/// The score of the best hand that can be formed from `cs`.
pub open spec fn hand_score(cs: Seq<Card>) -> int {
    score_of(suited_counts(cs), value_counts(cs), suit_counts(cs))
}

/// An `Option<u32>` read as an `Option<int>`.
pub open spec fn opt_int(o: Option<u32>) -> Option<int> {
    match o {
        Some(x) => Some(x as int),
        None => None,
    }
}

/// Position of a suit in the order Hearts, Spades, Diamonds, Clubs.
pub open spec fn suit_index(s: Suit) -> int {
    match s {
        Suit::Hearts => 0,
        Suit::Spades => 1,
        Suit::Diamonds => 2,
        Suit::Clubs => 3,
    }
}

fn suit_slot(s: Suit) -> (r: usize)
    ensures
        r == suit_index(s),
{
    match s {
        Suit::Hearts => 0,
        Suit::Spades => 1,
        Suit::Diamonds => 2,
        Suit::Clubs => 3,
    }
}

/// Counts of a set of cards: per rank value (0..=14), per suit, and per value and suit.
pub struct CardCounts {
    pub by_value: Vec<usize>,
    pub by_suit: Vec<usize>,
    pub by_value_suit: Vec<usize>,
}

impl CardCounts {
    pub open spec fn wf(&self) -> bool {
        self.by_value@.len() == 15 && self.by_suit@.len() == 4 && self.by_value_suit@.len() == 60
    }

    pub open spec fn value_fn(&self) -> spec_fn(int) -> nat {
        |v: int|
            if 0 <= v <= 14 {
                self.by_value@[v] as nat
            } else {
                0
            }
    }

    pub open spec fn suit_fn(&self) -> spec_fn(Suit) -> nat {
        |s: Suit| self.by_suit@[suit_index(s)] as nat
    }

    pub open spec fn suited_fn(&self) -> spec_fn(int, Suit) -> nat {
        |v: int, s: Suit|
            if 0 <= v <= 14 {
                self.by_value_suit@[v * 4 + suit_index(s)] as nat
            } else {
                0
            }
    }

    /// Counts the cards of `hand` and `community` together.
    pub fn of_cards(hand: &[Card], community: &[Card]) -> (r: CardCounts)
        requires
            hand@.len() + community@.len() <= usize::MAX,
        ensures
            r.wf(),
            r.value_fn() == value_counts(hand@ + community@),
            r.suit_fn() == suit_counts(hand@ + community@),
            r.suited_fn() == suited_counts(hand@ + community@),
    {
        let ghost cs = hand@ + community@;
        let mut by_value: Vec<usize> = vec![0; 15];
        let mut by_suit: Vec<usize> = vec![0; 4];
        let mut by_value_suit: Vec<usize> = vec![0; 60];
        let total = hand.len() + community.len();
        let mut i: usize = 0;
        while i < total
            invariant
                total == cs.len(),
                cs == hand@ + community@,
                i <= total,
                by_value@.len() == 15,
                by_suit@.len() == 4,
                by_value_suit@.len() == 60,
                forall|v: int| 0 <= v <= 14 ==> #[trigger] by_value@[v] == count_where(cs.take(i as int), has_value(v)),
                forall|s: Suit| #[trigger] by_suit@[suit_index(s)] == count_where(cs.take(i as int), has_suit(s)),
                forall|v: int, s: Suit| 0 <= v <= 14 ==> #[trigger] by_value_suit@[v * 4 + suit_index(s)] == count_where(cs.take(i as int), has_value_suit(v, s)),
            decreases total - i,
        {
            let card: &Card = if i < hand.len() { &hand[i] } else { &community[i - hand.len()] };
            assert(*card == cs[i as int]);
            let v = card.rank_value();
            let s = suit_slot(card.suit);
            proof {
                lemma_count_where_le(cs.take(i as int), has_value(v as int));
                lemma_count_where_le(cs.take(i as int), has_suit(card.suit));
                lemma_count_where_le(cs.take(i as int), has_value_suit(v as int, card.suit));
            }
            let cv = by_value[v as usize];
            by_value.set(v as usize, cv + 1);
            let cs_ = by_suit[s];
            by_suit.set(s, cs_ + 1);
            let cvs = by_value_suit[v as usize * 4 + s];
            by_value_suit.set(v as usize * 4 + s, cvs + 1);
            proof {
                let prev = cs.take(i as int);
                let next = cs.take(i as int + 1);
                assert(next.drop_last() =~= prev);
                assert(next.last() == *card);
                assert forall|w: int| 0 <= w <= 14 implies #[trigger] by_value@[w] == count_where(next, has_value(w)) by {}
                assert forall|t: Suit| #[trigger] by_suit@[suit_index(t)] == count_where(next, has_suit(t)) by {}
                assert forall|w: int, t: Suit| 0 <= w <= 14 implies #[trigger] by_value_suit@[w * 4 + suit_index(t)] == count_where(next, has_value_suit(w, t)) by {
                    if w * 4 + suit_index(t) == v * 4 + suit_index(card.suit) {
                        assert(w == v && t == card.suit);
                    }
                }
            }
            i += 1;
        }
        proof {
            assert(cs.take(total as int) =~= cs);
            lemma_values_in_range(cs);
        }
        let r = CardCounts { by_value, by_suit, by_value_suit };
        assert(r.value_fn() =~= value_counts(cs));
        assert(r.suit_fn() =~= suit_counts(cs));
        assert(r.suited_fn() =~= suited_counts(cs));
        r
    }
}

/// The counts that a search walks: per value, or per value within one suit.
pub open spec fn counts_for(counts: CardCounts, suit: Option<Suit>) -> spec_fn(int) -> nat {
    match suit {
        None => counts.value_fn(),
        Some(s) => in_suit(counts.suited_fn(), s),
    }
}

fn count_at(counts: &CardCounts, suit: Option<Suit>, v: u32) -> (r: usize)
    requires
        counts.wf(),
        v <= 14,
    ensures
        r == counts_for(*counts, suit)(v as int),
{
    match suit {
        None => counts.by_value[v as usize],
        Some(s) => counts.by_value_suit[v as usize * 4 + suit_slot(s)],
    }
}

/// Whether the five values ending at `h` are all held (in `suit`, if given).
fn has_run(counts: &CardCounts, suit: Option<Suit>, h: u32) -> (r: bool)
    requires
        counts.wf(),
        5 <= h <= 14,
    ensures
        r == run_of(present(counts_for(*counts, suit)), h as int),
{
    let ghost p = present(counts_for(*counts, suit));
    let mut k: u32 = 0;
    while k < 5
        invariant
            counts.wf(),
            5 <= h <= 14,
            k <= 5,
            p == present(counts_for(*counts, suit)),
            forall|j: int| 0 <= j < k ==> #[trigger] p(ace_low(h - j)),
        decreases 5 - k,
    {
        let v = if h - k == 1 { 14 } else { h - k };
        if count_at(counts, suit, v) == 0 {
            assert(!p(ace_low(h - k)));
            return false;
        }
        k += 1;
    }
    true
}

/// The highest rank value held at least `count` times.
pub fn get_rank_value_of_multiple(counts: &CardCounts, count: usize) -> (r: Option<u32>)
    requires
        counts.wf(),
    ensures
        opt_int(r) == multiple_value(counts.value_fn(), count as int),
    r is Some ==> r->0 <= 14,
{
    let ghost p = at_least(counts.value_fn(), count as int);
    let mut i: u32 = 15;
    while i > 0
        invariant
            i <= 15,
            counts.wf(),
            p == at_least(counts.value_fn(), count as int),
            multiple_value(counts.value_fn(), count as int) == highest_in(p, 0, i - 1),
        decreases i,
    {
        i -= 1;
        if counts.by_value[i as usize] >= count {
            return Some(i);
        }
    }
    None
}

/// `triple * 10 + pair` for the highest triple and the highest pair of another value.
pub fn get_full_house_value(counts: &CardCounts) -> (r: Option<u32>)
    requires
        counts.wf(),
    ensures
        opt_int(r) == full_house_value(counts.value_fn()),
    r is Some ==> r->0 <= 154,
{
    let triple = match get_rank_value_of_multiple(counts, 3) {
        Some(t) => t,
        None => return None,
    };
    let ghost p = at_least_except(counts.value_fn(), 2, triple as int);
    let mut i: u32 = 15;
    while i > 0
        invariant
            i <= 15,
            triple <= 14,
            counts.wf(),
            p == at_least_except(counts.value_fn(), 2, triple as int),
            multiple_value(counts.value_fn(), 3) == Some(triple as int),
            highest_in(p, 0, 14) == highest_in(p, 0, i - 1),
        decreases i,
    {
        i -= 1;
        if i != triple && counts.by_value[i as usize] >= 2 {
            assert(p(i as int));
            assert(highest_in(p, 0, i as int) == Some(i as int));
            return Some(triple * 10 + i);
        }
    }
    None
}

/// `higher * 15 + lower` for the two highest pairs.
pub fn get_two_pair_value(counts: &CardCounts) -> (r: Option<u32>)
    requires
        counts.wf(),
    ensures
        opt_int(r) == two_pair_value(counts.value_fn()),
    r is Some ==> r->0 <= 224,
{
    let high = match get_rank_value_of_multiple(counts, 2) {
        Some(h) => h,
        None => return None,
    };
    let ghost p = at_least(counts.value_fn(), 2);
    let mut i: u32 = high;
    while i > 0
        invariant
            i <= high <= 14,
            multiple_value(counts.value_fn(), 2) == Some(high as int),
            counts.wf(),
            p == at_least(counts.value_fn(), 2),
            highest_in(p, 0, high - 1) == highest_in(p, 0, i - 1),
        decreases i,
    {
        i -= 1;
        if counts.by_value[i as usize] >= 2 {
            assert(p(i as int));
            assert(highest_in(p, 0, i as int) == Some(i as int));
            return Some(high * 15 + i);
        }
    }
    None
}

/// The first suit, in the order Hearts, Spades, Diamonds, Clubs, held five times or more.
pub fn get_flush_suit(counts: &CardCounts) -> (r: Option<Suit>)
    requires
        counts.wf(),
    ensures
        r == flush_suit(counts.suit_fn()),
{
    if counts.by_suit[0] >= 5 {
        Some(Suit::Hearts)
    } else if counts.by_suit[1] >= 5 {
        Some(Suit::Spades)
    } else if counts.by_suit[2] >= 5 {
        Some(Suit::Diamonds)
    } else if counts.by_suit[3] >= 5 {
        Some(Suit::Clubs)
    } else {
        None
    }
}

/// The sum of the five highest values held (in `suit`, if given).
fn top_five_sum(counts: &CardCounts, suit: Option<Suit>) -> (r: u32)
    requires
        counts.wf(),
    ensures
        r == top_sum(counts_for(*counts, suit), 14, 5),
        r <= 70,
{
    let ghost cnt = counts_for(*counts, suit);
    let mut v: u32 = 15;
    let mut k: usize = 5;
    let mut acc: u32 = 0;
    while v > 0
        invariant
            v <= 15,
            k <= 5,
            counts.wf(),
            cnt == counts_for(*counts, suit),
            acc + k * 14 <= 70,
            acc + top_sum(cnt, v - 1, k as nat) == top_sum(cnt, 14, 5),
        decreases v,
    {
        v -= 1;
        let c = count_at(counts, suit, v);
        let take = if c < k { c } else { k };
        assert(take * v <= take * 14) by (nonlinear_arith)
            requires
                v <= 14,
        ;
        acc = acc + take as u32 * v;
        k = k - take;
    }
    acc
}

/// The sum of the five highest values of the first suit held five times or more.
pub fn evaluate_flush(counts: &CardCounts) -> (r: Option<u32>)
    requires
        counts.wf(),
    ensures
        opt_int(r) == match flush_suit(counts.suit_fn()) {
            Some(s) => Some(top_sum(in_suit(counts.suited_fn(), s), 14, 5)),
            None => None::<int>,
        },
        r is Some ==> r->0 <= 70,
{
    match get_flush_suit(counts) {
        Some(s) => Some(top_five_sum(counts, Some(s))),
        None => None,
    }
}

/// High card of the best straight, the ace counting low in A-2-3-4-5.
pub fn get_straight_highest(counts: &CardCounts) -> (r: Option<u32>)
    requires
        counts.wf(),
    ensures
        opt_int(r) == straight_high(counts.value_fn()),
    r is Some ==> r->0 <= 14,
{
    let ghost p = straight_at(counts.value_fn());
    let mut h: u32 = 15;
    while h > 5
        invariant
            5 <= h <= 15,
            counts.wf(),
            p == straight_at(counts.value_fn()),
            straight_high(counts.value_fn()) == highest_in(p, 5, h - 1),
        decreases h,
    {
        h -= 1;
        if has_run(counts, None, h) {
            return Some(h);
        }
    }
    None
}

/// High card of the best straight flush, the ace counting low in A-2-3-4-5.
pub fn is_straight_flush(counts: &CardCounts) -> (r: Option<u32>)
    requires
        counts.wf(),
    ensures
        opt_int(r) == straight_flush_high(counts.suited_fn()),
    r is Some ==> r->0 <= 14,
{
    let ghost p = straight_flush_at(counts.suited_fn());
    let mut h: u32 = 15;
    while h > 5
        invariant
            5 <= h <= 15,
            counts.wf(),
            p == straight_flush_at(counts.suited_fn()),
            straight_flush_high(counts.suited_fn()) == highest_in(p, 5, h - 1),
        decreases h,
    {
        h -= 1;
        if has_run(counts, Some(Suit::Hearts), h) || has_run(counts, Some(Suit::Spades), h)
            || has_run(counts, Some(Suit::Diamonds), h) || has_run(counts, Some(Suit::Clubs), h) {
            return Some(h);
        }
    }
    None
}

/// The score of the best five-card hand formed from the hole cards and the
/// community cards: a higher score is a stronger hand. Any number of cards is
/// accepted, so it may be called before all community cards are out.
pub fn evaluate_hand(hand: &[Card], community: &[Card]) -> (r: u32)
    requires
        hand@.len() + community@.len() <= usize::MAX,
    ensures
        r == hand_score(hand@ + community@),
{
    let counts = CardCounts::of_cards(hand, community);
    if let Some(h) = is_straight_flush(&counts) {
        return if h == 14 { 1000 } else { 900 + h };
    }
    if let Some(q) = get_rank_value_of_multiple(&counts, 4) {
        return 800 + q;
    }
    if let Some(f) = get_full_house_value(&counts) {
        return 700 + f;
    }
    if let Some(f) = evaluate_flush(&counts) {
        return 600 + f;
    }
    if let Some(h) = get_straight_highest(&counts) {
        return 500 + h;
    }
    if let Some(t) = get_rank_value_of_multiple(&counts, 3) {
        return 400 + t;
    }
    if let Some(tp) = get_two_pair_value(&counts) {
        return 300 + tp;
    }
    if let Some(p) = get_rank_value_of_multiple(&counts, 2) {
        return 200 + p;
    }
    top_five_sum(&counts, None)
}

/// A count never exceeds the number of cards.
pub proof fn lemma_count_where_le(cs: Seq<Card>, f: spec_fn(Card) -> bool)
    ensures
        count_where(cs, f) <= cs.len(),
    decreases cs.len(),
{
    if cs.len() > 0 {
        lemma_count_where_le(cs.drop_last(), f);
    }
}

/// No card has a rank value outside 0..=14, so those values are never counted.
pub proof fn lemma_values_in_range(cs: Seq<Card>)
    ensures
        forall|v: int| !(0 <= v <= 14) ==> count_where(cs, #[trigger] has_value(v)) == 0,
        forall|v: int, s: Suit| !(0 <= v <= 14) ==> count_where(cs, #[trigger] has_value_suit(v, s)) == 0,
    decreases cs.len(),
{
    if cs.len() > 0 {
        lemma_values_in_range(cs.drop_last());
    }
}


/// Taking one card out of a sequence lowers a count by exactly that card's share.
pub proof fn lemma_count_where_remove(cs: Seq<Card>, i: int, f: spec_fn(Card) -> bool)
    requires
        0 <= i < cs.len(),
    ensures
        count_where(cs, f) == count_where(cs.remove(i), f) + if f(cs[i]) { 1nat } else { 0nat },
    decreases cs.len(),
{
    if i < cs.len() - 1 {
        lemma_count_where_remove(cs.drop_last(), i, f);
        assert(cs.remove(i).drop_last() =~= cs.drop_last().remove(i));
        assert(cs.remove(i).last() == cs.last());
    } else {
        assert(cs.remove(i) =~= cs.drop_last());
    }
}

/// Two sequences holding the same cards, in any order, have the same counts.
pub proof fn lemma_count_where_permutation(a: Seq<Card>, b: Seq<Card>, f: spec_fn(Card) -> bool)
    requires
        a.to_multiset() == b.to_multiset(),
    ensures
        count_where(a, f) == count_where(b, f),
    decreases a.len(),
{
    broadcast use vstd::seq_lib::group_to_multiset_ensures;

    if a.len() == 0 {
        assert(b.to_multiset().len() == 0);
    } else {
        let x = a.last();
        assert(a.to_multiset().count(x) > 0);
        assert(b.contains(x));
        let j = choose|j: int| 0 <= j < b.len() && b[j] == x;
        assert(a.remove(a.len() - 1) =~= a.drop_last());
        assert(a.drop_last().to_multiset() == b.remove(j).to_multiset());
        lemma_count_where_permutation(a.drop_last(), b.remove(j), f);
        lemma_count_where_remove(b, j, f);
    }
}

/// The score depends only on which cards are held, not on their order:
/// any rearrangement of the same cards, however split between hole cards
/// and community cards, scores the same.
pub proof fn lemma_score_permutation(a: Seq<Card>, b: Seq<Card>)
    requires
        a.to_multiset() == b.to_multiset(),
    ensures
        hand_score(a) == hand_score(b),
{
    assert forall|v: int| #[trigger] value_counts(a)(v) == value_counts(b)(v) by {
        lemma_count_where_permutation(a, b, has_value(v));
    }
    assert forall|s: Suit| #[trigger] suit_counts(a)(s) == suit_counts(b)(s) by {
        lemma_count_where_permutation(a, b, has_suit(s));
    }
    assert forall|v: int, s: Suit| #[trigger] suited_counts(a)(v, s) == suited_counts(b)(v, s) by {
        lemma_count_where_permutation(a, b, has_value_suit(v, s));
    }
    assert(value_counts(a) =~= value_counts(b));
    assert(suit_counts(a) =~= suit_counts(b));
    assert(suited_counts(a) =~= suited_counts(b));
}

/// What `highest_in` finds lies in its range and satisfies the predicate.
pub proof fn lemma_highest_in_range(p: spec_fn(int) -> bool, lo: int, hi: int)
    ensures
        highest_in(p, lo, hi) matches Some(x) ==> lo <= x <= hi && p(x),
    decreases hi - lo + 1,
{
    if hi >= lo && !p(hi) {
        lemma_highest_in_range(p, lo, hi - 1);
    }
}

/// The sum of the `k` highest values at or below `v` lies between 0 and `k * v`.
pub proof fn lemma_top_sum_range(cnt: spec_fn(int) -> nat, v: int, k: nat)
    ensures
        0 <= top_sum(cnt, v, k),
        v >= 0 ==> top_sum(cnt, v, k) <= k * v,
    decreases v + 1,
{
    if v >= 0 && k > 0 {
        let take: nat = if cnt(v) < k { cnt(v) } else { k };
        let rest = top_sum(cnt, v - 1, (k - take) as nat);
        lemma_top_sum_range(cnt, v - 1, (k - take) as nat);
        assert(top_sum(cnt, v, k) == take * v + rest);
        if v == 0 {
            assert(rest == 0);
            assert(take * v == 0) by (nonlinear_arith)
                requires
                    v == 0,
            ;
            assert(k * v == 0) by (nonlinear_arith)
                requires
                    v == 0,
            ;
        } else {
            assert(rest <= (k - take) * (v - 1));
            assert(take * v >= 0) by (nonlinear_arith)
                requires
                    v >= 0,
            ;
            assert((k - take) * (v - 1) + take * v <= k * v) by (nonlinear_arith)
                requires
                    v >= 1,
                    take <= k,
            ;
        }
    }
}

/// The band of a set of cards, from 8 (straight flush) down to 0 (high card).
pub open spec fn category(cs: Seq<Card>) -> int {
    let sc = suited_counts(cs);
    let vc = value_counts(cs);
    if straight_flush_high(sc) is Some {
        8
    } else if multiple_value(vc, 4) is Some {
        7
    } else if full_house_value(vc) is Some {
        6
    } else if flush_suit(suit_counts(cs)) is Some {
        5
    } else if straight_high(vc) is Some {
        4
    } else if multiple_value(vc, 3) is Some {
        3
    } else if two_pair_value(vc) is Some {
        2
    } else if multiple_value(vc, 2) is Some {
        1
    } else {
        0
    }
}

/// The lowest score of a band: 0 for high card, then 200, 300, ... 900.
pub open spec fn band_floor(c: int) -> int {
    if c == 0 { 0 } else { 100 + 100 * c }
}

/// The highest score of each band.
pub open spec fn band_ceiling(c: int) -> int {
    if c == 8 {
        1000
    } else if c == 7 {
        814
    } else if c == 6 {
        854
    } else if c == 5 {
        670
    } else if c == 4 {
        514
    } else if c == 3 {
        414
    } else if c == 2 {
        524
    } else if c == 1 {
        214
    } else {
        70
    }
}

/// Every score lies between its band's floor and ceiling.
pub proof fn lemma_score_in_band(cs: Seq<Card>)
    ensures
        band_floor(category(cs)) <= hand_score(cs) <= band_ceiling(category(cs)),
        category(cs) == 8 ==> hand_score(cs) >= 905,
{
    let sc = suited_counts(cs);
    let vc = value_counts(cs);
    let su = suit_counts(cs);
    lemma_highest_in_range(straight_flush_at(sc), 5, 14);
    lemma_highest_in_range(at_least(vc, 4), 0, 14);
    lemma_highest_in_range(at_least(vc, 3), 0, 14);
    lemma_highest_in_range(at_least(vc, 2), 0, 14);
    lemma_highest_in_range(straight_at(vc), 5, 14);
    if let Some(t) = multiple_value(vc, 3) {
        lemma_highest_in_range(at_least_except(vc, 2, t), 0, 14);
        if let Some(f) = full_house_value(vc) {
            assert(0 <= f <= 154);
        }
    }
    if let Some(hi) = multiple_value(vc, 2) {
        lemma_highest_in_range(at_least(vc, 2), 0, hi - 1);
        if let Some(tp) = two_pair_value(vc) {
            assert(0 <= tp <= 224);
        }
    }
    lemma_top_sum_range(vc, 14, 5);
    if let Some(s) = flush_suit(su) {
        lemma_top_sum_range(in_suit(sc, s), 14, 5);
    }
    assert(hand_score(cs) == score_of(sc, vc, su));
}

/// A straight flush outscores every hand that is not one.
pub proof fn lemma_straight_flush_beats_all(a: Seq<Card>, b: Seq<Card>)
    requires
        category(a) == 8,
        category(b) < 8,
    ensures
        hand_score(a) > hand_score(b),
{
    lemma_score_in_band(a);
    lemma_score_in_band(b);
}

/// A hand of a higher band outscores one of a lower band, as long as the
/// lower hand's tie-break stays within its band (below its floor plus 100).
/// The full-house and two-pair tie-breaks (`triple * 10 + pair`,
/// `higher * 15 + lower`) can leave their band, and then the order between
/// bands no longer holds.
pub proof fn lemma_band_order(a: Seq<Card>, b: Seq<Card>)
    requires
        category(a) > category(b),
        hand_score(b) < band_floor(category(b)) + 100,
    ensures
        hand_score(a) > hand_score(b),
{
    lemma_score_in_band(a);
    lemma_score_in_band(b);
}


/// With no value in range satisfying `p`, `highest_in` finds nothing.
pub proof fn lemma_highest_in_none(p: spec_fn(int) -> bool, lo: int, hi: int)
    requires
        forall|v: int| lo <= v <= hi ==> !#[trigger] p(v),
    ensures
        highest_in(p, lo, hi) is None,
    decreases hi - lo + 1,
{
    if hi >= lo {
        lemma_highest_in_none(p, lo, hi - 1);
    }
}

/// A count over two cards is the sum of their two shares.
pub proof fn lemma_count_two(cs: Seq<Card>, f: spec_fn(Card) -> bool)
    requires
        cs.len() == 2,
    ensures
        count_where(cs, f) == (if f(cs[0]) { 1nat } else { 0nat }) + (if f(cs[1]) { 1nat } else { 0nat }),
{
    let one = cs.drop_last();
    assert(one.drop_last().len() == 0);
    assert(one.last() == cs[0]);
    assert(count_where(one.drop_last(), f) == 0);
    assert(count_where(one, f) == if f(cs[0]) { 1nat } else { 0nat });
    assert(cs.last() == cs[1]);
}

/// Two hole cards of different values and no community cards make a high-card
/// hand: the evaluation succeeds and stays within the high-card band (at most 199).
/// Two cards of the same value make a pair, which scores above that band.
pub proof fn lemma_two_hole_cards_score(hand: Seq<Card>, community: Seq<Card>)
    requires
        hand.len() == 2,
        community.len() == 0,
        hand[0].value() != hand[1].value(),
    ensures
        category(hand + community) == 0,
        hand_score(hand + community) <= 199,
{
    let cs = hand + community;
    assert(cs =~= hand);
    let sc = suited_counts(cs);
    let vc = value_counts(cs);
    let su = suit_counts(cs);
    let x = hand[0].value() as int;
    let y = hand[1].value() as int;
    assert forall|v: int| #[trigger] vc(v) == (if v == x { 1nat } else { 0nat }) + (if v == y { 1nat } else { 0nat }) by {
        lemma_count_two(cs, has_value(v));
    }
    assert forall|v: int, s: Suit| #[trigger] sc(v, s) > 0 implies v == x || v == y by {
        lemma_count_two(cs, has_value_suit(v, s));
    }
    assert forall|s: Suit| #[trigger] su(s) <= 2 by {
        lemma_count_two(cs, has_suit(s));
    }
    assert forall|h: int| 5 <= h <= 14 implies !#[trigger] straight_flush_at(sc)(h) by {
        assert forall|s: Suit| !run_of(present(in_suit(sc, s)), h) by {
            let p = present(in_suit(sc, s));
            if run_of(p, h) {
                assert(p(ace_low(h - 0)));
                assert(p(ace_low(h - 1)));
                assert(p(ace_low(h - 2)));
            }
        }
    }
    assert forall|h: int| 5 <= h <= 14 implies !#[trigger] straight_at(vc)(h) by {
        let p = present(vc);
        if run_of(p, h) {
            assert(p(ace_low(h - 0)));
            assert(p(ace_low(h - 1)));
            assert(p(ace_low(h - 2)));
        }
    }
    lemma_highest_in_none(straight_flush_at(sc), 5, 14);
    lemma_highest_in_none(straight_at(vc), 5, 14);
    lemma_highest_in_none(at_least(vc, 4), 0, 14);
    lemma_highest_in_none(at_least(vc, 3), 0, 14);
    lemma_highest_in_none(at_least(vc, 2), 0, 14);
    lemma_top_sum_range(vc, 14, 5);
}

} // verus!
