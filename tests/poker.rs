use poker_engine::betting::{ai_choice, human_bet_accepted, raise_chance};
use poker_engine::card::{Card, Suit};
use poker_engine::evaluator::evaluate_hand;
use poker_engine::player::Player;
use poker_engine::poker_game::PokerGame;

fn card(rank: &str, suit: Suit) -> Card {
    Card { rank: rank.to_string(), suit }
}

fn cards(spec: &[(&str, Suit)]) -> Vec<Card> {
    spec.iter().map(|(r, s)| card(r, *s)).collect()
}

use Suit::{Clubs as C, Diamonds as D, Hearts as H, Spades as S};

#[test]
fn rank_values_cover_every_rank() {
    let names = ["2", "3", "4", "5", "6", "7", "8", "9", "10", "J", "Q", "K", "A"];
    for (i, n) in names.iter().enumerate() {
        assert_eq!(card(n, H).rank_value(), i as u32 + 2);
    }
    assert_eq!(card("1", H).rank_value(), 0);
    assert_eq!(card("11", H).rank_value(), 0);
    assert_eq!(card("", H).rank_value(), 0);
}

#[test]
fn card_text_is_rank_then_suit_symbol() {
    assert_eq!(card("10", H).to_string(), "10\u{2665}\u{fe0f}");
    assert_eq!(card("A", S).to_string(), "A\u{2660}\u{fe0f}");
    assert_eq!(card("Q", D).to_string(), "Q\u{2666}\u{fe0f}");
    assert_eq!(card("2", C).to_string(), "2\u{2663}\u{fe0f}");
}

#[test]
fn royal_flush_scores_1000() {
    let hand = cards(&[("A", S), ("K", S)]);
    let board = cards(&[("Q", S), ("J", S), ("10", S), ("2", H), ("3", D)]);
    assert_eq!(evaluate_hand(&hand, &board), 1000);
}

#[test]
fn wheel_straight_flush_scores_five_high() {
    let hand = cards(&[("A", H), ("2", H)]);
    let board = cards(&[("3", H), ("4", H), ("5", H), ("K", S), ("Q", D)]);
    assert_eq!(evaluate_hand(&hand, &board), 905);
}

#[test]
fn best_straight_flush_is_taken() {
    let hand = cards(&[("9", C), ("8", C)]);
    let board = cards(&[("7", C), ("6", C), ("5", C), ("4", C), ("K", D)]);
    assert_eq!(evaluate_hand(&hand, &board), 909);
}

#[test]
fn four_of_a_kind_scores_800_plus_rank() {
    let hand = cards(&[("9", C), ("9", D)]);
    let board = cards(&[("9", H), ("9", S), ("A", D), ("K", S), ("2", C)]);
    assert_eq!(evaluate_hand(&hand, &board), 809);
}

#[test]
fn full_house_scores_triple_times_ten_plus_pair() {
    let hand = cards(&[("K", C), ("K", D)]);
    let board = cards(&[("K", H), ("4", S), ("4", D), ("4", C), ("2", C)]);
    // triples of kings and fours: the higher triple, the fours as the pair
    assert_eq!(evaluate_hand(&hand, &board), 700 + 13 * 10 + 4);
}

#[test]
fn flush_scores_sum_of_top_five_suited() {
    let hand = cards(&[("A", D), ("9", D)]);
    let board = cards(&[("8", D), ("7", D), ("6", D), ("2", D), ("K", S)]);
    assert_eq!(evaluate_hand(&hand, &board), 600 + 14 + 9 + 8 + 7 + 6);
}

#[test]
fn straight_scores_500_plus_high_card() {
    let hand = cards(&[("9", C), ("8", D)]);
    let board = cards(&[("7", H), ("6", S), ("5", D), ("4", C), ("K", S)]);
    assert_eq!(evaluate_hand(&hand, &board), 509);
}

#[test]
fn wheel_straight_scores_505() {
    let hand = cards(&[("A", C), ("2", D)]);
    let board = cards(&[("3", H), ("4", S), ("5", D), ("9", C), ("K", S)]);
    assert_eq!(evaluate_hand(&hand, &board), 505);
}

#[test]
fn three_of_a_kind_two_pair_pair_and_high_card() {
    let trips = cards(&[("7", C), ("7", D), ("7", H), ("2", S), ("9", D)]);
    assert_eq!(evaluate_hand(&trips, &[]), 407);
    let two_pair = cards(&[("Q", C), ("Q", D), ("3", H), ("3", S), ("5", D), ("5", C)]);
    assert_eq!(evaluate_hand(&two_pair, &[]), 300 + 12 * 15 + 5);
    let pair = cards(&[("J", C), ("J", D), ("3", H), ("8", S), ("5", D)]);
    assert_eq!(evaluate_hand(&pair, &[]), 211);
    let high = cards(&[("A", C), ("J", D), ("3", H), ("8", S), ("6", D), ("2", C), ("9", S)]);
    assert_eq!(evaluate_hand(&high, &[]), 14 + 11 + 9 + 8 + 6);
}

#[test]
fn two_hole_cards_without_board() {
    let hand = cards(&[("A", C), ("K", D)]);
    let score = evaluate_hand(&hand, &[]);
    assert_eq!(score, 27);
    assert!(score <= 199);
    let pocket_pair = cards(&[("A", C), ("A", D)]);
    assert_eq!(evaluate_hand(&pocket_pair, &[]), 214);
    assert_eq!(evaluate_hand(&[], &[]), 0);
}

#[test]
fn score_ignores_card_order_and_split() {
    let all = cards(&[("A", H), ("K", H), ("4", C), ("4", D), ("9", S), ("9", H), ("2", C)]);
    let base = evaluate_hand(&all[..2], &all[2..]);
    let mut reversed = all.clone();
    reversed.reverse();
    assert_eq!(evaluate_hand(&reversed[..2], &reversed[2..]), base);
    assert_eq!(evaluate_hand(&all[5..], &all[..5]), base);
    assert_eq!(evaluate_hand(&[], &all), base);
}

#[test]
fn bands_order_straight_flush_quads_full_house() {
    let sf = evaluate_hand(&cards(&[("6", S), ("5", S), ("4", S), ("3", S), ("2", S)]), &[]);
    let quads = evaluate_hand(&cards(&[("A", S), ("A", H), ("A", D), ("A", C), ("K", S)]), &[]);
    let full = evaluate_hand(&cards(&[("7", S), ("7", H), ("7", D), ("2", C), ("2", S)]), &[]);
    assert!(sf > quads);
    assert!(quads > full);
}

fn table(stacks: &[u32]) -> PokerGame {
    let players = stacks
        .iter()
        .enumerate()
        .map(|(i, &c)| {
            let mut p = Player::new(format!("seat{}", i), false);
            p.chips = c;
            p
        })
        .collect();
    PokerGame::new(players)
}

#[test]
fn new_player_defaults() {
    let p = Player::new("ann".to_string(), true);
    assert_eq!(p.name, "ann");
    assert_eq!(p.chips, 100);
    assert!(p.hand.is_empty());
    assert!(p.is_human);
    assert!(p.is_active);
    assert_eq!(p.current_bet, 0);
}

#[test]
fn new_game_has_a_full_shuffled_deck() {
    let g = table(&[100, 100]);
    assert_eq!(g.deck.len(), 52);
    let mut seen = std::collections::HashSet::new();
    for c in &g.deck {
        assert!(c.rank_value() >= 2);
        seen.insert((c.rank_value(), c.suit));
    }
    assert_eq!(seen.len(), 52);
    assert_eq!((g.pot, g.current_bet, g.small_blind, g.big_blind, g.dealer_position), (0, 0, 5, 10, 0));
    // the unshuffled order would be hearts 2..A, spades 2..A, ...
    let unshuffled = (0..52).all(|k| {
        g.deck[k].rank_value() == (k % 13) as u32 + 2
    });
    assert!(!unshuffled);
}

#[test]
fn calling_street_settles_in_one_pass() {
    let mut g = table(&[100, 100, 100]);
    g.current_bet = 10;
    let mut round = g.start_betting_round(false);
    let mut turns = 0;
    while let Some(i) = g.next_turn(&mut round) {
        let required = g.amount_to_call(&round, i);
        g.apply_bet(&mut round, required);
        turns += 1;
    }
    g.finish_betting_round(&round);
    assert_eq!(turns, 3);
    for p in &g.players {
        assert_eq!(p.current_bet, 10);
        assert_eq!(p.chips, 90);
        assert!(p.is_active);
    }
    assert_eq!(g.pot, 30);
    assert_eq!(g.current_bet, 10);
    assert_eq!(g.last_bettor, None);
}

#[test]
fn short_stacks_go_all_in_and_leave_the_worklist() {
    let mut g = table(&[100, 30, 30]);
    g.dealer_position = 2; // action starts at seat 0
    let mut round = g.start_betting_round(false);
    let mut turns = Vec::new();
    while let Some(i) = g.next_turn(&mut round) {
        let bet = if i == 0 && g.players[0].current_bet == 0 { 50 } else { g.amount_to_call(&round, i) };
        g.apply_bet(&mut round, bet);
        turns.push(i);
    }
    g.finish_betting_round(&round);
    assert_eq!(turns, vec![0, 1, 2]);
    assert_eq!(g.current_bet, 50);
    assert_eq!(g.last_bettor, Some(0));
    for i in 1..3 {
        assert!(g.players[i].is_active);
        assert_eq!(g.players[i].chips, 0);
        assert_eq!(g.players[i].current_bet, 30);
    }
    assert_eq!(g.pot, 110);
}

#[test]
fn zero_when_owing_folds_and_zero_when_not_checks() {
    let mut g = table(&[100, 100]);
    g.current_bet = 10;
    g.players[1].current_bet = 10;
    let mut round = g.start_betting_round(false);
    // dealer 0: seat 1 acts first, owes nothing and checks
    assert_eq!(g.next_turn(&mut round), Some(1));
    g.apply_bet(&mut round, 0);
    assert!(g.players[1].is_active);
    assert_eq!(g.next_turn(&mut round), Some(0));
    g.apply_bet(&mut round, 0);
    assert!(!g.players[0].is_active);
    assert_eq!(g.next_turn(&mut round), None);
    assert_eq!(g.pot, 0);
}

#[test]
fn reraise_requeues_players_behind() {
    let mut g = table(&[100, 100, 100]);
    g.dealer_position = 2;
    let mut round = g.start_betting_round(false);
    let mut bets = vec![(0usize, 10u32), (1, 30), (2, 30), (0, 20)].into_iter();
    while let Some(i) = g.next_turn(&mut round) {
        let (who, bet) = bets.next().unwrap();
        assert_eq!(who, i);
        g.apply_bet(&mut round, bet);
    }
    assert!(bets.next().is_none());
    assert_eq!(round.current_bet, 30);
    assert_eq!(round.last_raiser, Some(1));
    assert_eq!(g.pot, 90);
}

#[test]
fn short_big_blind_posts_all_in() {
    let mut g = table(&[100, 100, 3]);
    g.collect_blinds();
    // dealer 0: small blind at seat 1, big blind at seat 2
    assert_eq!(g.players[1].current_bet, 5);
    assert_eq!(g.players[1].chips, 95);
    assert_eq!(g.players[2].current_bet, 3);
    assert_eq!(g.players[2].chips, 0);
    assert_eq!(g.pot, 8);
    assert_eq!(g.current_bet, 5);
}

#[test]
fn full_blinds_set_table_bet_to_big_blind() {
    let mut g = table(&[100, 100, 100]);
    g.collect_blinds();
    assert_eq!(g.current_bet, 10);
    assert_eq!(g.pot, 15);
    assert_eq!(g.place_blind(0, 200), 100);
    assert_eq!(g.players[0].chips, 0);
}

fn play_calling_street(g: &mut PokerGame, preflop: bool) {
    let mut round = g.start_betting_round(preflop);
    while let Some(i) = g.next_turn(&mut round) {
        let required = g.amount_to_call(&round, i);
        g.apply_bet(&mut round, required);
    }
    g.finish_betting_round(&round);
}

#[test]
fn heads_up_round_with_calls_only() {
    let mut g = table(&[100, 100]);
    g.reset_round();
    g.collect_blinds();
    g.deal_hole_cards();
    play_calling_street(&mut g, true);
    assert_eq!(g.pot, 20);
    for count in [3usize, 1, 1] {
        g.deal_community_cards(count);
        play_calling_street(&mut g, false);
    }
    assert_eq!(g.community_cards.len(), 5);
    assert_eq!(g.deck.len(), 52 - 4 - 5);
    assert_eq!(g.pot, 20);
    let scores: Vec<u32> = g.players.iter().map(|p| evaluate_hand(&p.hand, &g.community_cards)).collect();
    let winner = g.award_pot();
    let loser = 1 - winner;
    assert!(scores[winner] >= scores[loser]);
    if scores[0] == scores[1] {
        assert_eq!(winner, 0);
    }
    assert_eq!(g.players[winner].chips, 110);
    assert_eq!(g.players[loser].chips, 90);
    g.remove_broke_players();
    assert_eq!(g.players.len(), 2);
    g.advance_dealer();
    assert_eq!(g.dealer_position, 1);
}

#[test]
fn folded_seat_never_wins_even_with_nothing_scored() {
    let mut g = table(&[100, 100, 100]);
    g.players[0].is_active = false;
    g.players[0].hand = cards(&[("A", S), ("A", H)]);
    // seats 1 and 2 hold no cards and score 0
    assert_eq!(g.determine_winner(), 1);
    g.pot = 30;
    assert_eq!(g.award_pot(), 1);
    assert_eq!(g.players[1].chips, 130);
}

#[test]
fn round_steps_in_order_with_calls_only() {
    let mut g = table(&[100, 100]);
    g.start_round();
    assert_eq!(g.pot, 15);
    assert_eq!(g.current_bet, 10);
    for p in &g.players {
        assert_eq!(p.hand.len(), 2);
    }
    assert_eq!(g.deck.len(), 48);
    for street in 0..4 {
        let mut round = g.open_street(street);
        while let Some(i) = g.next_turn(&mut round) {
            let required = g.amount_to_call(&round, i);
            g.apply_bet(&mut round, required);
        }
        g.finish_betting_round(&round);
    }
    assert_eq!(g.community_cards.len(), 5);
    assert_eq!(g.pot, 20);
    let scores: Vec<u32> = g.players.iter().map(|p| evaluate_hand(&p.hand, &g.community_cards)).collect();
    let winner = g.end_round();
    let loser = 1 - winner;
    assert!(scores[winner] >= scores[loser]);
    assert_eq!(g.players.len(), 2);
    assert_eq!(g.players[winner].chips, 110);
    assert_eq!(g.players[loser].chips, 90);
}

#[test]
fn end_round_removes_broke_players() {
    let mut g = table(&[0, 100, 0]);
    g.players[0].is_active = false;
    g.players[2].is_active = false;
    g.pot = 50;
    assert_eq!(g.end_round(), 1);
    assert_eq!(g.players.len(), 1);
    assert_eq!(g.players[0].chips, 150);
}

#[test]
fn reset_round_restores_players() {
    let mut g = table(&[100, 100]);
    g.players[0].is_active = false;
    g.players[0].current_bet = 7;
    g.players[1].hand.push(card("2", H));
    g.pot = 40;
    g.current_bet = 12;
    g.last_bettor = Some(1);
    g.community_cards.push(card("3", H));
    g.reset_round();
    assert_eq!(g.deck.len(), 52);
    assert_eq!((g.pot, g.current_bet, g.last_bettor), (0, 0, None));
    assert!(g.community_cards.is_empty());
    for p in &g.players {
        assert!(p.is_active);
        assert_eq!(p.current_bet, 0);
        assert!(p.hand.is_empty());
        assert_eq!(p.chips, 100);
    }
}

#[test]
fn dealing_takes_cards_from_the_top() {
    let mut g = table(&[100, 100, 100]);
    let top: Vec<String> = g.deck.iter().rev().take(6).map(|c| c.to_string()).collect();
    g.deal_hole_cards();
    assert_eq!(g.deck.len(), 46);
    for i in 0..3 {
        assert_eq!(g.players[i].hand[0].to_string(), top[i]);
        assert_eq!(g.players[i].hand[1].to_string(), top[3 + i]);
    }
    let next = g.deck.last().unwrap().to_string();
    g.deal_community_cards(3);
    assert_eq!(g.community_cards[0].to_string(), next);
    assert_eq!(g.deck.len(), 43);
    g.deck.truncate(1);
    g.deal_community_cards(1);
    assert_eq!(g.community_cards.len(), 4);
    assert!(g.deck.is_empty());
}

#[test]
fn winner_is_first_best_active_seat() {
    let mut g = table(&[100, 100, 100]);
    g.community_cards = cards(&[("2", C), ("7", D), ("9", H), ("J", S), ("4", D)]);
    g.players[0].hand = cards(&[("A", S), ("A", H)]);
    g.players[1].hand = cards(&[("K", S), ("K", H)]);
    g.players[2].hand = cards(&[("A", D), ("A", C)]);
    assert_eq!(g.determine_winner(), 0);
    g.players[0].is_active = false;
    assert_eq!(g.determine_winner(), 2);
    g.players[2].is_active = false;
    assert_eq!(g.determine_winner(), 1);
}

#[test]
fn broke_players_are_removed_in_order() {
    let mut g = table(&[0, 50, 0, 20]);
    g.remove_broke_players();
    let left: Vec<(String, u32)> = g.players.iter().map(|p| (p.name.clone(), p.chips)).collect();
    assert_eq!(left, vec![("seat1".to_string(), 50), ("seat3".to_string(), 20)]);
}

#[test]
fn positions_split_the_table_in_thirds() {
    let g = table(&[100; 6]);
    assert_eq!(g.get_position(0), "early");
    assert_eq!(g.get_position(1), "early");
    assert_eq!(g.get_position(2), "middle");
    assert_eq!(g.get_position(3), "middle");
    assert_eq!(g.get_position(4), "late");
    assert_eq!(g.get_position(5), "late");
}

#[test]
fn automated_choices() {
    assert_eq!(ai_choice(100, 10, false, 0), 10);
    assert_eq!(ai_choice(100, 10, true, 25), 35);
    assert_eq!(ai_choice(10, 10, true, 0), 10);
    assert_eq!(ai_choice(5, 10, true, 3), 0);
    assert_eq!(raise_chance("IA-Facile"), 20);
    assert_eq!(raise_chance("IA-Interm\u{e9}diaire"), 40);
    assert_eq!(raise_chance("IA-Difficile"), 60);
    assert_eq!(raise_chance("IA-Extr\u{ea}mement-Difficile"), 80);
    assert_eq!(raise_chance("IA-1-2"), 0);
}

#[test]
fn automated_bets_stay_within_stack() {
    let mut g = table(&[100, 5]);
    g.players[0].name = "IA-Extr\u{ea}mement-Difficile".to_string();
    let mut raised = false;
    for _ in 0..200 {
        let b = g.ai_bet(0, 10);
        assert!((10..=100).contains(&b));
        raised |= b > 10;
    }
    assert!(raised);
    // the second seat's name gives no raise chance: it calls, or gives up when short
    assert_eq!(g.ai_bet(1, 5), 5);
    assert_eq!(g.ai_bet(1, 6), 0);
}

#[test]
fn human_bets_are_checked() {
    assert!(human_bet_accepted(100, 10, 10));
    assert!(human_bet_accepted(100, 10, 0));
    assert!(human_bet_accepted(100, 10, 100));
    assert!(!human_bet_accepted(100, 10, 5));
    assert!(!human_bet_accepted(100, 10, 101));
    assert!(human_bet_accepted(100, 0, 0));
}
