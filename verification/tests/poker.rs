use poker_equity::card::{encode_board, encode_card, Card, HandType, Player, Rank, Suit};
use poker_equity::combos::comb;
use poker_equity::deck::{
    chosen_player, full_deck, parse_player_count, player_from_input, random_board_card,
    random_hand, remaining_cards, try_add_card,
};
use poker_equity::hand::{eval, sort_cards_desc, EvalResult};
use poker_equity::results::ResultsManager;
use poker_equity::simulate::evaluate_all;
use poker_equity::tracker::CardTracker;

fn c(s: &str) -> Card {
    Card::from_str(s).unwrap()
}

fn cards(list: &[&str]) -> Vec<Card> {
    list.iter().map(|s| c(s)).collect()
}

fn evaluate(hand: &[&str], board: &[&str]) -> EvalResult {
    eval(&cards(hand), &cards(board))
}

#[test]
fn from_str_reads_rank_then_suit() {
    assert_eq!(Card::from_str("ah"), Some(Card { rank: Rank::Ace, suit: Suit::Hearts }));
    assert_eq!(Card::from_str("2s"), Some(Card { rank: Rank::Two, suit: Suit::Spades }));
    assert_eq!(Card::from_str("tc"), Some(Card { rank: Rank::Ten, suit: Suit::Clubs }));
    assert_eq!(Card::from_str("qd"), Some(Card { rank: Rank::Queen, suit: Suit::Diamonds }));
    assert_eq!(Card::from_str("ahx"), Some(Card { rank: Rank::Ace, suit: Suit::Hearts }));
}

#[test]
fn from_str_reads_one_as_ace() {
    assert_eq!(Card::from_str("1s"), Some(Card { rank: Rank::Ace, suit: Suit::Spades }));
    assert_eq!(Card::from_str("1h"), Card::from_str("ah"));
}

#[test]
fn from_str_rejects_other_text() {
    assert_eq!(Card::from_str("AH"), None);
    assert_eq!(Card::from_str("a"), None);
    assert_eq!(Card::from_str(""), None);
    assert_eq!(Card::from_str("0h"), None);
    assert_eq!(Card::from_str("hx"), None);
    assert_eq!(Card::from_str("ax"), None);
}

#[test]
fn from_list_all_or_nothing() {
    assert_eq!(
        Card::from_list(&["ah", "kd"]),
        Some(vec![
            Card { rank: Rank::Ace, suit: Suit::Hearts },
            Card { rank: Rank::King, suit: Suit::Diamonds }
        ])
    );
    assert_eq!(Card::from_list(&["ah", "zz"]), None);
    assert_eq!(Card::from_list(&[]), Some(vec![]));
}

#[test]
fn initiate_builds_player() {
    let p = Player::initiate(["jc", "tc"], 3).unwrap();
    assert_eq!(p.hand, [c("jc"), c("tc")]);
    assert_eq!(p.player_key, 3);
    assert!(Player::initiate(["jc", ""], 0).is_none());
}

#[test]
fn card_display_uses_suit_colour() {
    assert_eq!(c("ah").to_string(), "\x1b[31m\u{2665}A\x1b[0m");
    assert_eq!(c("ts").to_string(), "\x1b[90m\u{2660}T\x1b[0m");
    assert_eq!(c("2c").to_string(), "\x1b[32m\u{2663}2\x1b[0m");
    assert_eq!(c("9d").to_string(), "\x1b[34m\u{2666}9\x1b[0m");
}

#[test]
fn hand_type_names() {
    assert_eq!(HandType::HighCard.to_string(), "High Card");
    assert_eq!(HandType::ThreeOfAKind.to_string(), "Three of a Kind");
    assert_eq!(HandType::RoyalFlush.to_string(), "Royal Flush");
}

#[test]
fn encode_card_numbers() {
    assert_eq!(encode_card(&c("2s")), 0);
    assert_eq!(encode_card(&c("2c")), 1);
    assert_eq!(encode_card(&c("2h")), 2);
    assert_eq!(encode_card(&c("2d")), 3);
    assert_eq!(encode_card(&c("as")), 48);
    assert_eq!(encode_card(&c("ad")), 51);
}

#[test]
fn encode_board_slots_read_back() {
    let board = cards(&["ah", "kd", "2s", "9c", "tc"]);
    let packed = encode_board(&board);
    for (i, card) in board.iter().enumerate() {
        assert_eq!((packed >> (i * 6)) & 63, encode_card(card));
    }
    assert_eq!(encode_board(&[]), 0);
    assert_eq!(encode_board(&cards(&["2c", "2h"])), 1 | (2 << 6));
}

#[test]
fn tracker_groups() {
    let hand = sort_cards_desc(&cards(&["ks", "kh", "kd", "4c", "4s", "2h", "7d"]));
    let t = CardTracker::from(&hand);
    assert!(t.contains(3));
    assert!(t.contains(2));
    assert!(t.contains(1));
    assert!(!t.contains(4));
    assert!(!t.contains(0));
    assert!(t.contains_multiple(&[1, 1, 3]));
    assert!(!t.contains_multiple(&[2, 2]));
    assert_eq!(t.cards_with_group_of(3, 0), cards(&["ks", "kh", "kd"]));
    assert_eq!(t.cards_with_group_of(2, 0), cards(&["4c", "4s"]));
    assert_eq!(t.cards_with_group_of(1, 1), cards(&["2h"]));
    assert_eq!(t.cards_without(&cards(&["ks", "kh", "kd"]), 2), cards(&["7d", "4c"]));
    assert_eq!(t.cards_without(&[], 10).len(), 7);
    assert_eq!(t.filter_suit(&Suit::Diamonds), cards(&["kd", "7d"]));
    assert_eq!(t.get_with_rank(Rank::Four), c("4c"));
}

#[test]
fn sort_is_by_rank_and_stable() {
    let sorted = sort_cards_desc(&cards(&["2h", "ks", "2c", "ad", "kh"]));
    assert_eq!(sorted, cards(&["ad", "ks", "kh", "2h", "2c"]));
}

#[test]
fn eval_royal_flush() {
    let r = evaluate(&["ah", "kh"], &["qh", "jh", "th", "2c", "3d"]);
    assert_eq!(r.hand_type, HandType::RoyalFlush);
    assert_eq!(r.score, 112220895);
}

#[test]
fn eval_straight_flush_from_five() {
    let r = evaluate(&["ah", "2h"], &["3h", "4h", "5h", "kd", "qc"]);
    assert_eq!(r.hand_type, HandType::StraightFlush);
    assert_eq!(r.score, 93507930);
}

#[test]
fn eval_four_of_a_kind() {
    let r = evaluate(&["9s", "9h"], &["9d", "9c", "ks", "2h", "3h"]);
    assert_eq!(r.hand_type, HandType::FourOfAKind);
    assert_eq!(r.score, 85429740);
}

#[test]
fn eval_full_house() {
    let r = evaluate(&["ks", "kh"], &["kd", "4c", "4s", "2h", "7d"]);
    assert_eq!(r.hand_type, HandType::FullHouse);
    assert_eq!(r.score, 77291355);
}

#[test]
fn eval_full_house_from_two_triples() {
    let r = evaluate(&["ks", "kh"], &["kd", "4c", "4s", "4h", "7d"]);
    assert_eq!(r.hand_type, HandType::FullHouse);
    assert_eq!(r.score, 77291355);
}

#[test]
fn eval_flush() {
    let r = evaluate(&["ah", "9h"], &["7h", "4h", "2h", "kd", "qc"]);
    assert_eq!(r.hand_type, HandType::Flush);
    assert_eq!(r.score, 66437325);
}

#[test]
fn eval_straight() {
    let r = evaluate(&["9s", "8h"], &["7d", "6c", "5s", "ah", "kd"]);
    assert_eq!(r.hand_type, HandType::Straight);
    assert_eq!(r.score, 51199695);
}

#[test]
fn eval_wheel_straight() {
    let r = evaluate(&["as", "2d"], &["3c", "4h", "5s", "9d", "kc"]);
    assert_eq!(r.hand_type, HandType::Straight);
    assert_eq!(r.score, 47945430);
}

#[test]
fn eval_three_of_a_kind() {
    let r = evaluate(&["7s", "7h"], &["7d", "kc", "2s", "9h", "4d"]);
    assert_eq!(r.hand_type, HandType::ThreeOfAKind);
    assert_eq!(r.score, 38241330);
}

#[test]
fn eval_straight_beats_three_of_a_kind() {
    let r = evaluate(&["7s", "7h"], &["7d", "8c", "9s", "th", "jd"]);
    assert_eq!(r.hand_type, HandType::Straight);
    assert_eq!(r.score, 52826925);
}

#[test]
fn eval_two_pair_takes_best_kicker() {
    let r = evaluate(&["qs", "qh"], &["9d", "9c", "4s", "4h", "ad"]);
    assert_eq!(r.hand_type, HandType::TwoPair);
    assert_eq!(r.score, 30906630);
}

#[test]
fn eval_pair() {
    let r = evaluate(&["js", "jh"], &["2d", "5c", "8s", "kh", "ad"]);
    assert_eq!(r.hand_type, HandType::Pair);
    assert_eq!(r.score, 18723690);
}

#[test]
fn eval_high_card() {
    let r = evaluate(&["2s", "4h"], &["7d", "9c", "js", "kh", "ad"]);
    assert_eq!(r.hand_type, HandType::HighCard);
    assert_eq!(r.score, 9701400);
}

#[test]
fn eval_ignores_order_of_cards() {
    let a = evaluate(&["qs", "qh"], &["9d", "9c", "4s", "4h", "ad"]);
    let b = evaluate(&["4h", "ad"], &["9c", "qh", "4s", "qs", "9d"]);
    assert_eq!(a, b);
}

#[test]
fn stronger_category_scores_higher() {
    let hands = [
        evaluate(&["2s", "4h"], &["7d", "9c", "js", "kh", "ad"]),
        evaluate(&["js", "jh"], &["2d", "5c", "8s", "kh", "ad"]),
        evaluate(&["qs", "qh"], &["9d", "9c", "4s", "4h", "ad"]),
        evaluate(&["7s", "7h"], &["7d", "kc", "2s", "9h", "4d"]),
        evaluate(&["as", "2d"], &["3c", "4h", "5s", "9d", "kc"]),
        evaluate(&["ah", "9h"], &["7h", "4h", "2h", "kd", "qc"]),
        evaluate(&["ks", "kh"], &["kd", "4c", "4s", "2h", "7d"]),
        evaluate(&["9s", "9h"], &["9d", "9c", "ks", "2h", "3h"]),
        evaluate(&["ah", "2h"], &["3h", "4h", "5h", "kd", "qc"]),
        evaluate(&["ah", "kh"], &["qh", "jh", "th", "2c", "3d"]),
    ];
    for w in hands.windows(2) {
        assert!(w[0].score < w[1].score);
    }
    let wheel = evaluate(&["as", "2d"], &["3c", "4h", "5s", "9d", "kc"]);
    let six_high = evaluate(&["6s", "2d"], &["3c", "4h", "5s", "9d", "kc"]);
    assert!(wheel.score < six_high.score);
}

#[test]
fn comb_lists_increasing_choices() {
    let mut out = Vec::new();
    let mut curr = Vec::new();
    comb(&mut curr, 0, 5, 3, &mut out);
    assert!(curr.is_empty());
    assert_eq!(out.len(), 10);
    assert_eq!(out[0], vec![0, 1, 2]);
    assert_eq!(out[1], vec![0, 1, 3]);
    assert_eq!(out[9], vec![2, 3, 4]);
    let mut sorted = out.clone();
    sorted.sort();
    sorted.dedup();
    assert_eq!(sorted, out);
}

#[test]
fn comb_counts_binomial() {
    let mut out = Vec::new();
    comb(&mut Vec::new(), 0, 10, 5, &mut out);
    assert_eq!(out.len(), 252);
    let mut none = Vec::new();
    comb(&mut Vec::new(), 0, 3, 5, &mut none);
    assert!(none.is_empty());
    let mut one = Vec::new();
    comb(&mut vec![7, 8], 3, 3, 2, &mut one);
    assert_eq!(one, vec![vec![7, 8]]);
}

fn result(score: u64, hand_type: HandType) -> EvalResult {
    EvalResult { score, hand_type }
}

#[test]
fn results_aggregate_wins_ties_and_hands() {
    let b1 = encode_board(&cards(&["ah", "kd", "2s", "9c", "tc"]));
    let b2 = encode_board(&cards(&["qh", "kd", "3s", "9c", "tc"]));
    let b3 = encode_board(&cards(&["ah", "jd", "3s", "8c", "7c"]));
    let mut m = ResultsManager::new();
    m.insert(b1, 0, result(10, HandType::Pair));
    m.insert(b1, 1, result(20, HandType::Flush));
    m.insert(b2, 0, result(30, HandType::Straight));
    m.insert(b2, 1, result(30, HandType::Straight));
    m.insert(b3, 0, result(5, HandType::HighCard));
    m.insert(b3, 1, result(1, HandType::HighCard));
    m.insert(b3, 0, result(50, HandType::Pair));

    let all = m.agg(&[]);
    assert_eq!(all.count, 3);
    assert_eq!(all.eq_counter.get(&0), Some(&1));
    assert_eq!(all.eq_counter.get(&1), Some(&1));
    assert_eq!(all.ties, vec![(vec![0u8, 1u8], 1u64)]);
    assert_eq!(all.hand_counter[&0].get(&1), Some(&2));
    assert_eq!(all.hand_counter[&0].get(&4), Some(&1));
    assert_eq!(all.hand_counter[&0].get(&0), None);
    assert_eq!(all.hand_counter[&1].get(&0), Some(&1));

    let with_kd = m.agg(&cards(&["kd"]));
    assert_eq!(with_kd.count, 2);
    assert_eq!(with_kd.eq_counter.get(&0), None);
    assert_eq!(with_kd.eq_counter.get(&1), Some(&1));

    let with_ah_tc = m.agg(&cards(&["tc", "ah"]));
    assert_eq!(with_ah_tc.count, 1);
    assert!(with_ah_tc.ties.is_empty());

    let none = m.agg(&cards(&["5h"]));
    assert_eq!(none.count, 0);
    assert!(none.eq_counter.is_empty());
    assert!(none.hand_counter.is_empty());
}

#[test]
fn empty_manager_aggregates_nothing() {
    let m = ResultsManager::new();
    let r = m.agg(&[]);
    assert_eq!(r.count, 0);
    assert!(r.ties.is_empty());
}

#[test]
fn player_count_parsing() {
    assert_eq!(parse_player_count("2"), Some(2));
    assert_eq!(parse_player_count("23"), Some(23));
    assert_eq!(parse_player_count("+5"), Some(5));
    assert_eq!(parse_player_count("007"), Some(7));
    assert_eq!(parse_player_count("0"), None);
    assert_eq!(parse_player_count("24"), None);
    assert_eq!(parse_player_count("256"), None);
    assert_eq!(parse_player_count("-1"), None);
    assert_eq!(parse_player_count("+"), None);
    assert_eq!(parse_player_count(""), None);
    assert_eq!(parse_player_count("two"), None);
    assert_eq!(parse_player_count("2 "), None);
}

#[test]
fn full_deck_has_every_card_once() {
    let deck = full_deck();
    assert_eq!(deck.len(), 52);
    assert_eq!(deck[0], c("2s"));
    assert_eq!(deck[1], c("2c"));
    assert_eq!(deck[51], c("ad"));
    for (i, card) in deck.iter().enumerate() {
        assert_eq!(encode_card(card), i as u64);
    }
}

#[test]
fn remaining_cards_leaves_out_used() {
    let deck = full_deck();
    let used = cards(&["ah", "2s"]);
    let rest = remaining_cards(&deck, &used);
    assert_eq!(rest.len(), 50);
    assert!(!rest.contains(&c("ah")));
    assert!(!rest.contains(&c("2s")));
    assert_eq!(rest[0], c("2c"));
}

#[test]
fn random_hand_draws_two_unused_cards() {
    let mut rng = rand::thread_rng();
    let deck = full_deck();
    let used = cards(&["ah", "2s"]);
    for _ in 0..50 {
        let hand = random_hand(&deck, &used, &mut rng);
        assert_ne!(hand[0], hand[1]);
        assert!(!used.contains(&hand[0]) && !used.contains(&hand[1]));
    }
    let small = cards(&["ah", "kd", "2s", "qh"]);
    let hand = random_hand(&small, &used, &mut rng);
    assert!(hand.contains(&c("kd")) && hand.contains(&c("qh")));
}

#[test]
fn random_board_card_avoids_board() {
    let mut rng = rand::thread_rng();
    let deck = cards(&["ah", "kd", "2s"]);
    let board = cards(&["ah", "2s"]);
    assert_eq!(random_board_card(&deck, &board, &mut rng), c("kd"));
}

#[test]
fn player_from_input_checks_used_cards() {
    let used = cards(&["ah"]);
    assert!(player_from_input(["ah", "kd"], 0, &used).is_none());
    assert!(player_from_input(["x", "kd"], 0, &used).is_none());
    let p = player_from_input(["qh", "kd"], 1, &used).unwrap();
    assert_eq!(p.hand, [c("qh"), c("kd")]);
    assert_eq!(p.player_key, 1);
}

#[test]
fn try_add_card_rules() {
    let used = cards(&["ah", "kd"]);
    let mut board = cards(&["2s"]);
    assert!(try_add_card(&mut board, "3s", &used));
    assert_eq!(board, cards(&["2s", "3s"]));
    assert!(!try_add_card(&mut board, "3s", &used));
    assert!(!try_add_card(&mut board, "ah", &used));
    assert!(!try_add_card(&mut board, "zz", &used));
    assert_eq!(board.len(), 2);
}

#[test]
fn evaluate_all_covers_every_board() {
    let deck = cards(&["2s", "5d", "9h", "jc", "kd", "ah"]);
    let players = vec![
        Player { hand: [c("as"), c("ac")], player_key: 0 },
        Player { hand: [c("7h"), c("8h")], player_key: 1 },
    ];
    let m = evaluate_all(&players, &deck).unwrap();
    let all = m.agg(&[]);
    assert_eq!(all.count, 6);
    let with_ah = m.agg(&cards(&["ah"]));
    assert_eq!(with_ah.count, 5);
    // Player 0 holds at least a pair of aces on every board.
    assert_eq!(all.hand_counter[&0].get(&0), None);
    let board = sort_cards_desc(&cards(&["2s", "5d", "9h", "jc", "kd"]));
    let e = eval(&players[0].hand, &board);
    assert_eq!(e.hand_type, HandType::Pair);
}

#[test]
fn evaluate_all_refuses_five_of_a_rank() {
    // The same ace twice in a hand, with three more aces in the deck, makes five aces.
    let deck = cards(&["as", "ad", "ac", "2s", "3s"]);
    let players = vec![Player { hand: [c("ah"), c("ah")], player_key: 0 }];
    assert!(evaluate_all(&players, &deck).is_none());
    // With only two more aces it can be ranked.
    let deck = cards(&["as", "ad", "4c", "2s", "3s"]);
    assert!(evaluate_all(&players, &deck).is_some());
}

#[test]
fn every_counted_board_is_won_or_tied() {
    let deck = cards(&["2s", "5d", "9h", "jc", "kd", "ah", "7c"]);
    let players = vec![
        Player { hand: [c("as"), c("ac")], player_key: 0 },
        Player { hand: [c("7h"), c("8h")], player_key: 1 },
        Player { hand: [c("ks"), c("kc")], player_key: 2 },
    ];
    let m = evaluate_all(&players, &deck).unwrap();
    for filter in [vec![], cards(&["ah"]), cards(&["2s", "7c"])] {
        let a = m.agg(&filter);
        let wins: u64 = a.eq_counter.values().sum();
        let ties: u64 = a.ties.iter().map(|t| t.1).sum();
        assert_eq!(wins + ties, a.count);
    }
    assert_eq!(m.agg(&[]).count, 21);
}


#[test]
fn chosen_player_reads_player_numbers() {
    let players = vec![
        Player { hand: [c("as"), c("ac")], player_key: 0 },
        Player { hand: [c("7h"), c("8h")], player_key: 1 },
        Player { hand: [c("ks"), c("kc")], player_key: 2 },
    ];
    assert_eq!(chosen_player("1", &players), Some(0));
    assert_eq!(chosen_player("3", &players), Some(2));
    assert_eq!(chosen_player("4", &players), None);
    assert_eq!(chosen_player("0", &players), None);
    assert_eq!(chosen_player("01", &players), None);
    assert_eq!(chosen_player("+1", &players), None);
    assert_eq!(chosen_player("ah", &players), None);
    assert_eq!(chosen_player("", &players), None);
    assert_eq!(chosen_player("1000", &players), None);
}

#[test]
fn evaluate_all_keeps_the_last_result_for_a_key() {
    let deck = cards(&["2s", "5d", "9h", "jc", "kd"]);
    let players = vec![
        Player { hand: [c("ah"), c("ac")], player_key: 0 },
        Player { hand: [c("7h"), c("3h")], player_key: 0 },
    ];
    let m = evaluate_all(&players, &deck).unwrap();
    let all = m.agg(&[]);
    assert_eq!(all.count, 1);
    // The second player, with the same key, writes last: a king-high hand.
    assert_eq!(all.hand_counter[&0].get(&0), Some(&1));
    assert_eq!(all.hand_counter[&0].get(&1), None);
    assert_eq!(all.eq_counter.get(&0), Some(&1));
}

#[test]
fn lone_wins_count_the_deals_won_outright() {
    let deck = cards(&["2s", "5d", "9h", "jc", "kd", "ah", "7c"]);
    let players = vec![
        Player { hand: [c("qs"), c("qc")], player_key: 0 },
        Player { hand: [c("7h"), c("8h")], player_key: 1 },
    ];
    let m = evaluate_all(&players, &deck).unwrap();
    let mut deals = Vec::new();
    comb(&mut Vec::new(), 0, deck.len(), 5, &mut deals);
    for filter in [vec![], cards(&["7c"]), cards(&["ah", "2s"])] {
        let mut holding = 0u64;
        let mut wins = [0u64; 2];
        let mut tied = 0u64;
        for d in &deals {
            let dealt: Vec<Card> = d.iter().map(|&i| deck[i]).collect();
            if !filter.iter().all(|f| dealt.contains(f)) {
                continue;
            }
            holding += 1;
            let board = sort_cards_desc(&dealt);
            let s0 = eval(&players[0].hand, &board).score;
            let s1 = eval(&players[1].hand, &board).score;
            if s0 > s1 {
                wins[0] += 1;
            } else if s1 > s0 {
                wins[1] += 1;
            } else {
                tied += 1;
            }
        }
        let a = m.agg(&sort_cards_desc(&filter));
        assert_eq!(a.count, holding);
        assert_eq!(*a.eq_counter.get(&0).unwrap_or(&0), wins[0]);
        assert_eq!(*a.eq_counter.get(&1).unwrap_or(&0), wins[1]);
        let shared: u64 = a.ties.iter().map(|t| t.1).sum();
        assert_eq!(shared, tied);
    }
}

#[test]
fn contains_multiple_agrees_with_contains_and_ignores_order() {
    let hand = sort_cards_desc(&cards(&["ks", "kh", "kd", "4c", "4s", "2h", "7d"]));
    let t = CardTracker::from(&hand);
    for count in 0..5u32 {
        assert_eq!(t.contains_multiple(&[count]), t.contains(count));
    }
    assert_eq!(t.contains_multiple(&[3, 1, 1]), t.contains_multiple(&[1, 1, 3]));
    assert!(t.contains_multiple(&[1, 3]));
    assert!(!t.contains_multiple(&[1, 1, 1, 3]));
}

#[test]
fn eval_ignores_suit_names() {
    // Hearts and spades swapped, clubs and diamonds swapped.
    let a = evaluate(&["ah", "kh"], &["qh", "jh", "2s", "3c", "9d"]);
    let b = evaluate(&["as", "ks"], &["qs", "js", "2h", "3d", "9c"]);
    assert_eq!(a, b);
    let c1 = evaluate(&["7h", "8h"], &["9h", "th", "jh", "2c", "2d"]);
    let c2 = evaluate(&["7c", "8c"], &["9c", "tc", "jc", "2h", "2s"]);
    assert_eq!(c1, c2);
}

#[test]
fn agg_depends_on_the_cards_of_the_partial_board_only() {
    let deck = cards(&["2s", "5d", "9h", "jc", "kd", "ah", "7c"]);
    let players = vec![
        Player { hand: [c("qs"), c("qc")], player_key: 0 },
        Player { hand: [c("7h"), c("8h")], player_key: 1 },
    ];
    let m = evaluate_all(&players, &deck).unwrap();
    let a = m.agg(&cards(&["ah", "2s"]));
    let b = m.agg(&cards(&["2s", "ah"]));
    assert_eq!(a.count, b.count);
    assert_eq!(a.eq_counter, b.eq_counter);
    assert_eq!(a.hand_counter, b.hand_counter);
    assert!(m.agg(&cards(&["ah", "2s", "7c"])).count <= a.count);
    assert!(a.count <= m.agg(&cards(&["ah"])).count);
    assert_eq!(m.agg(&[]).count, 21);
}

#[test]
fn an_extra_board_card_never_lowers_the_score() {
    let hand = cards(&["ah", "kh"]);
    let boards = [
        (cards(&["qh", "jh", "2s", "3c"]), c("th")),
        (cards(&["as", "kd", "2s", "3c"]), c("7d")),
        (cards(&["ac", "ad", "ks", "3c"]), c("3d")),
        (cards(&["9h", "8h", "2h", "3c"]), c("4d")),
    ];
    for (board, extra) in boards {
        let before = eval(&hand, &board).score;
        let mut more = board.clone();
        more.push(extra);
        assert!(eval(&hand, &more).score >= before);
    }
}

#[test]
fn no_five_cards_beat_all_seven() {
    let hand = cards(&["7s", "7h"]);
    let board = cards(&["7d", "kc", "kd", "2h", "9s"]);
    let all = eval(&hand, &board).score;
    let seven: Vec<Card> = hand.iter().chain(board.iter()).copied().collect();
    let mut picks = Vec::new();
    comb(&mut Vec::new(), 0, 7, 5, &mut picks);
    let mut best = 0;
    for p in &picks {
        let five: Vec<Card> = p.iter().map(|&i| seven[i]).collect();
        let score = eval(&[], &five).score;
        assert!(score <= all);
        best = best.max(score);
    }
    assert_eq!(best, all);
}
