use card_games::blackjack::BlackJack;
use card_games::card::{Card, GameError};
use card_games::game_common::valid_player_count;
use card_games::player::Player;

fn bj_card(suit_id: i32, value_id: i32) -> Card {
    let mut card = Card::new(suit_id, 0).unwrap();
    card.value_id = value_id;
    card.refresh_blackjack().unwrap();
    card
}

fn bj_player(id: i32, value_ids: &[i32]) -> Player {
    Player {
        deck: value_ids.iter().map(|v| bj_card(0, *v)).collect(),
        name: format!("P{}", id),
        id,
    }
}

fn table(players: Vec<Player>) -> BlackJack {
    BlackJack { players, busted_players: Vec::new(), deck: Vec::new() }
}

#[test]
fn dealt_table_has_two_cards_each_and_a_hidden_first() {
    let game = BlackJack::new(vec!["Ada".to_string(), "Ben".to_string()]);
    assert_eq!(game.players.len(), 2);
    assert_eq!(game.deck.len(), 48);
    assert!(game.busted_players.is_empty());
    for player in &game.players {
        assert_eq!(player.deck.len(), 2);
        assert!(!player.deck[0].visible);
        assert!(player.deck[1].visible);
    }
}

#[test]
fn hand_totals_sum_comparison_values() {
    let hand = vec![bj_card(0, 10), bj_card(1, 11)];
    assert_eq!(BlackJack::get_hand_total(&hand), 20);
    let hand = vec![bj_card(0, 14), bj_card(1, 9)];
    assert_eq!(BlackJack::get_hand_total(&hand), 20);
    let hand = vec![bj_card(0, 1), bj_card(1, 9)];
    assert_eq!(BlackJack::get_hand_total(&hand), 10);
}

#[test]
fn ace_valuation_accepts_only_one_or_eleven() {
    assert_eq!(BlackJack::redef_ace(1).unwrap(), 1);
    assert_eq!(BlackJack::redef_ace(11).unwrap(), 11);
    for bad in [0, 2, 10, 12, -1] {
        match BlackJack::redef_ace(bad) {
            Err(e) => assert_eq!(e, GameError::InvalidAceValue),
            Ok(_) => panic!("ace valuation {} accepted", bad),
        }
    }
}

#[test]
fn resolving_an_ace_moves_the_total_by_exactly_its_value() {
    let mut game = table(vec![bj_player(0, &[14, 7])]);
    assert_eq!(BlackJack::get_hand_total(&game.players[0].deck), 18);
    game.resolve_ace(0, 0, 1).unwrap();
    assert_eq!(BlackJack::get_hand_total(&game.players[0].deck), 8);
    assert_eq!(game.players[0].deck[0].value_id, 1);

    let mut game = table(vec![bj_player(0, &[14, 7])]);
    game.resolve_ace(0, 0, 11).unwrap();
    assert_eq!(BlackJack::get_hand_total(&game.players[0].deck), 18);
    assert_eq!(game.players[0].deck[0].value_id, 14);
}

#[test]
fn resolve_ace_rejects_bad_requests() {
    let mut game = table(vec![bj_player(0, &[14, 7])]);
    match game.resolve_ace(0, 0, 5) {
        Err(e) => assert_eq!(e, GameError::InvalidAceValue),
        Ok(_) => panic!("bad ace value accepted"),
    }
    match game.resolve_ace(3, 0, 1) {
        Err(e) => assert_eq!(e, GameError::UnknownPlayer),
        Ok(_) => panic!("unknown player accepted"),
    }
    match game.resolve_ace(0, 1, 1) {
        Err(e) => assert_eq!(e, GameError::InvalidRank),
        Ok(_) => panic!("non-ace resolved"),
    }
    assert_eq!(BlackJack::get_hand_total(&game.players[0].deck), 18);
}

#[test]
fn busting_hit_moves_the_player_to_the_busted_set() {
    let mut game = table(vec![bj_player(0, &[10, 9]), bj_player(1, &[5, 5])]);
    let busted = game.handle_hit(0, bj_card(2, 13), 0).unwrap();
    assert!(busted);
    assert_eq!(game.players.len(), 1);
    assert_eq!(game.players[0].id, 1);
    assert_eq!(game.busted_players.len(), 1);
    assert_eq!(game.busted_players[0].id, 0);
    assert_eq!(BlackJack::get_hand_total(&game.busted_players[0].deck), 29);
    // A busted player is excluded from winner determination.
    let winners = game.round_winners();
    assert_eq!(winners, vec![1]);
}

#[test]
fn safe_hit_keeps_the_player_seated() {
    let mut game = table(vec![bj_player(0, &[10, 9])]);
    let busted = game.handle_hit(0, bj_card(2, 2), 0).unwrap();
    assert!(!busted);
    assert_eq!(game.players[0].deck.len(), 3);
    assert_eq!(BlackJack::get_hand_total(&game.players[0].deck), 21);
}

#[test]
fn hitting_an_ace_adds_the_chosen_value() {
    let mut game = table(vec![bj_player(0, &[5, 5])]);
    let busted = game.handle_hit(0, bj_card(2, 14), 11).unwrap();
    assert!(!busted);
    assert_eq!(BlackJack::get_hand_total(&game.players[0].deck), 21);

    let mut game = table(vec![bj_player(0, &[5, 5])]);
    let busted = game.handle_hit(0, bj_card(2, 14), 1).unwrap();
    assert!(!busted);
    assert_eq!(BlackJack::get_hand_total(&game.players[0].deck), 11);
}

#[test]
fn hit_for_an_unknown_player_is_refused() {
    let mut game = table(vec![bj_player(0, &[5, 5])]);
    match game.handle_hit(9, bj_card(2, 5), 0) {
        Err(e) => assert_eq!(e, GameError::UnknownPlayer),
        Ok(_) => panic!("unknown player hit"),
    }
}

#[test]
fn hit_with_a_bad_ace_value_is_refused() {
    let mut game = table(vec![bj_player(0, &[5, 5])]);
    match game.handle_hit(0, bj_card(2, 14), 7) {
        Err(e) => assert_eq!(e, GameError::InvalidAceValue),
        Ok(_) => panic!("bad ace value on hit accepted"),
    }
    assert_eq!(game.players[0].deck.len(), 2);
}

#[test]
fn winners_are_exactly_the_holders_of_the_highest_total() {
    // Totals 19, 21, 21, 15: the winners are exactly the two players at 21.
    let game = table(vec![
        bj_player(0, &[10, 9]),
        bj_player(1, &[10, 4, 7]),
        bj_player(2, &[7, 7, 7]),
        bj_player(3, &[10, 5]),
    ]);
    assert_eq!(game.round_winners(), vec![1, 2]);
}

#[test]
fn lone_standing_player_wins() {
    let game = table(vec![bj_player(0, &[10, 11])]);
    assert_eq!(BlackJack::get_hand_total(&game.players[0].deck), 20);
    assert_eq!(game.round_winners(), vec![0]);
}

#[test]
fn no_winners_when_everyone_busted() {
    let mut game = table(vec![bj_player(0, &[10, 9])]);
    game.handle_hit(0, bj_card(1, 10), 0).unwrap();
    assert!(game.players.is_empty());
    assert!(game.round_winners().is_empty());
}

#[test]
fn exhausted_deck_is_replaced_before_the_draw() {
    let mut game = table(vec![bj_player(0, &[5, 5])]);
    assert!(game.deck.is_empty());
    let card = game.draw_from_deck();
    assert!(card.value_id >= 2 && card.value_id < 15);
    assert_eq!(game.deck.len(), 51);
}

#[test]
fn top_of_deck_is_drawn_when_cards_remain() {
    let mut game = table(vec![bj_player(0, &[5, 5])]);
    game.deck = vec![bj_card(0, 4), bj_card(1, 9)];
    let card = game.draw_from_deck();
    assert_eq!(card.value_id, 9);
    assert_eq!(game.deck.len(), 1);
}

#[test]
fn player_count_gate() {
    assert!(!valid_player_count(1));
    assert!(valid_player_count(2));
    assert!(valid_player_count(4));
    assert!(!valid_player_count(5));
}
