use card_games::card::{Card, GameError};
use card_games::player::Player;

#[test]
fn dealing_moves_cards_without_loss() {
    let mut deck = Card::new_deck();
    let player = Player::new("Ada".to_string(), 0, &mut deck, 5).unwrap();
    assert_eq!(player.deck.len(), 5);
    assert_eq!(deck.len(), 47);
    assert_eq!(player.id, 0);
    assert_eq!(player.name, "Ada");
    let mut counts = vec![vec![0u32; 13]; 4];
    for card in deck.iter().chain(player.deck.iter()) {
        counts[card.suit_id as usize][card.value_id as usize] += 1;
    }
    for s in 0..4 {
        for v in 0..13 {
            assert_eq!(counts[s][v], 1);
        }
    }
}

#[test]
fn dealing_from_a_short_deck_is_refused() {
    let mut deck = Card::new_deck();
    deck.truncate(3);
    match Player::new("Ada".to_string(), 0, &mut deck, 4) {
        Err(e) => assert_eq!(e, GameError::InsufficientCards),
        Ok(_) => panic!("deal from a short deck accepted"),
    }
    assert_eq!(deck.len(), 3);
}

#[test]
fn draw_takes_the_front_card() {
    let mut deck = Card::new_deck();
    let mut player = Player::new("Ada".to_string(), 7, &mut deck, 3).unwrap();
    let front = player.deck[0].copy();
    let pc = player.draw().unwrap();
    assert_eq!(pc.player_id, 7);
    assert_eq!(pc.card.suit_id, front.suit_id);
    assert_eq!(pc.card.value_id, front.value_id);
    assert_eq!(player.deck.len(), 2);
}

#[test]
fn draw_from_empty_hand_is_refused() {
    let mut player = Player { deck: Vec::new(), name: "Ada".to_string(), id: 0 };
    match player.draw() {
        Err(e) => assert_eq!(e, GameError::EmptyHand),
        Ok(_) => panic!("draw from empty hand accepted"),
    }
}

#[test]
fn draw_all_is_atomic() {
    let mut deck = Card::new_deck();
    let mut player = Player::new("Ada".to_string(), 1, &mut deck, 3).unwrap();
    match player.draw_all(4) {
        Err(e) => assert_eq!(e, GameError::InsufficientCards),
        Ok(_) => panic!("bulk draw beyond the hand accepted"),
    }
    assert_eq!(player.deck.len(), 3);
    let first = player.deck[0].copy();
    let cards = player.draw_all(2).unwrap();
    assert_eq!(cards.len(), 2);
    assert_eq!(cards[0].card.value_id, first.value_id);
    assert_eq!(player.deck.len(), 1);
}

#[test]
fn give_appends_to_the_hand() {
    let mut player = Player { deck: Vec::new(), name: "Ada".to_string(), id: 0 };
    let card = Card::new(2, 11).unwrap();
    player.give(card);
    assert_eq!(player.deck.len(), 1);
    assert_eq!(player.deck[0].value_id, 11);
}

#[test]
fn clone_copies_the_whole_hand() {
    let mut deck = Card::new_deck();
    let player = Player::new("Ada".to_string(), 3, &mut deck, 4).unwrap();
    let twin = player.clone();
    assert_eq!(twin.id, 3);
    assert_eq!(twin.name, "Ada");
    assert_eq!(twin.deck.len(), 4);
    for (a, b) in player.deck.iter().zip(twin.deck.iter()) {
        assert_eq!(a.suit_id, b.suit_id);
        assert_eq!(a.value_id, b.value_id);
    }
}

#[test]
fn player_index_finds_the_first_match() {
    let players = vec![
        Player { deck: Vec::new(), name: "Ada".to_string(), id: 4 },
        Player { deck: Vec::new(), name: "Ben".to_string(), id: 9 },
    ];
    assert_eq!(Player::player_index(&players, 9), Some(1));
    assert_eq!(Player::player_index(&players, 4), Some(0));
    assert_eq!(Player::player_index(&players, 5), None);
}
