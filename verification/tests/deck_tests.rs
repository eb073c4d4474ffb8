use card_games::card::{Card, GameError};

fn pair_counts(deck: &Vec<Card>) -> Vec<Vec<u32>> {
    let mut counts = vec![vec![0u32; 16]; 4];
    for card in deck {
        let s = card.suit_id as usize;
        let v = card.value_id as usize;
        counts[s][v] += 1;
    }
    counts
}

#[test]
fn ordered_deck_has_each_pair_once() {
    let deck = Card::new_deck();
    assert_eq!(deck.len(), 52);
    let counts = pair_counts(&deck);
    for s in 0..4 {
        for v in 0..13 {
            assert_eq!(counts[s][v], 1);
        }
    }
}

#[test]
fn ordered_deck_is_deterministic() {
    let deck = Card::new_deck();
    for s in 0..4 {
        for v in 0..13 {
            let card = &deck[s * 13 + v];
            assert_eq!(card.suit_id, s as i32);
            assert_eq!(card.value_id, v as i32);
            assert!(card.visible);
        }
    }
    assert_eq!(deck[0].suit, "Spades");
    assert_eq!(deck[0].value, "2");
    assert_eq!(deck[51].suit, "Diamonds");
    assert_eq!(deck[51].value, "Ace");
}

#[test]
fn shuffled_deck_is_permutation_of_ordered() {
    let deck = Card::new_random_deck();
    assert_eq!(deck.len(), 52);
    let counts = pair_counts(&deck);
    for s in 0..4 {
        for v in 0..13 {
            assert_eq!(counts[s][v], 1);
        }
    }
}

#[test]
fn blackjack_deck_uses_shifted_encoding() {
    let deck = Card::new_deck_blackjack();
    assert_eq!(deck.len(), 52);
    let counts = pair_counts(&deck);
    for s in 0..4 {
        for v in 2..15 {
            assert_eq!(counts[s][v], 1);
        }
        assert_eq!(counts[s][0], 0);
        assert_eq!(counts[s][1], 0);
    }
}

#[test]
fn card_new_rejects_bad_suit() {
    match Card::new(4, 0) {
        Err(e) => assert_eq!(e, GameError::InvalidSuit),
        Ok(_) => panic!("suit out of range accepted"),
    }
    match Card::new(-1, 0) {
        Err(e) => assert_eq!(e, GameError::InvalidSuit),
        Ok(_) => panic!("suit out of range accepted"),
    }
}

#[test]
fn card_new_rejects_bad_rank() {
    match Card::new(0, 13) {
        Err(e) => assert_eq!(e, GameError::InvalidRank),
        Ok(_) => panic!("rank out of range accepted"),
    }
}

#[test]
fn card_display_strings_follow_ids() {
    let mut card = Card::new(1, 9).unwrap();
    assert_eq!(card.suit, "Hearts");
    assert_eq!(card.value, "Jack");
    card.suit_id = 2;
    card.value_id = 12;
    card.refresh().unwrap();
    assert_eq!(card.suit, "Clubs");
    assert_eq!(card.value, "Ace");
}

#[test]
fn blackjack_refresh_names_resolved_aces() {
    let mut card = Card::new(0, 0).unwrap();
    card.value_id = 14;
    card.refresh_blackjack().unwrap();
    assert_eq!(card.value, "Ace (as 11)");
    card.value_id = 1;
    card.refresh_blackjack().unwrap();
    assert_eq!(card.value, "Ace (as 1)");
    card.value_id = 7;
    card.refresh_blackjack().unwrap();
    assert_eq!(card.value, "7");
    card.value_id = 13;
    card.refresh_blackjack().unwrap();
    assert_eq!(card.value, "King (as 10)");
}

#[test]
fn blackjack_cmp_values() {
    let mut card = Card::new(0, 0).unwrap();
    card.value_id = 7;
    assert_eq!(card.blackjack_cmp_val().unwrap(), 7);
    card.value_id = 12;
    assert_eq!(card.blackjack_cmp_val().unwrap(), 10);
    card.value_id = 14;
    assert_eq!(card.blackjack_cmp_val().unwrap(), 11);
    card.value_id = 1;
    assert_eq!(card.blackjack_cmp_val().unwrap(), 1);
    card.value_id = 0;
    match card.blackjack_cmp_val() {
        Err(e) => assert_eq!(e, GameError::InvalidRank),
        Ok(_) => panic!("rank outside the blackjack encoding accepted"),
    }
}

#[test]
fn copy_duplicates_every_field() {
    let mut card = Card::new(3, 5).unwrap();
    card.visible = false;
    let copy = card.copy();
    assert_eq!(copy.suit, card.suit);
    assert_eq!(copy.suit_id, card.suit_id);
    assert_eq!(copy.value, card.value);
    assert_eq!(copy.value_id, card.value_id);
    assert_eq!(copy.visible, card.visible);
}

#[test]
fn random_card_is_well_formed() {
    let card = Card::new_random().unwrap();
    assert!(card.suit_id >= 0 && card.suit_id < 4);
    assert!(card.value_id >= 0 && card.value_id < 13);
}
