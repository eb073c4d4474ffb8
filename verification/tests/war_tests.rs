use card_games::card::Card;
use card_games::player::Player;
use card_games::war::War;

fn standard_card(suit_id: i32, value_id: i32) -> Card {
    Card::new(suit_id, value_id).unwrap()
}

fn hand_of(value_ids: &[i32]) -> Vec<Card> {
    value_ids.iter().map(|v| standard_card(0, *v)).collect()
}

fn total_cards(game: &War) -> usize {
    game.players.iter().map(|p| p.deck.len()).sum()
}

#[test]
fn fresh_game_splits_all_52_cards() {
    let game = War::new(vec!["Ada".to_string(), "Ben".to_string()]);
    assert_eq!(game.players.len(), 2);
    assert_eq!(game.players[0].deck.len(), 26);
    assert_eq!(game.players[1].deck.len(), 26);
    assert_eq!(total_cards(&game), 52);

    let game3 = War::new(vec!["Ada".to_string(), "Ben".to_string(), "Cy".to_string()]);
    assert_eq!(game3.players[0].deck.len(), 18);
    assert_eq!(game3.players[1].deck.len(), 17);
    assert_eq!(game3.players[2].deck.len(), 17);
    assert_eq!(total_cards(&game3), 52);
}

#[test]
fn round_preserves_the_card_count() {
    let mut game = War::new(vec!["Ada".to_string(), "Ben".to_string(), "Cy".to_string()]);
    for _ in 0..20 {
        if game.players.len() < 2 {
            break;
        }
        let _ = game.play_round();
        let floorless: usize = game.players.iter().map(|p| p.deck.len()).sum();
        assert_eq!(floorless, 52);
    }
}

#[test]
fn repeated_rounds_reach_a_single_holder_of_all_cards() {
    // A fixed deal of War can in principle cycle forever, so bound the
    // rounds and allow a few fresh deals before giving up.
    for _ in 0..5 {
        let mut game = War::new(vec!["Ada".to_string(), "Ben".to_string()]);
        let mut winner = None;
        for _ in 0..100000 {
            if game.players.len() < 2 {
                break;
            }
            if let Some(w) = game.play_round() {
                winner = Some(w);
                break;
            }
        }
        if let Some(w) = winner {
            assert_eq!(game.players.len(), 1);
            assert_eq!(game.players[0].id, w);
            assert_eq!(game.players[0].deck.len(), 52);
            return;
        }
    }
    panic!("no deal reached a winner within the round bound");
}

#[test]
fn tied_sevens_cascade_into_a_war_worth_ten_cards() {
    // Two players, 26 cards each. Both draw a "7" (rank identifier 5), tie,
    // and each stakes three hidden cards plus one comparison card. The
    // player whose comparison card ranks higher collects all ten staked
    // cards.
    let mut a_values = vec![5, 0, 1, 2, 12];
    a_values.extend(std::iter::repeat(3).take(21));
    let mut b_values = vec![5, 0, 1, 2, 6];
    b_values.extend(std::iter::repeat(4).take(21));
    let mut game = War {
        players: vec![
            Player { deck: hand_of(&a_values), name: "Ada".to_string(), id: 0 },
            Player { deck: hand_of(&b_values), name: "Ben".to_string(), id: 1 },
        ],
    };
    assert_eq!(total_cards(&game), 52);
    let r = game.play_round();
    assert!(r.is_none());
    // Ada staked 5 cards and gained all 10: 26 - 5 + 10 = 31.
    assert_eq!(game.players[0].deck.len(), 31);
    assert_eq!(game.players[1].deck.len(), 21);
    assert_eq!(total_cards(&game), 52);
}

#[test]
fn higher_rank_takes_a_plain_round() {
    let mut game = War {
        players: vec![
            Player { deck: hand_of(&[9, 1]), name: "Ada".to_string(), id: 0 },
            Player { deck: hand_of(&[2, 3]), name: "Ben".to_string(), id: 1 },
        ],
    };
    let r = game.play_round();
    assert!(r.is_none());
    // Ada's 9 beats Ben's 2: Ada collects both drawn cards.
    assert_eq!(game.players[0].deck.len(), 3);
    assert_eq!(game.players[1].deck.len(), 1);
}

#[test]
fn empty_handed_players_leave_the_game() {
    let mut game = War {
        players: vec![
            Player { deck: hand_of(&[9, 1]), name: "Ada".to_string(), id: 0 },
            Player { deck: hand_of(&[]), name: "Ben".to_string(), id: 1 },
            Player { deck: hand_of(&[2]), name: "Cy".to_string(), id: 2 },
        ],
    };
    let r = game.play_round();
    assert!(r.is_none());
    assert_eq!(game.players.len(), 2);
    assert_eq!(game.players[0].id, 0);
    assert_eq!(game.players[1].id, 2);
}

#[test]
fn remove_all_drops_the_listed_players() {
    let mut game = War {
        players: vec![
            Player { deck: hand_of(&[1]), name: "Ada".to_string(), id: 0 },
            Player { deck: hand_of(&[2]), name: "Ben".to_string(), id: 1 },
            Player { deck: hand_of(&[3]), name: "Cy".to_string(), id: 2 },
        ],
    };
    game.remove_all(vec![0, 2]);
    assert_eq!(game.players.len(), 1);
    assert_eq!(game.players[0].id, 1);
}

#[test]
fn remove_drops_one_player() {
    let mut game = War::new(vec!["Ada".to_string(), "Ben".to_string(), "Cy".to_string()]);
    game.remove(1);
    assert_eq!(game.players.len(), 2);
    assert_eq!(game.players[0].id, 0);
    assert_eq!(game.players[1].id, 2);
}
