pub mod blackjack;
pub mod card;
pub mod game;
pub mod game_common;
pub mod player;
pub mod seqs;
pub mod war;

mod rng;
