use vstd::prelude::*;

use crate::player::Player;

verus! {

/// A round-driven card game: something that can play one round and report
/// its seated players.
pub trait Game {
    fn round(&mut self);

    fn get_players(&self) -> &Vec<Player>;
}

} // verus!
