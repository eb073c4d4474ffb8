use vstd::prelude::*;

use crate::player::Player;

verus! {

/// A round-driven card game with an invariant its rounds preserve: a game
/// variant implements one round of play and reports its seated players.
pub trait Game {
    /// What a well-formed game state of this variant looks like.
    spec fn inv(&self) -> bool;

    /// Plays one round.
    fn round(&mut self)
        requires
            old(self).inv(),
        ensures
            final(self).inv(),
    ;

    /// The players still seated.
    fn get_players(&self) -> &Vec<Player>;
}

/// The number of players a game accepts.
pub fn valid_player_count(count: i32) -> (r: bool)
    ensures
        r <==> 2 <= count <= 4,
{
    2 <= count && count <= 4
}

} // verus!
