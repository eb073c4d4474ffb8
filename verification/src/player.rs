use vstd::prelude::*;

use crate::card::{Card, GameError};
use crate::rng;
use vstd::assert_multisets_equal;
use vstd::seq_lib::group_to_multiset_ensures;

verus! {

/// One seated player: a display name, a stable identifier, and the ordered
/// hand of cards the player currently owns.
pub struct Player {
    pub deck: Vec<Card>,
    pub name: String,
    pub id: i32,
}

/// A card together with the identifier of the player who drew it.
pub struct PlayerCard {
    pub card: Card,
    pub player_id: i32,
}

/// The position of the first player carrying the given identifier, or minus
/// one when no player does.
pub open spec fn spec_player_index(players: Seq<Player>, id: i32) -> int
    decreases players.len(),
{
    if players.len() == 0 {
        -1
    } else if players[0].id == id {
        0
    } else {
        let rest = spec_player_index(players.drop_first(), id);
        if rest == -1 {
            -1
        } else {
            rest + 1
        }
    }
}

/// A position whose player carries the identifier, with no earlier such
/// position, is the first.
pub proof fn lemma_player_index_first(players: Seq<Player>, id: i32, i: int)
    requires
        0 <= i < players.len(),
        players[i].id == id,
        forall|j: int| 0 <= j < i ==> (#[trigger] players[j]).id != id,
    ensures
        spec_player_index(players, id) == i,
    decreases i,
{
    if i > 0 {
        assert(players[0].id != id);
        assert forall|j: int| 0 <= j < i - 1 implies (#[trigger] players.drop_first()[j]).id
            != id by {
            assert(players.drop_first()[j] == players[j + 1]);
        }
        lemma_player_index_first(players.drop_first(), id, i - 1);
    }
}

/// When no player carries the identifier, there is no first position.
pub proof fn lemma_player_index_none(players: Seq<Player>, id: i32)
    requires
        forall|j: int| 0 <= j < players.len() ==> (#[trigger] players[j]).id != id,
    ensures
        spec_player_index(players, id) == -1,
    decreases players.len(),
{
    if players.len() > 0 {
        assert(players[0].id != id);
        assert forall|j: int| 0 <= j < players.len() - 1 implies (#[trigger] players.drop_first(
        )[j]).id != id by {
            assert(players.drop_first()[j] == players[j + 1]);
        }
        lemma_player_index_none(players.drop_first(), id);
    }
}

/// The first position found really is the first.
pub proof fn lemma_player_index_in_range(players: Seq<Player>, id: i32)
    ensures
        spec_player_index(players, id) == -1 || (0 <= spec_player_index(players, id)
            < players.len() && players[spec_player_index(players, id)].id == id),
    decreases players.len(),
{
    if players.len() > 0 {
        lemma_player_index_in_range(players.drop_first(), id);
    }
}

/// The total number of cards held across a sequence of players' hands.
pub open spec fn sum_hand_sizes(players: Seq<Player>) -> int
    decreases players.len(),
{
    if players.len() == 0 {
        0
    } else {
        players[0].deck@.len() + sum_hand_sizes(players.drop_first())
    }
}

/// The sum of hand sizes is never negative.
pub proof fn lemma_sum_nonneg(players: Seq<Player>)
    ensures
        sum_hand_sizes(players) >= 0,
    decreases players.len(),
{
    if players.len() > 0 {
        lemma_sum_nonneg(players.drop_first());
    }
}

/// Appending a player adds exactly that player's hand size to the sum.
pub proof fn lemma_sum_push(players: Seq<Player>, p: Player)
    ensures
        sum_hand_sizes(players.push(p)) == sum_hand_sizes(players) + p.deck@.len(),
    decreases players.len(),
{
    if players.len() == 0 {
        assert(players.push(p).drop_first() =~= players);
    } else {
        assert(players.push(p).drop_first() =~= players.drop_first().push(p));
        lemma_sum_push(players.drop_first(), p);
    }
}

/// Removing one player subtracts exactly that player's hand size from the sum.
pub proof fn lemma_sum_remove(players: Seq<Player>, i: int)
    requires
        0 <= i < players.len(),
    ensures
        sum_hand_sizes(players.remove(i)) == sum_hand_sizes(players) - players[i].deck@.len(),
    decreases players.len(),
{
    if i == 0 {
        assert(players.remove(0) =~= players.drop_first());
    } else {
        assert(players.remove(i).drop_first() =~= players.drop_first().remove(i - 1));
        assert(players.remove(i)[0] == players[0]);
        lemma_sum_remove(players.drop_first(), i - 1);
    }
}

/// Replacing one player changes the sum by the difference of the hand sizes.
pub proof fn lemma_sum_update(players: Seq<Player>, i: int, p: Player)
    requires
        0 <= i < players.len(),
    ensures
        sum_hand_sizes(players.update(i, p)) == sum_hand_sizes(players) - players[i].deck@.len()
            + p.deck@.len(),
    decreases players.len(),
{
    if i == 0 {
        assert(players.update(0, p).drop_first() =~= players.drop_first());
        assert(players.update(0, p)[0] == p);
    } else {
        assert(players.update(i, p).drop_first() =~= players.drop_first().update(i - 1, p));
        assert(players.update(i, p)[0] == players[0]);
        lemma_sum_update(players.drop_first(), i - 1, p);
    }
}

impl Player {
    /// Seats a new player by moving `card_count` cards, chosen at uniformly
    /// random positions, from the shared deck into the player's hand; refuses
    /// when the shared deck cannot supply that many.
    pub fn new(name: String, id: i32, from_deck: &mut Vec<Card>, card_count: i32) -> (r: Result<
        Player,
        GameError,
    >)
        requires
            0 <= card_count,
        ensures
            old(from_deck)@.len() >= card_count <==> r is Ok,
            r matches Ok(p) ==> {
                &&& p.id == id
                &&& p.name == name
                &&& p.deck@.len() == card_count
                &&& final(from_deck)@.len() + card_count == old(from_deck)@.len()
                &&& final(from_deck)@.to_multiset().add(p.deck@.to_multiset()) == old(
                    from_deck,
                )@.to_multiset()
            },
            r is Err ==> *final(from_deck) == *old(from_deck) && r == Result::<
                Player,
                GameError,
            >::Err(GameError::InsufficientCards),
    {
        let count = card_count as usize;
        if from_deck.len() < count {
            return Err(GameError::InsufficientCards);
        }
        let mut deck: Vec<Card> = Vec::new();
        proof {
            broadcast use vstd::multiset::group_multiset_axioms;

            crate::seqs::lemma_to_multiset_empty(deck@);
            assert_multisets_equal!(
                from_deck@.to_multiset().add(deck@.to_multiset()),
                from_deck@.to_multiset()
            );
        }
        let mut k: usize = 0;
        while k < count
            invariant
                k <= count,
                count <= old(from_deck)@.len(),
                deck@.len() == k,
                from_deck@.len() + k == old(from_deck)@.len(),
                from_deck@.to_multiset().add(deck@.to_multiset()) == old(
                    from_deck,
                )@.to_multiset(),
            decreases count - k,
        {
            let index = rng::random_index(from_deck.len());
            let ghost before_from = from_deck@;
            let ghost before_hand = deck@;
            let card = from_deck.remove(index);
            deck.push(card);
            proof {
                broadcast use group_to_multiset_ensures;

                assert(before_from.contains(card));
                assert(from_deck@ == before_from.remove(index as int));
                assert(before_from.remove(index as int).to_multiset() == before_from.to_multiset()
                    .remove(card));
                assert(deck@ == before_hand.push(card));
                assert(before_hand.push(card).to_multiset() == before_hand.to_multiset().insert(
                    card,
                ));
                assert_multisets_equal!(
                    from_deck@.to_multiset().add(deck@.to_multiset()),
                    before_from.to_multiset().add(before_hand.to_multiset())
                );
            }
            k = k + 1;
        }
        Ok(Player { id, deck, name })
    }

    /// An exact duplicate of the player, hand included.
    pub fn clone(&self) -> (r: Player)
        ensures
            r.id == self.id,
            r.name == self.name,
            r.deck@ == self.deck@,
    {
        let mut deck: Vec<Card> = Vec::new();
        let mut k: usize = 0;
        while k < self.deck.len()
            invariant
                k <= self.deck@.len(),
                deck@ =~= self.deck@.take(k as int),
            decreases self.deck@.len() - k,
        {
            deck.push(self.deck[k].copy());
            k = k + 1;
        }
        proof {
            assert(deck@ =~= self.deck@);
        }
        Player { id: self.id, deck, name: self.name.clone() }
    }

    /// Removes and returns the first card of the hand; refuses when the hand
    /// is empty, leaving the player unchanged.
    pub fn draw(&mut self) -> (r: Result<PlayerCard, GameError>)
        ensures
            old(self).deck@.len() > 0 <==> r is Ok,
            r matches Ok(pc) ==> {
                &&& pc.card == old(self).deck@[0]
                &&& pc.player_id == old(self).id
                &&& final(self).deck@ == old(self).deck@.drop_first()
                &&& final(self).id == old(self).id
                &&& final(self).name == old(self).name
            },
            r is Err ==> *final(self) == *old(self) && r == Result::<PlayerCard, GameError>::Err(
                GameError::EmptyHand,
            ),
    {
        if self.deck.len() == 0 {
            return Err(GameError::EmptyHand);
        }
        let card = self.deck.remove(0);
        proof {
            assert(final(self).deck@ =~= old(self).deck@.drop_first());
        }
        Ok(PlayerCard { card, player_id: self.id })
    }

    /// Removes and returns the first `count` cards of the hand at once;
    /// refuses, leaving the hand unchanged, when fewer than `count` remain.
    pub fn draw_all(&mut self, count: i32) -> (r: Result<Vec<PlayerCard>, GameError>)
        ensures
            0 <= count <= old(self).deck@.len() <==> r is Ok,
            r matches Ok(cards) ==> {
                &&& cards@.len() == count
                &&& forall|k: int|
                    0 <= k < count ==> (#[trigger] cards@[k]).card == old(self).deck@[k]
                        && cards@[k].player_id == old(self).id
                &&& final(self).deck@ == old(self).deck@.skip(count as int)
                &&& final(self).id == old(self).id
                &&& final(self).name == old(self).name
            },
            r is Err ==> *final(self) == *old(self) && r == Result::<
                Vec<PlayerCard>,
                GameError,
            >::Err(GameError::InsufficientCards),
    {
        if count < 0 || self.deck.len() < count as usize {
            return Err(GameError::InsufficientCards);
        }
        let n = count as usize;
        let mut cards: Vec<PlayerCard> = Vec::new();
        let mut k: usize = 0;
        while k < n
            invariant
                k <= n,
                n <= old(self).deck@.len(),
                self.id == old(self).id,
                self.name == old(self).name,
                cards@.len() == k,
                self.deck@ =~= old(self).deck@.skip(k as int),
                forall|j: int|
                    0 <= j < k ==> (#[trigger] cards@[j]).card == old(self).deck@[j]
                        && cards@[j].player_id == old(self).id,
            decreases n - k,
        {
            let pc = match self.draw() {
                Ok(pc) => pc,
                Err(_) => {
                    return vstd::pervasive::unreached();
                },
            };
            cards.push(pc);
            proof {
                assert(self.deck@ =~= old(self).deck@.skip(k + 1));
            }
            k = k + 1;
        }
        Ok(cards)
    }

    /// Appends a card to the end of the hand.
    pub fn give(&mut self, card: Card)
        ensures
            final(self).deck@ == old(self).deck@.push(card),
            final(self).id == old(self).id,
            final(self).name == old(self).name,
    {
        self.deck.push(card);
    }

    /// The position of the first player carrying the given identifier, if any.
    pub fn player_index(players: &Vec<Player>, id: i32) -> (r: Option<usize>)
        ensures
            r matches Some(i) ==> i < players@.len() && players@[i as int].id == id && forall|
                j: int,
            | 0 <= j < i ==> (#[trigger] players@[j]).id != id,
            r is None ==> forall|j: int| 0 <= j < players@.len() ==> (#[trigger] players@[j]).id
                != id,
    {
        let mut k: usize = 0;
        while k < players.len()
            invariant
                k <= players@.len(),
                forall|j: int| 0 <= j < k ==> (#[trigger] players@[j]).id != id,
            decreases players@.len() - k,
        {
            if players[k].id == id {
                return Some(k);
            }
            k = k + 1;
        }
        None
    }
}

} // verus!
