use vstd::prelude::*;

use crate::card::{card_pair, ordered_blackjack_pairs, pairs_of, spec_blackjack_value, Card, GameError};
use crate::player::{
    lemma_player_index_first,
    lemma_player_index_none,
    spec_player_index,
    Player,
};
use crate::rng;
use crate::war::{all_cards, lemma_all_cards_push};
use vstd::assert_multisets_equal;
use vstd::seq_lib::group_to_multiset_ensures;

verus! {

/// A blackjack table: the players still in the round, the players who have
/// busted (kept with their final hands for the end-of-round summary), and the
/// shared draw deck.
pub struct BlackJack {
    pub players: Vec<Player>,
    pub busted_players: Vec<Player>,
    pub deck: Vec<Card>,
}

/// Every card of the hand is well formed in the blackjack encoding.
pub open spec fn hand_wf(hand: Seq<Card>) -> bool {
    forall|k: int| 0 <= k < hand.len() ==> (#[trigger] hand[k]).wf_blackjack()
}

/// The blackjack total of a hand: the sum of its cards' comparison values.
pub open spec fn spec_hand_total(hand: Seq<Card>) -> int
    decreases hand.len(),
{
    if hand.len() == 0 {
        0
    } else {
        spec_blackjack_value(hand[0].value_id as int) + spec_hand_total(hand.drop_first())
    }
}

/// The highest hand total among a sequence of players; below every possible
/// total when there are no players.
pub open spec fn max_hand_total(players: Seq<Player>) -> int
    decreases players.len(),
{
    if players.len() == 0 {
        -1
    } else {
        let rest = max_hand_total(players.drop_first());
        let h = spec_hand_total(players[0].deck@);
        if h >= rest {
            h
        } else {
            rest
        }
    }
}

/// Appending a card adds exactly its comparison value to the hand total.
pub proof fn lemma_hand_total_push(hand: Seq<Card>, c: Card)
    ensures
        spec_hand_total(hand.push(c)) == spec_hand_total(hand) + spec_blackjack_value(
            c.value_id as int,
        ),
    decreases hand.len(),
{
    if hand.len() == 0 {
        assert(hand.push(c).drop_first() =~= hand);
    } else {
        assert(hand.push(c).drop_first() =~= hand.drop_first().push(c));
        lemma_hand_total_push(hand.drop_first(), c);
    }
}

/// A hand of in-range ranks totals at least one point per card and at most
/// eleven per card.
pub proof fn lemma_hand_total_bounds(hand: Seq<Card>)
    requires
        forall|k: int| 0 <= k < hand.len() ==> 1 <= (#[trigger] hand[k]).value_id < 15,
    ensures
        hand.len() <= spec_hand_total(hand) <= 11 * hand.len(),
    decreases hand.len(),
{
    if hand.len() > 0 {
        assert(hand[0] == hand[0]);
        lemma_hand_total_bounds(hand.drop_first());
    }
}

/// The total of one more card of the prefix.
pub proof fn lemma_hand_total_take_succ(hand: Seq<Card>, k: int)
    requires
        0 <= k < hand.len(),
    ensures
        spec_hand_total(hand.take(k + 1)) == spec_hand_total(hand.take(k)) + spec_blackjack_value(
            hand[k].value_id as int,
        ),
{
    assert(hand.take(k + 1) =~= hand.take(k).push(hand[k]));
    lemma_hand_total_push(hand.take(k), hand[k]);
}

/// No hand total exceeds the maximum over the players.
pub proof fn lemma_max_hand_total_ge(players: Seq<Player>, i: int)
    requires
        0 <= i < players.len(),
    ensures
        spec_hand_total(players[i].deck@) <= max_hand_total(players),
    decreases players.len(),
{
    if i > 0 {
        lemma_max_hand_total_ge(players.drop_first(), i - 1);
    }
}

/// The maximum over one more player of the prefix.
pub proof fn lemma_max_hand_total_take_succ(players: Seq<Player>, k: int)
    requires
        0 <= k < players.len(),
    ensures
        max_hand_total(players.take(k + 1)) == if spec_hand_total(players[k].deck@)
            >= max_hand_total(players.take(k)) {
            spec_hand_total(players[k].deck@)
        } else {
            max_hand_total(players.take(k))
        },
{
    lemma_max_hand_total_push(players.take(k), players[k]);
    assert(players.take(k + 1) =~= players.take(k).push(players[k]));
}

/// Appending a player extends the maximum by that player's total.
pub proof fn lemma_max_hand_total_push(players: Seq<Player>, p: Player)
    ensures
        max_hand_total(players.push(p)) == if spec_hand_total(p.deck@) >= max_hand_total(
            players,
        ) {
            spec_hand_total(p.deck@)
        } else {
            max_hand_total(players)
        },
    decreases players.len(),
{
    if players.len() == 0 {
        assert(players.push(p).drop_first() =~= players);
    } else {
        assert(players.push(p).drop_first() =~= players.drop_first().push(p));
        assert(players.push(p)[0] == players[0]);
        lemma_max_hand_total_push(players.drop_first(), p);
    }
}

impl BlackJack {
    /// The table is well formed when every hand is in the blackjack encoding,
    /// players still in the round have totals a fresh or hit hand can reach
    /// without busting, busted players' totals are above twenty-one, the shared
    /// deck holds blackjack-encoded cards, and player identifiers are distinct.
    pub open spec fn wf(self) -> bool {
        &&& forall|i: int|
            0 <= i < self.players@.len() ==> hand_wf((#[trigger] self.players@[i]).deck@)
                && spec_hand_total(self.players@[i].deck@) <= 22
        &&& forall|i: int|
            0 <= i < self.busted_players@.len() ==> hand_wf(
                (#[trigger] self.busted_players@[i]).deck@,
            ) && 21 < spec_hand_total(self.busted_players@[i].deck@) <= 33
        &&& forall|k: int| 0 <= k < self.deck@.len() ==> (#[trigger] self.deck@[k]).wf_blackjack()
        &&& forall|i: int, j: int|
            0 <= i < j < self.players@.len() ==> (#[trigger] self.players@[i]).id != (
            #[trigger] self.players@[j]).id
        &&& forall|i: int, j: int|
            0 <= i < self.busted_players@.len() && 0 <= j < self.players@.len() ==> (
            #[trigger] self.busted_players@[i]).id != (#[trigger] self.players@[j]).id
    }

    /// Deals a new table: a shuffled blackjack deck, two cards to each named
    /// player from random positions of the deck, the first dealt card of every
    /// hand turned face down. Dealt aces start out counted as eleven until
    /// `resolve_ace` settles them.
    pub fn new(player_names: Vec<String>) -> (r: BlackJack)
        requires
            2 <= player_names@.len() <= 4,
        ensures
            r.wf(),
            r.players@.len() == player_names@.len(),
            r.busted_players@.len() == 0,
            r.deck@.len() == 52 - 2 * player_names@.len(),
            forall|i: int|
                0 <= i < r.players@.len() ==> (#[trigger] r.players@[i]).id == i
                    && r.players@[i].name == player_names@[i] && r.players@[i].deck@.len() == 2
                    && !r.players@[i].deck@[0].visible && r.players@[i].deck@[1].visible,
            pairs_of(all_cards(r.players@) + r.deck@).to_multiset()
                == ordered_blackjack_pairs().to_multiset(),
    {
        let mut deck = Card::new_deck_blackjack();
        let ghost deck0 = deck@;
        let mut players: Vec<Player> = Vec::new();
        let busted_players: Vec<Player> = Vec::new();
        let n = player_names.len();
        let mut i: usize = 0;
        while i < n
            invariant
                2 <= n <= 4,
                n == player_names@.len(),
                i <= n,
                deck@.len() == 52 - 2 * i,
                forall|k: int|
                    0 <= k < deck@.len() ==> (#[trigger] deck@[k]).wf_blackjack()
                        && deck@[k].visible,
                players@.len() == i,
                pairs_of(all_cards(players@) + deck@).to_multiset()
                    == ordered_blackjack_pairs().to_multiset(),
                forall|j: int|
                    0 <= j < i ==> (#[trigger] players@[j]).id == j && players@[j].name
                        == player_names@[j] && players@[j].deck@.len() == 2 && hand_wf(
                        players@[j].deck@,
                    ) && spec_hand_total(players@[j].deck@) <= 22
                        && !players@[j].deck@[0].visible && players@[j].deck@[1].visible,
            decreases n - i,
        {
            let ghost deck_before = deck@;
            let mut player = match Player::new(
                player_names[i].clone(),
                i as i32,
                &mut deck,
                2,
            ) {
                Ok(p) => p,
                Err(_) => {
                    return vstd::pervasive::unreached();
                },
            };
            proof {
                broadcast use group_to_multiset_ensures;

                assert forall|c: Card| player.deck@.contains(c) implies c.wf_blackjack()
                    && c.visible by {
                    assert(player.deck@.to_multiset().count(c) > 0);
                    assert(deck@.to_multiset().add(player.deck@.to_multiset()).count(c) > 0);
                    assert(deck_before.to_multiset().count(c) > 0);
                    assert(deck_before.contains(c));
                }
                assert forall|c: Card| deck@.contains(c) implies c.wf_blackjack()
                    && c.visible by {
                    assert(deck@.to_multiset().count(c) > 0);
                    assert(deck@.to_multiset().add(player.deck@.to_multiset()).count(c) > 0);
                    assert(deck_before.to_multiset().count(c) > 0);
                    assert(deck_before.contains(c));
                }
                assert(player.deck@.contains(player.deck@[0]));
                assert(player.deck@.contains(player.deck@[1]));
                assert(hand_wf(player.deck@));
                lemma_hand_total_bounds(player.deck@);
            }
            let ghost hand_before_flip = player.deck@;
            let mut first = player.deck.remove(0);
            first.visible = false;
            player.deck.insert(0, first);
            proof {
                assert(hand_wf(player.deck@));
                lemma_hand_total_bounds(player.deck@);
                broadcast use vstd::multiset::group_multiset_axioms;

                let ac = all_cards(players@);
                let hand = hand_before_flip;
                let hand2 = player.deck@;
                assert(pairs_of(hand2) =~= pairs_of(hand));
                vstd::seq_lib::lemma_multiset_commutative(hand, deck@);
                assert_multisets_equal!((hand + deck@).to_multiset(), deck_before.to_multiset());
                crate::seqs::lemma_map_preserves_multiset(
                    hand + deck@,
                    deck_before,
                    |c: Card| card_pair(c),
                );
                lemma_all_cards_push(players@, player);
                assert(pairs_of(ac + deck_before) =~= pairs_of(ac) + pairs_of(deck_before));
                assert(pairs_of(hand + deck@) =~= pairs_of(hand) + pairs_of(deck@));
                assert(pairs_of((ac + hand2) + deck@) =~= pairs_of(ac) + (pairs_of(hand2)
                    + pairs_of(deck@)));
                assert(pairs_of(hand + deck@) == (hand + deck@).map_values(
                    |c: Card| card_pair(c),
                ));
                assert(pairs_of(deck_before) == deck_before.map_values(|c: Card| card_pair(c)));
                vstd::seq_lib::lemma_multiset_commutative(pairs_of(ac), pairs_of(deck_before));
                vstd::seq_lib::lemma_multiset_commutative(pairs_of(hand), pairs_of(deck@));
                vstd::seq_lib::lemma_multiset_commutative(pairs_of(hand2), pairs_of(deck@));
                vstd::seq_lib::lemma_multiset_commutative(
                    pairs_of(ac),
                    pairs_of(hand2) + pairs_of(deck@),
                );
                assert_multisets_equal!(
                    pairs_of(all_cards(players@.push(player)) + deck@).to_multiset(),
                    pairs_of(ac + deck_before).to_multiset()
                );
            }
            players.push(player);
            i = i + 1;
        }
        BlackJack { players, busted_players, deck }
    }

    /// The blackjack total of a hand.
    pub fn get_hand_total(hand: &Vec<Card>) -> (r: i32)
        requires
            forall|k: int| 0 <= k < hand@.len() ==> 1 <= (#[trigger] hand@[k]).value_id < 15,
            spec_hand_total(hand@) <= i32::MAX,
        ensures
            r == spec_hand_total(hand@),
    {
        let mut total: i32 = 0;
        let mut k: usize = 0;
        proof {
            assert(hand@.take(0int) =~= Seq::<Card>::empty());
        }
        while k < hand.len()
            invariant
                k <= hand@.len(),
                forall|j: int| 0 <= j < hand@.len() ==> 1 <= (#[trigger] hand@[j]).value_id < 15,
                spec_hand_total(hand@) <= i32::MAX,
                total == spec_hand_total(hand@.take(k as int)),
            decreases hand@.len() - k,
        {
            let v = match hand[k].blackjack_cmp_val() {
                Ok(v) => v,
                Err(_) => {
                    return vstd::pervasive::unreached();
                },
            };
            proof {
                lemma_hand_total_take_succ(hand@, k as int);
                lemma_hand_total_bounds(hand@.take(k as int + 1));
                lemma_hand_total_bounds(hand@);
                assert(spec_hand_total(hand@.take(k as int + 1)) <= spec_hand_total(hand@)) by {
                    lemma_hand_total_split(hand@, k as int + 1);
                    lemma_hand_total_bounds(hand@.skip(k as int + 1));
                }
            }
            total = total + v;
            k = k + 1;
        }
        proof {
            assert(hand@.take(hand@.len() as int) =~= hand@);
        }
        total
    }

    /// Validates an ace valuation supplied by the player: exactly one or
    /// eleven is accepted.
    pub fn redef_ace(choice: i32) -> (r: Result<i32, GameError>)
        ensures
            choice == 1 || choice == 11 <==> r is Ok,
            r matches Ok(v) ==> v == choice,
            r is Err ==> r == Result::<i32, GameError>::Err(GameError::InvalidAceValue),
    {
        if choice == 1 || choice == 11 {
            Ok(choice)
        } else {
            Err(GameError::InvalidAceValue)
        }
    }

    /// Removes and returns the top card of the shared deck; when the deck is
    /// exhausted it is transparently replaced by a freshly shuffled blackjack
    /// deck first, so a draw never fails.
    pub fn draw_from_deck(&mut self) -> (c: Card)
        requires
            old(self).wf(),
        ensures
            final(self).wf(),
            final(self).players == old(self).players,
            final(self).busted_players == old(self).busted_players,
            c.wf_blackjack(),
            old(self).deck@.len() > 0 ==> c == old(self).deck@.last() && final(self).deck@ == old(
                self,
            ).deck@.drop_last(),
            old(self).deck@.len() == 0 ==> final(self).deck@.len() == 51 && crate::card::pairs_of(
                final(self).deck@.push(c),
            ).to_multiset() == crate::card::ordered_blackjack_pairs().to_multiset(),
    {
        match self.deck.pop() {
            Some(c) => c,
            None => {
                self.deck = Card::new_deck_blackjack();
                let ghost fresh = self.deck@;
                match self.deck.pop() {
                    Some(c) => {
                        proof {
                            assert(self.deck@.push(c) =~= fresh);
                        }
                        c
                    },
                    None => vstd::pervasive::unreached(),
                }
            },
        }
    }

    /// Settles a dealt ace to count as one or eleven, as its owner chose:
    /// the chosen value must be one or eleven, the player must be seated, and
    /// the addressed card must be an unresolved ace. On success the ace's
    /// contribution to the hand total becomes exactly the chosen value.
    pub fn resolve_ace(&mut self, player_id: i32, card_index: usize, value: i32) -> (r: Result<
        (),
        GameError,
    >)
        requires
            old(self).wf(),
        ensures
            final(self).wf(),
            final(self).deck == old(self).deck,
            final(self).busted_players == old(self).busted_players,
            r is Err ==> final(self).players@ == old(self).players@,
            !(value == 1 || value == 11) <==> r == Result::<(), GameError>::Err(
                GameError::InvalidAceValue,
            ),
            (value == 1 || value == 11) && spec_player_index(old(self).players@, player_id) == -1
                <==> r == Result::<(), GameError>::Err(GameError::UnknownPlayer),
            (value == 1 || value == 11) && spec_player_index(old(self).players@, player_id)
                >= 0 && !ace_addressed(
                old(self).players@,
                spec_player_index(old(self).players@, player_id),
                card_index as int,
            ) <==> r == Result::<(), GameError>::Err(GameError::InvalidRank),
            (value == 1 || value == 11) && spec_player_index(old(self).players@, player_id) >= 0
                && ace_addressed(
                old(self).players@,
                spec_player_index(old(self).players@, player_id),
                card_index as int,
            ) <==> r is Ok,
            r is Ok ==> ace_resolved(
                old(self).players@,
                final(self).players@,
                spec_player_index(old(self).players@, player_id),
                card_index as int,
                value as int,
            ),
    {
        if !(value == 1 || value == 11) {
            return Err(GameError::InvalidAceValue);
        }
        let idx = match Player::player_index(&self.players, player_id) {
            Some(i) => {
                proof {
                    lemma_player_index_first(self.players@, player_id, i as int);
                }
                i
            },
            None => {
                proof {
                    lemma_player_index_none(self.players@, player_id);
                }
                return Err(GameError::UnknownPlayer);
            },
        };
        if card_index >= self.players[idx].deck.len() {
            return Err(GameError::InvalidRank);
        }
        if self.players[idx].deck[card_index].value_id != 14 {
            return Err(GameError::InvalidRank);
        }
        let ghost old_players = self.players@;
        let ghost h0 = self.players@[idx as int].deck@;
        let mut p = self.players.remove(idx);
        let mut c = p.deck.remove(card_index);
        c.value_id = if value == 1 {
            1
        } else {
            14
        };
        match c.refresh_blackjack() {
            Ok(()) => {},
            Err(_) => {
                return vstd::pervasive::unreached();
            },
        }
        p.deck.insert(card_index, c);
        self.players.insert(idx, p);
        proof {
            let i = idx as int;
            let h = self.players@[i].deck@;
            assert(self.players@ =~= old_players.update(i, self.players@[i]));
            assert(h =~= h0.update(card_index as int, c));
            lemma_hand_total_update(h0, card_index as int, c);
            assert(spec_hand_total(h) == spec_hand_total(h0) - 11 + value);
            assert(self.wf());
        }
        Ok(())
    }

    /// Applies a drawn card to a seated player's hand: the card's ace
    /// valuation (when it is an ace) must be one or eleven, and the card's
    /// value joins the running total. A total above twenty-one busts the
    /// player, who moves with the card to the busted set; otherwise the card
    /// joins the hand and the player stays. Returns whether the player busted.
    pub fn handle_hit(&mut self, player_id: i32, card: Card, ace_value: i32) -> (r: Result<
        bool,
        GameError,
    >)
        requires
            old(self).wf(),
            card.wf_blackjack(),
        ensures
            final(self).wf(),
            final(self).deck == old(self).deck,
            r is Err ==> final(self).players@ == old(self).players@
                && final(self).busted_players@ == old(self).busted_players@,
            spec_player_index(old(self).players@, player_id) == -1 <==> r == Result::<
                bool,
                GameError,
            >::Err(GameError::UnknownPlayer),
            spec_player_index(old(self).players@, player_id) >= 0 && !ace_choice_ok(
                card,
                ace_value as int,
            ) <==> r == Result::<bool, GameError>::Err(GameError::InvalidAceValue),
            spec_player_index(old(self).players@, player_id) >= 0 && ace_choice_ok(
                card,
                ace_value as int,
            ) <==> r is Ok,
            r matches Ok(busted) ==> ({
                let i = spec_player_index(old(self).players@, player_id);
                let t = spec_hand_total(old(self).players@[i].deck@) + hit_value(
                    card,
                    ace_value as int,
                );
                &&& busted <==> t > 21
                &&& busted ==> hit_busted(
                    old(self).players@,
                    final(self).players@,
                    old(self).busted_players@,
                    final(self).busted_players@,
                    i,
                    card,
                    ace_value as int,
                )
                &&& !busted ==> hit_stayed(
                    old(self).players@,
                    final(self).players@,
                    i,
                    card,
                    ace_value as int,
                ) && final(self).busted_players == old(self).busted_players
            }),
    {
        let idx = match Player::player_index(&self.players, player_id) {
            Some(i) => {
                proof {
                    lemma_player_index_first(self.players@, player_id, i as int);
                }
                i
            },
            None => {
                proof {
                    lemma_player_index_none(self.players@, player_id);
                }
                return Err(GameError::UnknownPlayer);
            },
        };
        let mut rc = card;
        let v: i32;
        if rc.value_id == 14 {
            if !(ace_value == 1 || ace_value == 11) {
                return Err(GameError::InvalidAceValue);
            }
            v = ace_value;
            rc.value_id = if ace_value == 1 {
                1
            } else {
                14
            };
            match rc.refresh_blackjack() {
                Ok(()) => {},
                Err(_) => {
                    return vstd::pervasive::unreached();
                },
            }
        } else {
            v = match rc.blackjack_cmp_val() {
                Ok(v) => v,
                Err(_) => {
                    return vstd::pervasive::unreached();
                },
            };
        }
        let total = BlackJack::get_hand_total(&self.players[idx].deck);
        let new_total = total + v;
        let ghost before = self.players@;
        let ghost i = idx as int;
        let mut p = self.players.remove(idx);
        p.give(rc);
        proof {
            lemma_hand_total_push(before[i].deck@, rc);
            assert(p.deck@.drop_last() =~= before[i].deck@);
        }
        if new_total > 21 {
            self.busted_players.push(p);
            proof {
                assert(final(self).busted_players@.drop_last() =~= old(self).busted_players@);
                assert(self.wf());
            }
            Ok(true)
        } else {
            self.players.insert(idx, p);
            proof {
                assert(self.players@ =~= before.update(i, p));
                assert(self.wf());
            }
            Ok(false)
        }
    }

    /// The identifiers of the players, none of whom busted, whose hand total
    /// equals the highest total at the table, in seating order. Empty exactly
    /// when every player busted.
    pub fn round_winners(&self) -> (r: Vec<i32>)
        requires
            self.wf(),
        ensures
            r@ == winners_of(self.players@, max_hand_total(self.players@)),
            r@.len() > 0 <==> self.players@.len() > 0,
    {
        let ghost all = self.players@;
        let mut winners: Vec<i32> = Vec::new();
        if self.players.len() == 0 {
            return winners;
        }
        let mut m: i32 = BlackJack::get_hand_total(&self.players[0].deck);
        proof {
            assert(all.take(0int) =~= Seq::<Player>::empty());
            lemma_max_hand_total_take_succ(all, 0);
            lemma_hand_total_nonneg(all[0].deck@);
            assert(m == max_hand_total(all.take(1int)));
        }
        let mut k: usize = 1;
        while k < self.players.len()
            invariant
                self.wf(),
                all == self.players@,
                1 <= k <= all.len(),
                m == max_hand_total(all.take(k as int)),
            decreases all.len() - k,
        {
            let t = BlackJack::get_hand_total(&self.players[k].deck);
            proof {
                lemma_max_hand_total_take_succ(all, k as int);
            }
            if t > m {
                m = t;
            }
            k = k + 1;
        }
        proof {
            assert(all.take(all.len() as int) =~= all);
        }
        let mut j: usize = 0;
        while j < self.players.len()
            invariant
                self.wf(),
                all == self.players@,
                j <= all.len(),
                m == max_hand_total(all),
                winners_of(all, m as int) == winners@ + winners_of(
                    all.skip(j as int),
                    m as int,
                ),
                winners@.len() <= j,
            decreases all.len() - j,
        {
            let t = BlackJack::get_hand_total(&self.players[j].deck);
            let ghost wbefore = winners@;
            let ghost tail = all.skip(j as int);
            proof {
                assert(tail[0] == all[j as int]);
                assert(tail.drop_first() =~= all.skip(j as int + 1));
            }
            if t == m {
                winners.push(self.players[j].id);
                proof {
                    assert(winners_of(tail, m as int) == seq![all[j as int].id] + winners_of(
                        all.skip(j as int + 1),
                        m as int,
                    ));
                    assert(wbefore + winners_of(tail, m as int) =~= winners@ + winners_of(
                        all.skip(j as int + 1),
                        m as int,
                    ));
                }
            } else {
                proof {
                    assert(winners_of(tail, m as int) == winners_of(
                        all.skip(j as int + 1),
                        m as int,
                    ));
                }
            }
            j = j + 1;
        }
        proof {
            assert(all.skip(all.len() as int) =~= Seq::<Player>::empty());
            assert(winners_of(all, m as int) =~= winners@);
            lemma_max_achieved(all);
            let w = choose|w: int|
                0 <= w < all.len() && spec_hand_total((#[trigger] all[w]).deck@)
                    == max_hand_total(all);
            lemma_winners_exactly_the_achievers(all, m as int, w);
        }
        winners
    }

    /// The players still in the round.
    pub fn get_players(&self) -> (r: &Vec<Player>)
        ensures
            r == &self.players,
    {
        &self.players
    }
}

/// The card addressed in a player's hand is an unresolved ace.
pub open spec fn ace_addressed(players: Seq<Player>, i: int, card_index: int) -> bool {
    &&& 0 <= card_index < players[i].deck@.len()
    &&& players[i].deck@[card_index].value_id == 14
}

/// The player set `after` is `before` with exactly the addressed ace of the
/// player at position `i` settled to count as `value`: the ace's identifier
/// is rewritten, nothing else changes, and the hand total moves from counting
/// the ace as eleven to counting it as `value`.
pub open spec fn ace_resolved(
    before: Seq<Player>,
    after: Seq<Player>,
    i: int,
    card_index: int,
    value: int,
) -> bool {
    let h0 = before[i].deck@;
    let h = after[i].deck@;
    &&& after.len() == before.len()
    &&& forall|j: int| 0 <= j < before.len() && j != i ==> after[j] == before[j]
    &&& after[i].id == before[i].id
    &&& after[i].name == before[i].name
    &&& h.len() == h0.len()
    &&& forall|k: int| 0 <= k < h.len() && k != card_index ==> h[k] == h0[k]
    &&& h[card_index].value_id == if value == 1 {
        1int
    } else {
        14int
    }
    &&& h[card_index].suit_id == h0[card_index].suit_id
    &&& h[card_index].visible == h0[card_index].visible
    &&& spec_hand_total(h) == spec_hand_total(h0) - 11 + value
}

/// A drawn card needs no ace valuation, or has been given a lawful one.
pub open spec fn ace_choice_ok(card: Card, ace_value: int) -> bool {
    card.value_id != 14 || ace_value == 1 || ace_value == 11
}

/// The player set `after` is `before` with the player at position `i` still
/// seated and holding the resolved drawn card at the end of the hand; the
/// card's contribution to the hand total is exactly the hit value.
pub open spec fn hit_stayed(
    before: Seq<Player>,
    after: Seq<Player>,
    i: int,
    card: Card,
    ace_value: int,
) -> bool {
    &&& after.len() == before.len()
    &&& forall|j: int| 0 <= j < before.len() && j != i ==> after[j] == before[j]
    &&& after[i].id == before[i].id
    &&& after[i].name == before[i].name
    &&& hand_extended(before[i].deck@, after[i].deck@, card, ace_value)
    &&& spec_hand_total(after[i].deck@) == spec_hand_total(before[i].deck@) + hit_value(
        card,
        ace_value,
    )
}

/// The player at position `i` of `before` has busted: it left the seated
/// players and was appended, with the resolved drawn card in hand, to the
/// busted set.
pub open spec fn hit_busted(
    before: Seq<Player>,
    after: Seq<Player>,
    busted_before: Seq<Player>,
    busted_after: Seq<Player>,
    i: int,
    card: Card,
    ace_value: int,
) -> bool {
    &&& after == before.remove(i)
    &&& busted_after.len() == busted_before.len() + 1
    &&& busted_after.drop_last() == busted_before
    &&& busted_after.last().id == before[i].id
    &&& busted_after.last().name == before[i].name
    &&& hand_extended(before[i].deck@, busted_after.last().deck@, card, ace_value)
    &&& spec_hand_total(busted_after.last().deck@) == spec_hand_total(before[i].deck@)
        + hit_value(card, ace_value)
}

/// The identifiers of the players whose hand total equals `m`, in seating
/// order.
pub open spec fn winners_of(players: Seq<Player>, m: int) -> Seq<i32>
    decreases players.len(),
{
    if players.len() == 0 {
        Seq::empty()
    } else {
        let rest = winners_of(players.drop_first(), m);
        if spec_hand_total(players[0].deck@) == m {
            seq![players[0].id] + rest
        } else {
            rest
        }
    }
}

/// Every card is worth at least a point, so no hand total is negative.
pub proof fn lemma_hand_total_nonneg(hand: Seq<Card>)
    ensures
        spec_hand_total(hand) >= 0,
    decreases hand.len(),
{
    if hand.len() > 0 {
        lemma_hand_total_nonneg(hand.drop_first());
    }
}

/// Some player reaches the maximum.
pub proof fn lemma_max_achieved(players: Seq<Player>)
    requires
        players.len() > 0,
    ensures
        exists|j: int|
            0 <= j < players.len() && spec_hand_total((#[trigger] players[j]).deck@)
                == max_hand_total(players),
    decreases players.len(),
{
    if players.len() == 1 {
        assert(players.drop_first().len() == 0);
        assert(max_hand_total(players.drop_first()) == -1);
        lemma_hand_total_nonneg(players[0].deck@);
        assert(spec_hand_total(players[0].deck@) == max_hand_total(players));
    } else {
        lemma_max_achieved(players.drop_first());
        let j = choose|j: int|
            0 <= j < players.drop_first().len() && spec_hand_total(
                (#[trigger] players.drop_first()[j]).deck@,
            ) == max_hand_total(players.drop_first());
        if spec_hand_total(players[0].deck@) >= max_hand_total(players.drop_first()) {
            assert(spec_hand_total(players[0].deck@) == max_hand_total(players));
        } else {
            assert(players.drop_first()[j] == players[j + 1]);
            assert(spec_hand_total(players[j + 1].deck@) == max_hand_total(players));
        }
    }
}

/// Law: with distinct player identifiers, a player's identifier is among the
/// winners for mark `m` exactly when that player's hand total equals `m` —
/// ties are decided by the totals alone, and every player achieving the
/// highest total is a winner.
pub proof fn lemma_winners_exactly_the_achievers(players: Seq<Player>, m: int, j: int)
    requires
        0 <= j < players.len(),
        forall|a: int, b: int|
            0 <= a < b < players.len() ==> (#[trigger] players[a]).id != (
            #[trigger] players[b]).id,
    ensures
        winners_of(players, m).contains(players[j].id) <==> spec_hand_total(players[j].deck@)
            == m,
    decreases players.len(),
{
    let rest = winners_of(players.drop_first(), m);
    assert forall|a: int, b: int|
        0 <= a < b < players.drop_first().len() implies (#[trigger] players.drop_first()[a]).id
        != (#[trigger] players.drop_first()[b]).id by {
        assert(players.drop_first()[a] == players[a + 1]);
        assert(players.drop_first()[b] == players[b + 1]);
    }
    if j == 0 {
        if spec_hand_total(players[0].deck@) == m {
            assert((seq![players[0].id] + rest)[0] == players[0].id);
            assert(winners_of(players, m).contains(players[0].id));
        } else {
            if rest.contains(players[0].id) {
                let k = choose|k: int| 0 <= k < rest.len() && rest[k] == players[0].id;
                lemma_winners_id_seated(players.drop_first(), m, k);
                let w = choose|w: int|
                    0 <= w < players.drop_first().len() && (#[trigger] players.drop_first(
                    )[w]).id == rest[k] && spec_hand_total(players.drop_first()[w].deck@) == m;
                assert(players.drop_first()[w] == players[w + 1]);
                assert(players[w + 1].id == players[0].id);
                assert(false);
            }
        }
    } else {
        lemma_winners_exactly_the_achievers(players.drop_first(), m, j - 1);
        assert(players.drop_first()[j - 1] == players[j]);
        if spec_hand_total(players[0].deck@) == m {
            let all = seq![players[0].id] + rest;
            if spec_hand_total(players[j].deck@) == m {
                let k = choose|k: int| 0 <= k < rest.len() && rest[k] == players[j].id;
                assert(all[k + 1] == players[j].id);
                assert(all.contains(players[j].id));
            } else {
                if all.contains(players[j].id) {
                    let k = choose|k: int| 0 <= k < all.len() && all[k] == players[j].id;
                    if k == 0 {
                        assert(players[0].id == players[j].id);
                        assert(false);
                    } else {
                        assert(rest[k - 1] == players[j].id);
                        assert(rest.contains(players[j].id));
                        assert(false);
                    }
                }
            }
        } else {
            if spec_hand_total(players[j].deck@) == m {
                let k = choose|k: int| 0 <= k < rest.len() && rest[k] == players[j].id;
                assert(winners_of(players, m)[k] == players[j].id);
            }
        }
    }
}

/// Every winner identifier belongs to a seated player whose total is `m`.
pub proof fn lemma_winners_id_seated(players: Seq<Player>, m: int, k: int)
    requires
        0 <= k < winners_of(players, m).len(),
    ensures
        exists|w: int|
            0 <= w < players.len() && (#[trigger] players[w]).id == winners_of(players, m)[k]
                && spec_hand_total(players[w].deck@) == m,
    decreases players.len(),
{
    let rest = winners_of(players.drop_first(), m);
    if spec_hand_total(players[0].deck@) == m {
        if k == 0 {
            assert(players[0].id == winners_of(players, m)[0]);
        } else {
            lemma_winners_id_seated(players.drop_first(), m, k - 1);
            let w = choose|w: int|
                0 <= w < players.drop_first().len() && (#[trigger] players.drop_first()[w]).id
                    == rest[k - 1] && spec_hand_total(players.drop_first()[w].deck@) == m;
            assert(players.drop_first()[w] == players[w + 1]);
            assert(winners_of(players, m)[k] == rest[k - 1]);
        }
    } else {
        lemma_winners_id_seated(players.drop_first(), m, k);
        let w = choose|w: int|
            0 <= w < players.drop_first().len() && (#[trigger] players.drop_first()[w]).id
                == rest[k] && spec_hand_total(players.drop_first()[w].deck@) == m;
        assert(players.drop_first()[w] == players[w + 1]);
    }
}

/// Law: winner determination ranges only over the players still in the
/// round — a busted player's identifier is never among the winners.
pub proof fn lemma_busted_never_wins(game: BlackJack, b: int)
    requires
        game.wf(),
        0 <= b < game.busted_players@.len(),
    ensures
        !winners_of(game.players@, max_hand_total(game.players@)).contains(
            game.busted_players@[b].id,
        ),
{
    let m = max_hand_total(game.players@);
    if winners_of(game.players@, m).contains(game.busted_players@[b].id) {
        let k = choose|k: int|
            0 <= k < winners_of(game.players@, m).len() && winners_of(game.players@, m)[k]
                == game.busted_players@[b].id;
        lemma_winners_id_seated(game.players@, m, k);
        let w = choose|w: int|
            0 <= w < game.players@.len() && (#[trigger] game.players@[w]).id == winners_of(
                game.players@,
                m,
            )[k] && spec_hand_total(game.players@[w].deck@) == m;
        assert(game.busted_players@[b].id != game.players@[w].id);
        assert(false);
    }
}

/// Law: at a well-formed table, a seated player is among the round's winners
/// exactly when that player's hand total equals the highest total — ties are
/// broken by the totals alone, and every player achieving the maximum wins.
pub proof fn lemma_round_winners_exact(game: BlackJack, j: int)
    requires
        game.wf(),
        0 <= j < game.players@.len(),
    ensures
        winners_of(game.players@, max_hand_total(game.players@)).contains(game.players@[j].id)
            <==> spec_hand_total(game.players@[j].deck@) == max_hand_total(game.players@),
{
    lemma_winners_exactly_the_achievers(game.players@, max_hand_total(game.players@), j);
}

/// Replacing one card changes the hand total by the difference of the two
/// cards' comparison values.
pub proof fn lemma_hand_total_update(hand: Seq<Card>, k: int, c: Card)
    requires
        0 <= k < hand.len(),
    ensures
        spec_hand_total(hand.update(k, c)) == spec_hand_total(hand) - spec_blackjack_value(
            hand[k].value_id as int,
        ) + spec_blackjack_value(c.value_id as int),
    decreases hand.len(),
{
    if k == 0 {
        assert(hand.update(0, c).drop_first() =~= hand.drop_first());
        assert(hand.update(0, c)[0] == c);
    } else {
        assert(hand.update(k, c).drop_first() =~= hand.drop_first().update(k - 1, c));
        assert(hand.update(k, c)[0] == hand[0]);
        lemma_hand_total_update(hand.drop_first(), k - 1, c);
    }
}

/// The rank identifier a drawn card ends up with once an ace valuation is
/// applied: an unresolved ace becomes an ace counted as one or stays counted
/// as eleven; any other card keeps its identifier.
pub open spec fn resolved_value_id(card: Card, ace_value: int) -> int {
    if card.value_id == 14 {
        if ace_value == 1 {
            1
        } else {
            14
        }
    } else {
        card.value_id as int
    }
}

/// The value a drawn card adds to the running total under an ace valuation.
pub open spec fn hit_value(card: Card, ace_value: int) -> int {
    if card.value_id == 14 {
        ace_value
    } else {
        spec_blackjack_value(card.value_id as int)
    }
}

/// The hand `h` extends `h0` by exactly the resolved form of `card`.
pub open spec fn hand_extended(h0: Seq<Card>, h: Seq<Card>, card: Card, ace_value: int) -> bool {
    &&& h.len() == h0.len() + 1
    &&& h.drop_last() == h0
    &&& h.last().suit_id == card.suit_id
    &&& h.last().value_id == resolved_value_id(card, ace_value)
    &&& h.last().visible == card.visible
    &&& h.last().wf_blackjack()
}

/// A hand's total is the sum of the totals of any front part and the rest.
pub proof fn lemma_hand_total_split(hand: Seq<Card>, k: int)
    requires
        0 <= k <= hand.len(),
    ensures
        spec_hand_total(hand) == spec_hand_total(hand.take(k)) + spec_hand_total(hand.skip(k)),
    decreases k,
{
    if k == 0 {
        assert(hand.take(0int) =~= Seq::<Card>::empty());
        assert(hand.skip(0int) =~= hand);
    } else {
        lemma_hand_total_split(hand, k - 1);
        lemma_hand_total_take_succ(hand, k - 1);
        assert(hand.skip(k - 1).drop_first() =~= hand.skip(k));
        assert(hand.skip(k - 1)[0] == hand[k - 1]);
        assert(spec_hand_total(hand.skip(k - 1)) == spec_blackjack_value(
            hand[k - 1].value_id as int,
        ) + spec_hand_total(hand.skip(k)));
    }
}

} // verus!
