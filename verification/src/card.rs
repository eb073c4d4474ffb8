use vstd::prelude::*;

use crate::rng;
use crate::seqs::lemma_map_preserves_multiset;
use vstd::seq_lib::group_to_multiset_ensures;

verus! {

/// Maps a rank identifier to its display string under some encoding.
pub trait ValueIDGen {
    fn gen_value_by_id(id: i32) -> Result<String, GameError>;
}

/// The error kinds a card game can raise.
#[derive(Clone, Copy, Debug, PartialEq, Eq, Structural)]
pub enum GameError {
    InvalidSuit,
    InvalidRank,
    EmptyHand,
    InsufficientCards,
    InvalidAceValue,
    UnknownPlayer,
}

/// One playing card. `suit_id` selects one of the four suits; `value_id` is the
/// rank in the active encoding (standard: 0..13, blackjack: 1..15). `suit` and
/// `value` are the derived display strings; `visible` says whether other
/// players may see the card.
#[derive(Clone)]
pub struct Card {
    pub suit: String,
    pub suit_id: i32,
    pub value: String,
    pub value_id: i32,
    pub visible: bool,
}

/// The display name of a suit identifier.
pub open spec fn spec_suit_name(id: int) -> Seq<char> {
    if id == 0 {
        "Spades"@
    } else if id == 1 {
        "Hearts"@
    } else if id == 2 {
        "Clubs"@
    } else {
        "Diamonds"@
    }
}

/// The display name of a rank identifier in the blackjack encoding.
pub open spec fn spec_blackjack_value_name(id: int) -> Seq<char> {
    if id == 1 {
        "Ace (as 1)"@
    } else if id == 2 {
        "2"@
    } else if id == 3 {
        "3"@
    } else if id == 4 {
        "4"@
    } else if id == 5 {
        "5"@
    } else if id == 6 {
        "6"@
    } else if id == 7 {
        "7"@
    } else if id == 8 {
        "8"@
    } else if id == 9 {
        "9"@
    } else if id == 10 {
        "10"@
    } else if id == 11 {
        "Jack (as 10)"@
    } else if id == 12 {
        "Queen (as 10)"@
    } else if id == 13 {
        "King (as 10)"@
    } else {
        "Ace (as 11)"@
    }
}

/// The comparison value a blackjack rank identifier contributes to a hand
/// total: numeric ranks count as themselves, face cards as ten, and an ace as
/// the value it was resolved to (one or eleven).
pub open spec fn spec_blackjack_value(id: int) -> int {
    if 1 <= id <= 10 {
        id
    } else if 11 <= id <= 13 {
        10
    } else {
        11
    }
}

/// The display name of a rank identifier in the standard encoding.
pub open spec fn spec_value_name(id: int) -> Seq<char> {
    if id == 0 {
        "2"@
    } else if id == 1 {
        "3"@
    } else if id == 2 {
        "4"@
    } else if id == 3 {
        "5"@
    } else if id == 4 {
        "6"@
    } else if id == 5 {
        "7"@
    } else if id == 6 {
        "8"@
    } else if id == 7 {
        "9"@
    } else if id == 8 {
        "10"@
    } else if id == 9 {
        "Jack"@
    } else if id == 10 {
        "Queen"@
    } else if id == 11 {
        "King"@
    } else {
        "Ace"@
    }
}

/// The (suit, rank) identifier pair of a card: the mathematical identity of
/// the card, independent of its display strings and visibility.
pub open spec fn card_pair(c: Card) -> (i32, i32) {
    (c.suit_id, c.value_id)
}

/// The identifier pairs of a whole deck, in order.
pub open spec fn pairs_of(deck: Seq<Card>) -> Seq<(i32, i32)> {
    deck.map_values(|c: Card| card_pair(c))
}

/// The identifier pairs of the deterministic ordered deck: all four suits,
/// each with the thirteen standard ranks.
pub open spec fn ordered_pairs() -> Seq<(i32, i32)> {
    Seq::new(52, |k: int| ((k / 13) as i32, (k % 13) as i32))
}

/// The identifier pairs of a fresh blackjack deck: the same cards with each
/// rank re-expressed in the blackjack encoding (ranks shifted up by two, so
/// an unresolved ace carries the identifier of an ace counted as eleven).
pub open spec fn ordered_blackjack_pairs() -> Seq<(i32, i32)> {
    Seq::new(52, |k: int| ((k / 13) as i32, (k % 13 + 2) as i32))
}

impl Card {
    /// A card is well formed in the standard encoding when both identifiers
    /// are in range and the display strings match them.
    pub open spec fn wf(self) -> bool {
        &&& 0 <= self.suit_id < 4
        &&& 0 <= self.value_id < 13
        &&& self.suit@ == spec_suit_name(self.suit_id as int)
        &&& self.value@ == spec_value_name(self.value_id as int)
    }

    /// Builds a card of the standard encoding, rejecting identifiers outside
    /// their symbolic range.
    pub fn new(suit_id: i32, value_id: i32) -> (r: Result<Card, GameError>)
        ensures
            0 <= suit_id < 4 && 0 <= value_id < 13 <==> r is Ok,
            r matches Ok(c) ==> c.wf() && c.suit_id == suit_id && c.value_id == value_id
                && c.visible,
            !(0 <= suit_id < 4) ==> r == Result::<Card, GameError>::Err(GameError::InvalidSuit),
            0 <= suit_id < 4 && !(0 <= value_id < 13) ==> r == Result::<Card, GameError>::Err(
                GameError::InvalidRank,
            ),
    {
        let mut card = Card {
            suit: String::new(),
            suit_id,
            value: String::new(),
            value_id,
            visible: true,
        };
        match card.refresh() {
            Ok(()) => Ok(card),
            Err(e) => Err(e),
        }
    }

    /// Recomputes the display strings from the identifiers under the standard
    /// encoding; leaves the card unchanged when an identifier is out of range.
    pub fn refresh(&mut self) -> (r: Result<(), GameError>)
        ensures
            0 <= old(self).suit_id < 4 && 0 <= old(self).value_id < 13 <==> r is Ok,
            r is Ok ==> final(self).wf(),
            r is Ok ==> final(self).suit_id == old(self).suit_id && final(self).value_id == old(
                self,
            ).value_id && final(self).visible == old(self).visible,
            r is Err ==> *final(self) == *old(self),
            !(0 <= old(self).suit_id < 4) ==> r == Result::<(), GameError>::Err(
                GameError::InvalidSuit,
            ),
            0 <= old(self).suit_id < 4 && !(0 <= old(self).value_id < 13) ==> r == Result::<
                (),
                GameError,
            >::Err(GameError::InvalidRank),
    {
        if self.suit_id < 0 || self.suit_id >= 4 {
            return Err(GameError::InvalidSuit);
        }
        if self.value_id < 0 || self.value_id >= 13 {
            return Err(GameError::InvalidRank);
        }
        self.suit = if self.suit_id == 0 {
            "Spades"
        } else if self.suit_id == 1 {
            "Hearts"
        } else if self.suit_id == 2 {
            "Clubs"
        } else {
            "Diamonds"
        }.to_owned();
        self.value = if self.value_id == 0 {
            "2"
        } else if self.value_id == 1 {
            "3"
        } else if self.value_id == 2 {
            "4"
        } else if self.value_id == 3 {
            "5"
        } else if self.value_id == 4 {
            "6"
        } else if self.value_id == 5 {
            "7"
        } else if self.value_id == 6 {
            "8"
        } else if self.value_id == 7 {
            "9"
        } else if self.value_id == 8 {
            "10"
        } else if self.value_id == 9 {
            "Jack"
        } else if self.value_id == 10 {
            "Queen"
        } else if self.value_id == 11 {
            "King"
        } else {
            "Ace"
        }.to_owned();
        Ok(())
    }

    /// A card is well formed in the blackjack encoding when both identifiers
    /// are in range and the display strings match them.
    pub open spec fn wf_blackjack(self) -> bool {
        &&& 0 <= self.suit_id < 4
        &&& 1 <= self.value_id < 15
        &&& self.suit@ == spec_suit_name(self.suit_id as int)
        &&& self.value@ == spec_blackjack_value_name(self.value_id as int)
    }

    /// Recomputes the display strings from the identifiers under the blackjack
    /// encoding; leaves the card unchanged when an identifier is out of range.
    pub fn refresh_blackjack(&mut self) -> (r: Result<(), GameError>)
        ensures
            0 <= old(self).suit_id < 4 && 1 <= old(self).value_id < 15 <==> r is Ok,
            r is Ok ==> final(self).wf_blackjack(),
            r is Ok ==> final(self).suit_id == old(self).suit_id && final(self).value_id == old(
                self,
            ).value_id && final(self).visible == old(self).visible,
            r is Err ==> *final(self) == *old(self),
            !(0 <= old(self).suit_id < 4) ==> r == Result::<(), GameError>::Err(
                GameError::InvalidSuit,
            ),
            0 <= old(self).suit_id < 4 && !(1 <= old(self).value_id < 15) ==> r == Result::<
                (),
                GameError,
            >::Err(GameError::InvalidRank),
    {
        if self.suit_id < 0 || self.suit_id >= 4 {
            return Err(GameError::InvalidSuit);
        }
        if self.value_id < 1 || self.value_id >= 15 {
            return Err(GameError::InvalidRank);
        }
        self.suit = if self.suit_id == 0 {
            "Spades"
        } else if self.suit_id == 1 {
            "Hearts"
        } else if self.suit_id == 2 {
            "Clubs"
        } else {
            "Diamonds"
        }.to_owned();
        self.value = if self.value_id == 1 {
            "Ace (as 1)"
        } else if self.value_id == 2 {
            "2"
        } else if self.value_id == 3 {
            "3"
        } else if self.value_id == 4 {
            "4"
        } else if self.value_id == 5 {
            "5"
        } else if self.value_id == 6 {
            "6"
        } else if self.value_id == 7 {
            "7"
        } else if self.value_id == 8 {
            "8"
        } else if self.value_id == 9 {
            "9"
        } else if self.value_id == 10 {
            "10"
        } else if self.value_id == 11 {
            "Jack (as 10)"
        } else if self.value_id == 12 {
            "Queen (as 10)"
        } else {
            "King (as 10)"
        }.to_owned();
        if self.value_id == 14 {
            self.value = "Ace (as 11)".to_owned();
        }
        Ok(())
    }

    /// An exact field-for-field duplicate of the card.
    pub fn copy(&self) -> (r: Card)
        ensures
            r == *self,
    {
        Card {
            suit: self.suit.clone(),
            suit_id: self.suit_id,
            value: self.value.clone(),
            value_id: self.value_id,
            visible: self.visible,
        }
    }

    /// The value this card contributes to a blackjack hand total.
    pub fn blackjack_cmp_val(&self) -> (r: Result<i32, GameError>)
        ensures
            1 <= self.value_id < 15 <==> r is Ok,
            r matches Ok(v) ==> v == spec_blackjack_value(self.value_id as int),
            r is Err ==> r == Result::<i32, GameError>::Err(GameError::InvalidRank),
    {
        if 1 <= self.value_id && self.value_id <= 10 {
            Ok(self.value_id)
        } else if 11 <= self.value_id && self.value_id <= 13 {
            Ok(10)
        } else if self.value_id == 14 {
            Ok(11)
        } else {
            Err(GameError::InvalidRank)
        }
    }

    /// Builds the full ordered deck: one card of each of the four suits and
    /// thirteen standard ranks, in a fixed order.
    pub fn new_deck() -> (r: Vec<Card>)
        ensures
            r@.len() == 52,
            pairs_of(r@) =~= ordered_pairs(),
            forall|k: int| 0 <= k < 52 ==> (#[trigger] r@[k]).wf() && r@[k].visible,
    {
        let mut deck: Vec<Card> = Vec::new();
        let mut i: i32 = 0;
        while i < 4
            invariant
                0 <= i <= 4,
                deck@.len() == i * 13,
                forall|k: int|
                    0 <= k < deck@.len() ==> (#[trigger] r_pair(deck@, k)) == (k / 13, k % 13),
                forall|k: int| 0 <= k < deck@.len() ==> (#[trigger] deck@[k]).wf() && deck@[k].visible,
            decreases 4 - i,
        {
            let mut j: i32 = 0;
            while j < 13
                invariant
                    0 <= i < 4,
                    0 <= j <= 13,
                    deck@.len() == i * 13 + j,
                    forall|k: int|
                        0 <= k < deck@.len() ==> (#[trigger] r_pair(deck@, k)) == (k / 13, k % 13),
                    forall|k: int|
                        0 <= k < deck@.len() ==> (#[trigger] deck@[k]).wf() && deck@[k].visible,
                decreases 13 - j,
            {
                let card = match Card::new(i, j) {
                    Ok(c) => c,
                    Err(_) => vstd::pervasive::unreached(),
                };
                proof {
                    let n = deck@.len() as int;
                    vstd::arithmetic::div_mod::lemma_fundamental_div_mod(n, 13);
                    vstd::arithmetic::div_mod::lemma_mod_bound(n, 13);
                    assert(n / 13 == i as int && n % 13 == j as int) by (nonlinear_arith)
                        requires
                            n == i * 13 + j,
                            0 <= i < 4,
                            0 <= j < 13,
                            n == 13 * (n / 13) + n % 13,
                            0 <= n % 13 < 13,
                    ;
                }
                let ghost prev = deck@;
                deck.push(card);
                proof {
                    let n = prev.len() as int;
                    assert(deck@[n].suit_id == i && deck@[n].value_id == j);
                    assert(r_pair(deck@, n) == (n / 13, n % 13));
                    assert forall|k: int| 0 <= k < deck@.len() implies (#[trigger] r_pair(
                        deck@,
                        k,
                    )) == (k / 13, k % 13) by {
                        if k < n {
                            assert(deck@[k] == prev[k]);
                            assert(r_pair(prev, k) == (k / 13, k % 13));
                        }
                    }
                }
                j = j + 1;
            }
            i = i + 1;
        }
        proof {
            assert forall|k: int| 0 <= k < 52 implies pairs_of(deck@)[k] == ordered_pairs()[k] by {
                assert(r_pair(deck@, k) == (k / 13, k % 13));
            }
            assert(pairs_of(deck@) =~= ordered_pairs());
        }
        deck
    }
    /// Builds a card with a randomly chosen suit and standard rank.
    pub fn new_random() -> (r: Result<Card, GameError>)
        ensures
            r is Ok,
            r matches Ok(c) ==> c.wf() && c.visible,
    {
        let suit_id = rng::random_index(4);
        let value_id = rng::random_index(13);
        Card::new(suit_id as i32, value_id as i32)
    }

    /// Builds the full deck in a uniformly random order: the same 52 cards as
    /// the ordered deck, as the identifier-pair multiset records.
    pub fn new_random_deck() -> (r: Vec<Card>)
        ensures
            r@.len() == 52,
            pairs_of(r@).to_multiset() == ordered_pairs().to_multiset(),
            forall|k: int| 0 <= k < 52 ==> (#[trigger] r@[k]).wf() && r@[k].visible,
    {
        let mut deck = Card::new_deck();
        let ghost built = deck@;
        rng::shuffle_cards(&mut deck);
        proof {
            broadcast use group_to_multiset_ensures;

            lemma_map_preserves_multiset(deck@, built, |c: Card| card_pair(c));
            assert(pairs_of(built) =~= ordered_pairs());
            assert forall|k: int| 0 <= k < 52 implies (#[trigger] deck@[k]).wf()
                && deck@[k].visible by {
                assert(deck@.contains(deck@[k]));
                assert(deck@.to_multiset().count(deck@[k]) > 0);
                assert(built.to_multiset().count(deck@[k]) > 0);
                assert(built.contains(deck@[k]));
                let i = choose|i: int| 0 <= i < built.len() && built[i] == deck@[k];
                assert(built[i].wf() && built[i].visible);
            }
        }
        deck
    }

    /// Builds a shuffled deck re-expressed in the blackjack encoding: every
    /// rank identifier is shifted up by two, so each dealt ace starts out
    /// counted as eleven until its owner resolves it.
    pub fn new_deck_blackjack() -> (r: Vec<Card>)
        ensures
            r@.len() == 52,
            pairs_of(r@).to_multiset() == ordered_blackjack_pairs().to_multiset(),
            forall|k: int| 0 <= k < 52 ==> (#[trigger] r@[k]).wf_blackjack() && r@[k].visible,
    {
        let deck = Card::new_random_deck();
        let ghost shuffled = deck@;
        let mut out: Vec<Card> = Vec::new();
        let mut i: usize = 0;
        while i < deck.len()
            invariant
                deck@ == shuffled,
                shuffled.len() == 52,
                forall|k: int| 0 <= k < 52 ==> (#[trigger] shuffled[k]).wf() && shuffled[k].visible,
                0 <= i <= 52,
                out@.len() == i,
                forall|k: int|
                    0 <= k < i ==> (#[trigger] out@[k]).wf_blackjack() && out@[k].visible,
                forall|k: int|
                    0 <= k < i ==> (#[trigger] card_pair(out@[k])) == bump_pair(
                        card_pair(shuffled[k]),
                    ),
            decreases deck@.len() - i,
        {
            let mut card = deck[i].copy();
            card.value_id = card.value_id + 2;
            match card.refresh_blackjack() {
                Ok(()) => {},
                Err(_) => {
                    return vstd::pervasive::unreached();
                },
            }
            out.push(card);
            i = i + 1;
        }
        proof {
            assert(pairs_of(out@) =~= pairs_of(shuffled).map_values(|p: (i32, i32)| bump_pair(p)));
            lemma_map_preserves_multiset(
                pairs_of(shuffled),
                ordered_pairs(),
                |p: (i32, i32)| bump_pair(p),
            );
            assert(ordered_pairs().map_values(|p: (i32, i32)| bump_pair(p))
                =~= ordered_blackjack_pairs());
        }
        out
    }
}

/// Shifts a standard rank identifier pair into the blackjack encoding.
pub open spec fn bump_pair(p: (i32, i32)) -> (i32, i32) {
    (p.0, (p.1 + 2) as i32)
}

/// Law: a full deck, ordered or shuffled, holds exactly 52 cards, and each of
/// the four-by-thirteen (suit, rank) pairs appears exactly once.
pub proof fn lemma_full_deck_each_pair_once(deck: Seq<Card>)
    requires
        pairs_of(deck).to_multiset() == ordered_pairs().to_multiset(),
    ensures
        deck.len() == 52,
        forall|s: i32, v: i32|
            0 <= s < 4 && 0 <= v < 13 ==> #[trigger] pairs_of(deck).to_multiset().count((s, v))
                == 1,
{
    broadcast use group_to_multiset_ensures;

    assert(pairs_of(deck).len() == deck.len());
    assert(ordered_pairs().len() == 52);
    assert(pairs_of(deck).to_multiset().len() == pairs_of(deck).len());
    assert(ordered_pairs().to_multiset().len() == ordered_pairs().len());
    assert(deck.len() == 52);
    assert(ordered_pairs().no_duplicates()) by {
        assert forall|i: int, j: int| 0 <= i < j < 52 implies ordered_pairs()[i]
            != ordered_pairs()[j] by {
            vstd::arithmetic::div_mod::lemma_fundamental_div_mod(i, 13);
            vstd::arithmetic::div_mod::lemma_fundamental_div_mod(j, 13);
        }
    }
    ordered_pairs().lemma_multiset_has_no_duplicates();
    assert forall|s: i32, v: i32| 0 <= s < 4 && 0 <= v < 13 implies #[trigger] pairs_of(
        deck,
    ).to_multiset().count((s, v)) == 1 by {
        let k = s * 13 + v;
        assert(0 <= k < 52);
        vstd::arithmetic::div_mod::lemma_fundamental_div_mod(k as int, 13);
        vstd::arithmetic::div_mod::lemma_mod_bound(k as int, 13);
        assert(k as int / 13 == s as int && k as int % 13 == v as int) by (nonlinear_arith)
            requires
                k == s * 13 + v,
                0 <= s < 4,
                0 <= v < 13,
                k as int == 13 * (k as int / 13) + k as int % 13,
                0 <= k as int % 13 < 13,
        ;
        assert(ordered_pairs()[k as int] == (s, v));
        assert(ordered_pairs().contains((s, v)));
        assert(ordered_pairs().to_multiset().count((s, v)) == 1);
    }
}

/// The identifier pair of the card at position `k` of a deck.
pub open spec fn r_pair(deck: Seq<Card>, k: int) -> (int, int) {
    (deck[k].suit_id as int, deck[k].value_id as int)
}

} // verus!
