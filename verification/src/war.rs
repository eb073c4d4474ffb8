use vstd::prelude::*;

use crate::card::{card_pair, ordered_pairs, pairs_of, Card};
use crate::player::{
    lemma_player_index_first,
    lemma_player_index_none,
    lemma_sum_push,
    spec_player_index,
    sum_hand_sizes,
    Player,
    PlayerCard,
};
use vstd::assert_multisets_equal;
use vstd::seq_lib::group_to_multiset_ensures;

verus! {

/// A game of War: the players still holding cards. The game is over when a
/// single player remains, holding the whole deck.
pub struct War {
    pub players: Vec<Player>,
}

/// Every card of the hand is well formed in the standard encoding.
pub open spec fn war_hand_wf(hand: Seq<Card>) -> bool {
    forall|k: int| 0 <= k < hand.len() ==> (#[trigger] hand[k]).wf()
}

/// The highest rank identifier among a nonempty collection of drawn cards.
pub open spec fn max_stake_value(draws: Seq<PlayerCard>) -> int
    decreases draws.len(),
{
    if draws.len() == 0 {
        -1
    } else {
        let rest = max_stake_value(draws.drop_first());
        if draws[0].card.value_id >= rest {
            draws[0].card.value_id as int
        } else {
            rest
        }
    }
}

/// The identifiers of the players whose drawn card carries rank `v`, in draw
/// order.
pub open spec fn ids_with_value(draws: Seq<PlayerCard>, v: int) -> Seq<i32>
    decreases draws.len(),
{
    if draws.len() == 0 {
        Seq::empty()
    } else {
        let rest = ids_with_value(draws.drop_first(), v);
        if draws[0].card.value_id == v {
            seq![draws[0].player_id] + rest
        } else {
            rest
        }
    }
}

/// Some drawn card reaches the maximum rank.
pub proof fn lemma_max_stake_achieved(draws: Seq<PlayerCard>)
    requires
        draws.len() > 0,
        forall|j: int| 0 <= j < draws.len() ==> (#[trigger] draws[j]).card.value_id >= 0,
    ensures
        exists|j: int|
            0 <= j < draws.len() && (#[trigger] draws[j]).card.value_id == max_stake_value(draws),
    decreases draws.len(),
{
    if draws.len() == 1 {
        assert(draws.drop_first().len() == 0);
        assert(max_stake_value(draws.drop_first()) == -1);
        assert(draws[0].card.value_id == max_stake_value(draws));
    } else {
        assert forall|j: int|
            0 <= j < draws.drop_first().len() implies (#[trigger] draws.drop_first(
        )[j]).card.value_id >= 0 by {
            assert(draws.drop_first()[j] == draws[j + 1]);
        }
        lemma_max_stake_achieved(draws.drop_first());
        let j = choose|j: int|
            0 <= j < draws.drop_first().len() && (#[trigger] draws.drop_first()[j]).card.value_id
                == max_stake_value(draws.drop_first());
        if draws[0].card.value_id >= max_stake_value(draws.drop_first()) {
            assert(draws[0].card.value_id == max_stake_value(draws));
        } else {
            assert(draws.drop_first()[j] == draws[j + 1]);
            assert(draws[j + 1].card.value_id == max_stake_value(draws));
        }
    }
}

/// Every identifier kept by the rank filter belongs to a drawn card of that
/// rank.
pub proof fn lemma_ids_with_value_member(draws: Seq<PlayerCard>, v: int, k: int)
    requires
        0 <= k < ids_with_value(draws, v).len(),
    ensures
        exists|j: int|
            0 <= j < draws.len() && (#[trigger] draws[j]).player_id == ids_with_value(draws, v)[k]
                && draws[j].card.value_id == v,
    decreases draws.len(),
{
    let rest = ids_with_value(draws.drop_first(), v);
    if draws[0].card.value_id == v && k == 0 {
        assert(ids_with_value(draws, v)[0] == draws[0].player_id);
    } else {
        let k2 = if draws[0].card.value_id == v {
            k - 1
        } else {
            k
        };
        lemma_ids_with_value_member(draws.drop_first(), v, k2);
        let j = choose|j: int|
            0 <= j < draws.drop_first().len() && (#[trigger] draws.drop_first()[j]).player_id
                == rest[k2] && draws.drop_first()[j].card.value_id == v;
        assert(draws.drop_first()[j] == draws[j + 1]);
        if draws[0].card.value_id == v {
            assert(ids_with_value(draws, v)[k] == rest[k - 1]);
        }
    }
}

/// With pairwise distinct drawing players, the rank filter keeps an
/// identifier exactly when that player's drawn card carries rank `v`, and
/// keeps it once.
pub proof fn lemma_ids_with_value_exact(draws: Seq<PlayerCard>, v: int, j: int)
    requires
        0 <= j < draws.len(),
        forall|a: int, b: int|
            0 <= a < b < draws.len() ==> (#[trigger] draws[a]).player_id != (
            #[trigger] draws[b]).player_id,
    ensures
        ids_with_value(draws, v).contains(draws[j].player_id) <==> draws[j].card.value_id == v,
    decreases draws.len(),
{
    let rest = ids_with_value(draws.drop_first(), v);
    assert forall|a: int, b: int|
        0 <= a < b < draws.drop_first().len() implies (#[trigger] draws.drop_first()[a]).player_id
        != (#[trigger] draws.drop_first()[b]).player_id by {
        assert(draws.drop_first()[a] == draws[a + 1]);
        assert(draws.drop_first()[b] == draws[b + 1]);
    }
    if j == 0 {
        if draws[0].card.value_id == v {
            assert((seq![draws[0].player_id] + rest)[0] == draws[0].player_id);
        } else {
            if rest.contains(draws[0].player_id) {
                let k = choose|k: int| 0 <= k < rest.len() && rest[k] == draws[0].player_id;
                lemma_ids_with_value_member(draws.drop_first(), v, k);
                let w = choose|w: int|
                    0 <= w < draws.drop_first().len() && (#[trigger] draws.drop_first(
                    )[w]).player_id == rest[k] && draws.drop_first()[w].card.value_id == v;
                assert(draws.drop_first()[w] == draws[w + 1]);
                assert(false);
            }
        }
    } else {
        lemma_ids_with_value_exact(draws.drop_first(), v, j - 1);
        assert(draws.drop_first()[j - 1] == draws[j]);
        if draws[0].card.value_id == v {
            let all = seq![draws[0].player_id] + rest;
            if draws[j].card.value_id == v {
                let k = choose|k: int| 0 <= k < rest.len() && rest[k] == draws[j].player_id;
                assert(all[k + 1] == draws[j].player_id);
            } else {
                if all.contains(draws[j].player_id) {
                    let k = choose|k: int| 0 <= k < all.len() && all[k] == draws[j].player_id;
                    if k == 0 {
                        assert(draws[0].player_id == draws[j].player_id);
                        assert(false);
                    } else {
                        assert(rest[k - 1] == draws[j].player_id);
                        assert(false);
                    }
                }
            }
        } else {
            if draws[j].card.value_id == v {
                let k = choose|k: int| 0 <= k < rest.len() && rest[k] == draws[j].player_id;
                assert(ids_with_value(draws, v)[k] == rest[k]);
            }
        }
    }
}

/// The rank filter never repeats an identifier when the drawing players are
/// pairwise distinct.
pub proof fn lemma_ids_with_value_distinct(draws: Seq<PlayerCard>, v: int)
    requires
        forall|a: int, b: int|
            0 <= a < b < draws.len() ==> (#[trigger] draws[a]).player_id != (
            #[trigger] draws[b]).player_id,
    ensures
        forall|a: int, b: int|
            0 <= a < b < ids_with_value(draws, v).len() ==> ids_with_value(draws, v)[a]
                != ids_with_value(draws, v)[b],
    decreases draws.len(),
{
    if draws.len() > 0 {
        let rest = ids_with_value(draws.drop_first(), v);
        assert forall|a: int, b: int|
            0 <= a < b < draws.drop_first().len() implies (#[trigger] draws.drop_first(
        )[a]).player_id != (#[trigger] draws.drop_first()[b]).player_id by {
            assert(draws.drop_first()[a] == draws[a + 1]);
            assert(draws.drop_first()[b] == draws[b + 1]);
        }
        lemma_ids_with_value_distinct(draws.drop_first(), v);
        if draws[0].card.value_id == v {
            let all = seq![draws[0].player_id] + rest;
            assert forall|a: int, b: int|
                0 <= a < b < all.len() implies all[a] != all[b] by {
                if a == 0 {
                    assert(all[b] == rest[b - 1]);
                    lemma_ids_with_value_member(draws.drop_first(), v, b - 1);
                    let w = choose|w: int|
                        0 <= w < draws.drop_first().len() && (#[trigger] draws.drop_first(
                        )[w]).player_id == rest[b - 1] && draws.drop_first()[w].card.value_id == v;
                    assert(draws.drop_first()[w] == draws[w + 1]);
                } else {
                    assert(all[a] == rest[a - 1] && all[b] == rest[b - 1]);
                }
            }
        }
    }
}

/// Whether a drawn-card identifier occurs in the list.
pub fn contains_id(ids: &Vec<i32>, id: i32) -> (r: bool)
    ensures
        r <==> ids@.contains(id),
{
    let mut k: usize = 0;
    while k < ids.len()
        invariant
            k <= ids@.len(),
            forall|j: int| 0 <= j < k ==> ids@[j] != id,
        decreases ids@.len() - k,
    {
        if ids[k] == id {
            return true;
        }
        k = k + 1;
    }
    false
}

/// The identifiers of the players whose drawn cards tie for the highest rank.
pub fn highest_ids(draws: &Vec<PlayerCard>) -> (r: Vec<i32>)
    requires
        draws@.len() > 0,
        forall|j: int| 0 <= j < draws@.len() ==> (#[trigger] draws@[j]).card.value_id >= 0,
    ensures
        r@ == ids_with_value(draws@, max_stake_value(draws@)),
        r@.len() > 0,
{
    let all = draws;
    let ghost dv = draws@;
    let mut m: i32 = draws[0].card.value_id;
    proof {
        assert(dv.take(0int) =~= Seq::<PlayerCard>::empty());
        assert(dv.take(1int).drop_first() =~= Seq::<PlayerCard>::empty());
        assert(dv.take(1int)[0] == dv[0]);
        assert(max_stake_value(Seq::<PlayerCard>::empty()) == -1);
        assert(m == max_stake_value(dv.take(1int)));
    }
    let mut k: usize = 1;
    while k < draws.len()
        invariant
            dv == draws@,
            1 <= k <= dv.len(),
            m == max_stake_value(dv.take(k as int)),
        decreases dv.len() - k,
    {
        proof {
            lemma_max_stake_take_succ(dv, k as int);
        }
        if draws[k].card.value_id > m {
            m = draws[k].card.value_id;
        }
        k = k + 1;
    }
    proof {
        assert(dv.take(dv.len() as int) =~= dv);
    }
    let mut r: Vec<i32> = Vec::new();
    let mut j: usize = 0;
    while j < draws.len()
        invariant
            dv == draws@,
            j <= dv.len(),
            m == max_stake_value(dv),
            ids_with_value(dv, m as int) == r@ + ids_with_value(dv.skip(j as int), m as int),
        decreases dv.len() - j,
    {
        let ghost rbefore = r@;
        let ghost tail = dv.skip(j as int);
        proof {
            assert(tail[0] == dv[j as int]);
            assert(tail.drop_first() =~= dv.skip(j as int + 1));
        }
        if draws[j].card.value_id == m {
            r.push(draws[j].player_id);
            proof {
                assert(rbefore + ids_with_value(tail, m as int) =~= r@ + ids_with_value(
                    dv.skip(j as int + 1),
                    m as int,
                ));
            }
        }
        j = j + 1;
    }
    proof {
        assert(dv.skip(dv.len() as int) =~= Seq::<PlayerCard>::empty());
        assert(ids_with_value(dv, m as int) =~= r@);
        lemma_max_stake_achieved(dv);
        let w = choose|w: int|
            0 <= w < dv.len() && (#[trigger] dv[w]).card.value_id == max_stake_value(dv);
        assert(ids_with_value(dv, m as int).len() > 0) by {
            lemma_ids_with_value_keeps(dv, m as int, w);
        }
    }
    r
}

/// The maximum over one more drawn card of the prefix.
pub proof fn lemma_max_stake_take_succ(draws: Seq<PlayerCard>, k: int)
    requires
        0 <= k < draws.len(),
    ensures
        max_stake_value(draws.take(k + 1)) == if draws[k].card.value_id >= max_stake_value(
            draws.take(k),
        ) {
            draws[k].card.value_id as int
        } else {
            max_stake_value(draws.take(k))
        },
{
    lemma_max_stake_push(draws.take(k), draws[k]);
    assert(draws.take(k + 1) =~= draws.take(k).push(draws[k]));
}

/// Appending a drawn card extends the maximum by its rank.
pub proof fn lemma_max_stake_push(draws: Seq<PlayerCard>, pc: PlayerCard)
    ensures
        max_stake_value(draws.push(pc)) == if pc.card.value_id >= max_stake_value(draws) {
            pc.card.value_id as int
        } else {
            max_stake_value(draws)
        },
    decreases draws.len(),
{
    if draws.len() == 0 {
        assert(draws.push(pc).drop_first() =~= draws);
    } else {
        assert(draws.push(pc).drop_first() =~= draws.drop_first().push(pc));
        assert(draws.push(pc)[0] == draws[0]);
        lemma_max_stake_push(draws.drop_first(), pc);
    }
}

/// A drawn card of rank `v` puts its player's identifier into the filter.
pub proof fn lemma_ids_with_value_keeps(draws: Seq<PlayerCard>, v: int, j: int)
    requires
        0 <= j < draws.len(),
        draws[j].card.value_id == v,
    ensures
        ids_with_value(draws, v).len() > 0,
    decreases draws.len(),
{
    if j > 0 {
        lemma_ids_with_value_keeps(draws.drop_first(), v, j - 1);
        assert(draws.drop_first()[j - 1] == draws[j]);
    }
}

/// The cards a simultaneous draw would take: the front card of every
/// nonempty hand, in seating order, tagged with its owner.
pub open spec fn fronts(players: Seq<Player>) -> Seq<PlayerCard>
    decreases players.len(),
{
    if players.len() == 0 {
        Seq::empty()
    } else {
        let rest = fronts(players.drop_first());
        if players[0].deck@.len() > 0 {
            seq![(PlayerCard { card: players[0].deck@[0], player_id: players[0].id })] + rest
        } else {
            rest
        }
    }
}

/// The player set `after` is `before` with every empty-handed player removed
/// and every remaining player's front card drawn.
pub open spec fn drew_from(before: Seq<Player>, after: Seq<Player>) -> bool
    decreases before.len(),
{
    if before.len() == 0 {
        after.len() == 0
    } else if before[0].deck@.len() > 0 {
        &&& after.len() > 0
        &&& after[0].id == before[0].id
        &&& after[0].name == before[0].name
        &&& after[0].deck@ == before[0].deck@.drop_first()
        &&& drew_from(before.drop_first(), after.drop_first())
    } else {
        drew_from(before.drop_first(), after)
    }
}

/// The round went to the player at position `w`: every other surviving
/// player holds strictly fewer cards than before the round's draw.
pub open spec fn round_went_to(before: Seq<Player>, after: Seq<Player>, w: int) -> bool {
    forall|k: int|
        0 <= k < after.len() && k != w ==> (#[trigger] after[k]).deck@.len() < still_dealt(
            before,
        )[k].deck@.len()
}

/// `s` is the tail end of `t`: what remains of a hand that has only lost
/// cards from the front.
pub open spec fn is_suffix_of(s: Seq<Card>, t: Seq<Card>) -> bool {
    &&& s.len() <= t.len()
    &&& s == t.skip(t.len() - s.len())
}

/// How the round reshapes the hands around the winner at position `w`:
/// every other survivor keeps a tail end of its post-draw hand (cards leave
/// only from the front, into the pot), and the winner's hand opens with a
/// tail end of its own post-draw hand, followed by the collected pot — which
/// the round's card conservation pins to exactly the cards the other hands
/// gave up plus the winner's own stakes.
pub open spec fn round_hands(before: Seq<Player>, after: Seq<Player>, w: int) -> bool {
    let sd = still_dealt(before);
    &&& forall|k: int|
        0 <= k < after.len() && k != w ==> is_suffix_of(
            (#[trigger] after[k]).deck@,
            sd[k].deck@.drop_first(),
        )
    &&& exists|m: int|
        0 <= m <= after[w].deck@.len() && is_suffix_of(
            #[trigger] after[w].deck@.take(m),
            sd[w].deck@.drop_first(),
        )
}

/// The players who can still draw: those with a nonempty hand, in seating
/// order.
pub open spec fn still_dealt(players: Seq<Player>) -> Seq<Player>
    decreases players.len(),
{
    if players.len() == 0 {
        Seq::empty()
    } else {
        let rest = still_dealt(players.drop_first());
        if players[0].deck@.len() > 0 {
            seq![players[0]] + rest
        } else {
            rest
        }
    }
}

/// A draw keeps exactly the players who could still draw, each minus the
/// front card.
pub proof fn lemma_drew_from_still_dealt(before: Seq<Player>, after: Seq<Player>)
    requires
        drew_from(before, after),
    ensures
        after.len() == still_dealt(before).len(),
        forall|k: int|
            0 <= k < after.len() ==> (#[trigger] after[k]).id == still_dealt(before)[k].id
                && after[k].name == still_dealt(before)[k].name && after[k].deck@ == still_dealt(
                before,
            )[k].deck@.drop_first() && still_dealt(before)[k].deck@.len() > 0,
    decreases before.len(),
{
    if before.len() == 0 {
    } else if before[0].deck@.len() > 0 {
        lemma_drew_from_still_dealt(before.drop_first(), after.drop_first());
        let sd = still_dealt(before);
        assert(sd == seq![before[0]] + still_dealt(before.drop_first()));
        assert forall|k: int| 0 <= k < after.len() implies (#[trigger] after[k]).id == sd[k].id
            && after[k].name == sd[k].name && after[k].deck@ == sd[k].deck@.drop_first()
            && sd[k].deck@.len() > 0 by {
            if k == 0 {
                assert(sd[0] == before[0]);
            } else {
                assert(sd[k] == still_dealt(before.drop_first())[k - 1]);
                assert(after.drop_first()[k - 1] == after[k]);
            }
        }
    } else {
        lemma_drew_from_still_dealt(before.drop_first(), after);
    }
}

/// Appending a player appends that player's front card, when there is one.
pub proof fn lemma_fronts_push(players: Seq<Player>, p: Player)
    ensures
        fronts(players.push(p)) == if p.deck@.len() > 0 {
            fronts(players).push(PlayerCard { card: p.deck@[0], player_id: p.id })
        } else {
            fronts(players)
        },
    decreases players.len(),
{
    if players.len() == 0 {
        assert(players.push(p).drop_first() =~= players);
        if p.deck@.len() > 0 {
            assert(seq![(PlayerCard { card: p.deck@[0], player_id: p.id })] + fronts(players)
                =~= fronts(players).push(PlayerCard { card: p.deck@[0], player_id: p.id }));
        }
    } else {
        assert(players.push(p).drop_first() =~= players.drop_first().push(p));
        assert(players.push(p)[0] == players[0]);
        lemma_fronts_push(players.drop_first(), p);
        if players[0].deck@.len() > 0 && p.deck@.len() > 0 {
            let head = seq![
                (PlayerCard { card: players[0].deck@[0], player_id: players[0].id }),
            ];
            let pc = PlayerCard { card: p.deck@[0], player_id: p.id };
            assert(head + fronts(players.drop_first()).push(pc) =~= (head + fronts(
                players.drop_first(),
            )).push(pc));
        }
    }
}

/// Extends a draw relation by one player who still holds cards.
pub proof fn lemma_drew_from_push_nonempty(
    before: Seq<Player>,
    after: Seq<Player>,
    p: Player,
    q: Player,
)
    requires
        drew_from(before, after),
        p.deck@.len() > 0,
        q.id == p.id,
        q.name == p.name,
        q.deck@ == p.deck@.drop_first(),
    ensures
        drew_from(before.push(p), after.push(q)),
    decreases before.len(),
{
    if before.len() == 0 {
        assert(before.push(p)[0] == p);
        assert(before.push(p).drop_first() =~= before);
        assert(after.push(q)[0] == q);
        assert(after.push(q).drop_first() =~= after);
    } else {
        assert(before.push(p)[0] == before[0]);
        assert(before.push(p).drop_first() =~= before.drop_first().push(p));
        if before[0].deck@.len() > 0 {
            assert(after.push(q)[0] == after[0]);
            assert(after.push(q).drop_first() =~= after.drop_first().push(q));
            lemma_drew_from_push_nonempty(before.drop_first(), after.drop_first(), p, q);
        } else {
            lemma_drew_from_push_nonempty(before.drop_first(), after, p, q);
        }
    }
}

/// Extends a draw relation by one player whose hand is empty.
pub proof fn lemma_drew_from_push_empty(before: Seq<Player>, after: Seq<Player>, p: Player)
    requires
        drew_from(before, after),
        p.deck@.len() == 0,
    ensures
        drew_from(before.push(p), after),
    decreases before.len(),
{
    if before.len() == 0 {
        assert(before.push(p)[0] == p);
        assert(before.push(p).drop_first() =~= before);
    } else {
        assert(before.push(p)[0] == before[0]);
        assert(before.push(p).drop_first() =~= before.drop_first().push(p));
        if before[0].deck@.len() > 0 {
            lemma_drew_from_push_empty(before.drop_first(), after.drop_first(), p);
        } else {
            lemma_drew_from_push_empty(before.drop_first(), after, p);
        }
    }
}

/// What a completed draw guarantees: one card per surviving player, matching
/// identifiers in order, each survivor a previously seated player with its
/// front card gone, and the card count conserved.
pub proof fn lemma_drew_from_props(before: Seq<Player>, after: Seq<Player>)
    requires
        drew_from(before, after),
    ensures
        after.len() == fronts(before).len(),
        sum_hand_sizes(after) + fronts(before).len() == sum_hand_sizes(before),
        forall|k: int| 0 <= k < after.len() ==> (#[trigger] fronts(before)[k]).player_id
            == after[k].id,
        forall|k: int|
            0 <= k < after.len() ==> exists|i: int|
                0 <= i < before.len() && (#[trigger] after[k]).id == before[i].id && after[k].name
                    == before[i].name && before[i].deck@.len() > 0 && after[k].deck@ == before[i].deck@.drop_first(),
    decreases before.len(),
{
    if before.len() == 0 {
    } else if before[0].deck@.len() > 0 {
        lemma_drew_from_props(before.drop_first(), after.drop_first());
        assert(fronts(before) == seq![
            (PlayerCard { card: before[0].deck@[0], player_id: before[0].id }),
        ] + fronts(before.drop_first()));
        assert forall|k: int| 0 <= k < after.len() implies (#[trigger] fronts(before)[k]).player_id
            == after[k].id by {
            if k == 0 {
                assert(fronts(before)[0].player_id == before[0].id);
            } else {
                assert(fronts(before)[k] == fronts(before.drop_first())[k - 1]);
                assert(after.drop_first()[k - 1] == after[k]);
            }
        }
        assert forall|k: int| 0 <= k < after.len() implies exists|i: int|
            0 <= i < before.len() && (#[trigger] after[k]).id == before[i].id && after[k].name
                == before[i].name && before[i].deck@.len() > 0 && after[k].deck@
                == before[i].deck@.drop_first() by {
            if k == 0 {
                assert(after[0].id == before[0].id && after[0].name == before[0].name
                    && before[0].deck@.len() > 0 && after[0].deck@ == before[0].deck@.drop_first());
            } else {
                assert(after.drop_first()[k - 1] == after[k]);
                let i = choose|i: int|
                    0 <= i < before.drop_first().len() && (#[trigger] after.drop_first()[k
                        - 1]).id == before.drop_first()[i].id && after.drop_first()[k - 1].name
                        == before.drop_first()[i].name && before.drop_first()[i].deck@.len() > 0
                        && after.drop_first()[k - 1].deck@ == before.drop_first(
                    )[i].deck@.drop_first();
                assert(before.drop_first()[i] == before[i + 1]);
            }
        }
    } else {
        lemma_drew_from_props(before.drop_first(), after);
        assert forall|k: int| 0 <= k < after.len() implies exists|i: int|
            0 <= i < before.len() && (#[trigger] after[k]).id == before[i].id && after[k].name
                == before[i].name && before[i].deck@.len() > 0 && after[k].deck@
                == before[i].deck@.drop_first() by {
            let i = choose|i: int|
                0 <= i < before.drop_first().len() && (#[trigger] after[k]).id
                    == before.drop_first()[i].id && after[k].name == before.drop_first()[i].name
                    && before.drop_first()[i].deck@.len() > 0 && after[k].deck@
                    == before.drop_first()[i].deck@.drop_first();
            assert(before.drop_first()[i] == before[i + 1]);
        }
    }
}

/// A draw never seats two players with one identifier.
pub proof fn lemma_drew_from_distinct(before: Seq<Player>, after: Seq<Player>)
    requires
        drew_from(before, after),
        forall|a: int, b: int|
            0 <= a < b < before.len() ==> (#[trigger] before[a]).id != (#[trigger] before[b]).id,
    ensures
        forall|a: int, b: int|
            0 <= a < b < after.len() ==> (#[trigger] after[a]).id != (#[trigger] after[b]).id,
    decreases before.len(),
{
    if before.len() == 0 {
    } else {
        assert forall|a: int, b: int|
            0 <= a < b < before.drop_first().len() implies (#[trigger] before.drop_first()[a]).id
            != (#[trigger] before.drop_first()[b]).id by {
            assert(before.drop_first()[a] == before[a + 1]);
            assert(before.drop_first()[b] == before[b + 1]);
        }
        if before[0].deck@.len() > 0 {
            lemma_drew_from_distinct(before.drop_first(), after.drop_first());
            assert forall|a: int, b: int|
                0 <= a < b < after.len() implies (#[trigger] after[a]).id != (
            #[trigger] after[b]).id by {
                if a == 0 {
                    assert(after[b] == after.drop_first()[b - 1]);
                    lemma_drew_from_props(before.drop_first(), after.drop_first());
                    let i = choose|i: int|
                        0 <= i < before.drop_first().len() && (#[trigger] after.drop_first()[b
                            - 1]).id == before.drop_first()[i].id && after.drop_first()[b
                            - 1].name == before.drop_first()[i].name && before.drop_first(
                        )[i].deck@.len() > 0 && after.drop_first()[b - 1].deck@
                            == before.drop_first()[i].deck@.drop_first();
                    assert(before.drop_first()[i] == before[i + 1]);
                    assert(after[b].id == before[i + 1].id);
                    assert(before[0].id != before[i + 1].id);
                } else {
                    assert(after[a] == after.drop_first()[a - 1]);
                    assert(after[b] == after.drop_first()[b - 1]);
                }
            }
        } else {
            lemma_drew_from_distinct(before.drop_first(), after);
        }
    }
}

/// Every card on the floor is well formed in the standard encoding.
pub open spec fn war_floor_wf(floor: Seq<PlayerCard>) -> bool {
    forall|k: int| 0 <= k < floor.len() ==> (#[trigger] floor[k]).card.wf()
}

/// Whether some floor card was contributed by the given player.
pub open spec fn has_floor_card(floor: Seq<PlayerCard>, id: i32) -> bool {
    exists|k: int| 0 <= k < floor.len() && (#[trigger] floor[k]).player_id == id
}

/// The floor card the given player contributed last.
pub open spec fn last_floor_card(floor: Seq<PlayerCard>, id: i32) -> PlayerCard
    decreases floor.len(),
{
    if floor.len() == 0 {
        vstd::pervasive::arbitrary()
    } else if floor.last().player_id == id {
        floor.last()
    } else {
        last_floor_card(floor.drop_last(), id)
    }
}

/// How many cards a tied player moves out of hand in one war round: four
/// when the hand allows it, the single front card when any remain, nothing
/// when the hand is already empty.
pub open spec fn staked_take(p: Player) -> int {
    if p.deck@.len() >= 4 {
        4
    } else if p.deck@.len() >= 1 {
        1
    } else {
        0
    }
}

/// The comparison card a tied player stakes: with four or more cards in
/// hand, the fourth; with fewer but at least one, the front card; with none,
/// the player's most recent contribution to the floor resurfaces.
pub open spec fn staked_card(p: Player, floor: Seq<PlayerCard>) -> Card {
    if p.deck@.len() >= 4 {
        p.deck@[3]
    } else if p.deck@.len() >= 1 {
        p.deck@[0]
    } else {
        last_floor_card(floor, p.id).card
    }
}

/// The comparison cards the tied players stake, in seating order.
pub open spec fn stakes_of(players: Seq<Player>, winners: Seq<i32>, floor: Seq<PlayerCard>) -> Seq<
    PlayerCard,
>
    decreases players.len(),
{
    if players.len() == 0 {
        Seq::empty()
    } else {
        let rest = stakes_of(players.drop_first(), winners, floor);
        if winners.contains(players[0].id) {
            seq![
                (PlayerCard { card: staked_card(players[0], floor), player_id: players[0].id }),
            ] + rest
        } else {
            rest
        }
    }
}

/// Appending a player appends that player's stake, when the player is tied.
pub proof fn lemma_stakes_of_push(
    players: Seq<Player>,
    p: Player,
    winners: Seq<i32>,
    floor: Seq<PlayerCard>,
)
    ensures
        stakes_of(players.push(p), winners, floor) == if winners.contains(p.id) {
            stakes_of(players, winners, floor).push(
                PlayerCard { card: staked_card(p, floor), player_id: p.id },
            )
        } else {
            stakes_of(players, winners, floor)
        },
    decreases players.len(),
{
    if players.len() == 0 {
        assert(players.push(p).drop_first() =~= players);
        if winners.contains(p.id) {
            assert(seq![(PlayerCard { card: staked_card(p, floor), player_id: p.id })]
                + stakes_of(players, winners, floor) =~= stakes_of(players, winners, floor).push(
                PlayerCard { card: staked_card(p, floor), player_id: p.id },
            ));
        }
    } else {
        assert(players.push(p).drop_first() =~= players.drop_first().push(p));
        assert(players.push(p)[0] == players[0]);
        lemma_stakes_of_push(players.drop_first(), p, winners, floor);
        if winners.contains(players[0].id) && winners.contains(p.id) {
            let head = seq![
                (PlayerCard { card: staked_card(players[0], floor), player_id: players[0].id }),
            ];
            let pc = PlayerCard { card: staked_card(p, floor), player_id: p.id };
            assert(head + stakes_of(players.drop_first(), winners, floor).push(pc) =~= (head
                + stakes_of(players.drop_first(), winners, floor)).push(pc));
        }
    }
}

/// A tied, seated player guarantees at least one stake.
pub proof fn lemma_stakes_of_keeps(
    players: Seq<Player>,
    winners: Seq<i32>,
    floor: Seq<PlayerCard>,
    j: int,
)
    requires
        0 <= j < players.len(),
        winners.contains(players[j].id),
    ensures
        stakes_of(players, winners, floor).len() > 0,
    decreases players.len(),
{
    if j > 0 && !winners.contains(players[0].id) {
        assert(players.drop_first()[j - 1] == players[j]);
        lemma_stakes_of_keeps(players.drop_first(), winners, floor, j - 1);
    } else if j > 0 {
    } else {
    }
}

/// Each stake belongs to a seated tied player and carries that player's
/// staked card.
pub proof fn lemma_stakes_of_member(
    players: Seq<Player>,
    winners: Seq<i32>,
    floor: Seq<PlayerCard>,
    k: int,
)
    requires
        0 <= k < stakes_of(players, winners, floor).len(),
    ensures
        exists|j: int|
            0 <= j < players.len() && (#[trigger] players[j]).id == stakes_of(
                players,
                winners,
                floor,
            )[k].player_id && winners.contains(players[j].id) && stakes_of(
                players,
                winners,
                floor,
            )[k].card == staked_card(players[j], floor),
    decreases players.len(),
{
    let all = stakes_of(players, winners, floor);
    let rest = stakes_of(players.drop_first(), winners, floor);
    if winners.contains(players[0].id) && k == 0 {
        assert(all[0].player_id == players[0].id && all[0].card == staked_card(
            players[0],
            floor,
        ));
        assert(players[0] == players[0]);
    } else {
        let k2 = if winners.contains(players[0].id) {
            k - 1
        } else {
            k
        };
        assert(all[k] == rest[k2]);
        lemma_stakes_of_member(players.drop_first(), winners, floor, k2);
        let j = choose|j: int|
            0 <= j < players.drop_first().len() && (#[trigger] players.drop_first()[j]).id
                == rest[k2].player_id && winners.contains(players.drop_first()[j].id)
                && rest[k2].card == staked_card(players.drop_first()[j], floor);
        assert(players.drop_first()[j] == players[j + 1]);
    }
}

/// With pairwise distinct seated players, no two stakes share a player.
pub proof fn lemma_stakes_of_distinct(
    players: Seq<Player>,
    winners: Seq<i32>,
    floor: Seq<PlayerCard>,
)
    requires
        forall|a: int, b: int|
            0 <= a < b < players.len() ==> (#[trigger] players[a]).id != (
            #[trigger] players[b]).id,
    ensures
        forall|a: int, b: int|
            0 <= a < b < stakes_of(players, winners, floor).len() ==> (#[trigger] stakes_of(
                players,
                winners,
                floor,
            )[a]).player_id != (#[trigger] stakes_of(players, winners, floor)[b]).player_id,
    decreases players.len(),
{
    if players.len() > 0 {
        let all = stakes_of(players, winners, floor);
        let rest = stakes_of(players.drop_first(), winners, floor);
        assert forall|a: int, b: int|
            0 <= a < b < players.drop_first().len() implies (#[trigger] players.drop_first(
        )[a]).id != (#[trigger] players.drop_first()[b]).id by {
            assert(players.drop_first()[a] == players[a + 1]);
            assert(players.drop_first()[b] == players[b + 1]);
        }
        lemma_stakes_of_distinct(players.drop_first(), winners, floor);
        assert forall|a: int, b: int|
            0 <= a < b < all.len() implies (#[trigger] all[a]).player_id != (
        #[trigger] all[b]).player_id by {
            if winners.contains(players[0].id) {
                if a == 0 {
                    assert(all[b] == rest[b - 1]);
                    lemma_stakes_of_member(players.drop_first(), winners, floor, b - 1);
                    let j = choose|j: int|
                        0 <= j < players.drop_first().len() && (#[trigger] players.drop_first(
                        )[j]).id == rest[b - 1].player_id && winners.contains(
                            players.drop_first()[j].id,
                        ) && rest[b - 1].card == staked_card(players.drop_first()[j], floor);
                    assert(players.drop_first()[j] == players[j + 1]);
                    assert(all[b].player_id == players[j + 1].id);
                } else {
                    assert(all[a] == rest[a - 1] && all[b] == rest[b - 1]);
                }
            } else {
                assert(all[a] == rest[a] && all[b] == rest[b]);
            }
        }
    }
}

/// Appending a card of another player does not disturb whose contribution
/// resurfaces.
pub proof fn lemma_last_floor_push_other(floor: Seq<PlayerCard>, pc: PlayerCard, id: i32)
    requires
        pc.player_id != id,
    ensures
        last_floor_card(floor.push(pc), id) == last_floor_card(floor, id),
        has_floor_card(floor.push(pc), id) == has_floor_card(floor, id),
{
    assert(floor.push(pc).drop_last() =~= floor);
    assert(floor.push(pc).last() == pc);
    if has_floor_card(floor, id) {
        let k = choose|k: int| 0 <= k < floor.len() && (#[trigger] floor[k]).player_id == id;
        assert(floor.push(pc)[k].player_id == id);
    }
    if has_floor_card(floor.push(pc), id) {
        let k = choose|k: int|
            0 <= k < floor.push(pc).len() && (#[trigger] floor.push(pc)[k]).player_id == id;
        assert(k < floor.len());
        assert(floor[k].player_id == id);
    }
}

/// Removing a card of another player does not disturb whose contribution
/// resurfaces.
pub proof fn lemma_last_floor_remove_other(floor: Seq<PlayerCard>, i: int, id: i32)
    requires
        0 <= i < floor.len(),
        floor[i].player_id != id,
    ensures
        last_floor_card(floor.remove(i), id) == last_floor_card(floor, id),
        has_floor_card(floor.remove(i), id) == has_floor_card(floor, id),
    decreases floor.len(),
{
    if has_floor_card(floor, id) {
        let k = choose|k: int| 0 <= k < floor.len() && (#[trigger] floor[k]).player_id == id;
        if k < i {
            assert(floor.remove(i)[k].player_id == id);
        } else {
            assert(floor.remove(i)[k - 1].player_id == id);
        }
    }
    if has_floor_card(floor.remove(i), id) {
        let k = choose|k: int|
            0 <= k < floor.remove(i).len() && (#[trigger] floor.remove(i)[k]).player_id == id;
        if k < i {
            assert(floor[k].player_id == id);
        } else {
            assert(floor[k + 1].player_id == id);
        }
    }
    if i == floor.len() - 1 {
        assert(floor.remove(i) =~= floor.drop_last());
    } else {
        assert(floor.remove(i).last() == floor.last());
        assert(floor.remove(i).drop_last() =~= floor.drop_last().remove(i));
        if floor.last().player_id != id {
            lemma_last_floor_remove_other(floor.drop_last(), i, id);
        }
    }
}

/// The last position holding the player's identifier is where that player's
/// contribution resurfaces from.
pub proof fn lemma_last_floor_at(floor: Seq<PlayerCard>, i: int, id: i32)
    requires
        0 <= i < floor.len(),
        floor[i].player_id == id,
        forall|m: int| i < m < floor.len() ==> (#[trigger] floor[m]).player_id != id,
    ensures
        last_floor_card(floor, id) == floor[i],
        has_floor_card(floor, id),
    decreases floor.len(),
{
    if i == floor.len() - 1 {
    } else {
        assert(floor.last().player_id != id);
        assert forall|m: int| i < m < floor.drop_last().len() implies (#[trigger] floor.drop_last(
        )[m]).player_id != id by {
            assert(floor.drop_last()[m] == floor[m]);
        }
        lemma_last_floor_at(floor.drop_last(), i, id);
        assert(floor.drop_last()[i] == floor[i]);
    }
}

/// All cards the players hold, hand after hand, in seating order.
pub open spec fn all_cards(players: Seq<Player>) -> Seq<Card>
    decreases players.len(),
{
    if players.len() == 0 {
        Seq::empty()
    } else {
        players[0].deck@ + all_cards(players.drop_first())
    }
}

/// Appending a player appends that player's hand.
pub proof fn lemma_all_cards_push(players: Seq<Player>, p: Player)
    ensures
        all_cards(players.push(p)) == all_cards(players) + p.deck@,
    decreases players.len(),
{
    if players.len() == 0 {
        assert(players.push(p).drop_first() =~= players);
        assert(p.deck@ + all_cards(players) =~= all_cards(players) + p.deck@);
    } else {
        assert(players.push(p).drop_first() =~= players.drop_first().push(p));
        assert(players.push(p)[0] == players[0]);
        lemma_all_cards_push(players.drop_first(), p);
        assert(players[0].deck@ + (all_cards(players.drop_first()) + p.deck@) =~= (
        players[0].deck@ + all_cards(players.drop_first())) + p.deck@);
    }
}

impl War {
    /// The game is well formed when every card in play is a standard-encoding
    /// card and player identifiers are distinct.
    pub open spec fn wf(self) -> bool {
        &&& forall|i: int|
            0 <= i < self.players@.len() ==> war_hand_wf((#[trigger] self.players@[i]).deck@)
        &&& forall|i: int, j: int|
            0 <= i < j < self.players@.len() ==> (#[trigger] self.players@[i]).id != (
            #[trigger] self.players@[j]).id
    }

    /// Deals a fresh game of War: the full ordered deck is split across the
    /// named players at random, the first `52 mod n` players receiving one
    /// card more than the rest, so all 52 cards are in play.
    pub fn new(player_names: Vec<String>) -> (r: War)
        requires
            2 <= player_names@.len() <= 4,
        ensures
            r.wf(),
            r.players@.len() == player_names@.len(),
            forall|i: int|
                0 <= i < r.players@.len() ==> (#[trigger] r.players@[i]).id == i
                    && r.players@[i].name == player_names@[i] && r.players@[i].deck@.len() == 52int
                    / (player_names@.len() as int) + if i < 52int % (player_names@.len() as int) {
                    1int
                } else {
                    0int
                },
            sum_hand_sizes(r.players@) == 52,
            pairs_of(all_cards(r.players@)).to_multiset() == ordered_pairs().to_multiset(),
    {
        let mut deck = Card::new_deck();
        let ghost deck0 = deck@;
        let mut players: Vec<Player> = Vec::new();
        let n = player_names.len();
        let base: i32 = if n == 2 {
            26
        } else if n == 3 {
            17
        } else {
            13
        };
        let extra: i32 = if n == 3 {
            1
        } else {
            0
        };
        proof {
            assert(n == 2 || n == 3 || n == 4);
            crate::seqs::lemma_to_multiset_empty(all_cards(players@));
            broadcast use vstd::multiset::group_multiset_axioms;

            assert_multisets_equal!(
                all_cards(players@).to_multiset().add(deck@.to_multiset()),
                deck0.to_multiset()
            );
        }
        let mut i: usize = 0;
        while i < n
            invariant
                2 <= n <= 4,
                n == player_names@.len(),
                base == 52int / (n as int),
                extra == 52int % (n as int),
                52 == (n as int) * base + extra,
                0 <= extra < n,
                13 <= base <= 26,
                i <= n,
                players@.len() == i,
                deck@.len() == 52 - (base * i + if i <= extra {
                    i as int
                } else {
                    extra as int
                }),
                sum_hand_sizes(players@) == base * i + if i <= extra {
                    i as int
                } else {
                    extra as int
                },
                forall|k: int| 0 <= k < deck@.len() ==> (#[trigger] deck@[k]).wf(),
                all_cards(players@).to_multiset().add(deck@.to_multiset())
                    == deck0.to_multiset(),
                pairs_of(deck0) =~= ordered_pairs(),
                forall|j: int|
                    0 <= j < i ==> (#[trigger] players@[j]).id == j && players@[j].name
                        == player_names@[j] && war_hand_wf(players@[j].deck@)
                        && players@[j].deck@.len() == base + if j < extra {
                        1int
                    } else {
                        0int
                    },
            decreases n - i,
        {
            let count: i32 = base + if i < extra as usize {
                1
            } else {
                0
            };
            proof {
                assert(base * (i + 1) <= base * (n as int)) by (nonlinear_arith)
                    requires
                        0 <= base,
                        i + 1 <= n,
                ;
                assert(base * i + base == base * (i + 1)) by (nonlinear_arith);
            }
            let ghost deck_before = deck@;
            let player = match Player::new(player_names[i].clone(), i as i32, &mut deck, count) {
                Ok(p) => p,
                Err(_) => {
                    return vstd::pervasive::unreached();
                },
            };
            proof {
                broadcast use group_to_multiset_ensures;

                assert forall|c: Card| player.deck@.contains(c) implies c.wf() by {
                    assert(player.deck@.to_multiset().count(c) > 0);
                    assert(deck@.to_multiset().add(player.deck@.to_multiset()).count(c) > 0);
                    assert(deck_before.to_multiset().count(c) > 0);
                    assert(deck_before.contains(c));
                }
                assert forall|c: Card| deck@.contains(c) implies c.wf() by {
                    assert(deck@.to_multiset().count(c) > 0);
                    assert(deck@.to_multiset().add(player.deck@.to_multiset()).count(c) > 0);
                    assert(deck_before.to_multiset().count(c) > 0);
                    assert(deck_before.contains(c));
                }
                assert(war_hand_wf(player.deck@)) by {
                    assert forall|k: int|
                        0 <= k < player.deck@.len() implies (#[trigger] player.deck@[k]).wf() by {
                        assert(player.deck@.contains(player.deck@[k]));
                    }
                }
                lemma_sum_push(players@, player);
                lemma_all_cards_push(players@, player);
                vstd::seq_lib::lemma_multiset_commutative(all_cards(players@), player.deck@);
                broadcast use vstd::multiset::group_multiset_axioms;

                assert_multisets_equal!(
                    all_cards(players@.push(player)).to_multiset().add(deck@.to_multiset()),
                    deck0.to_multiset()
                );
            }
            players.push(player);
            i = i + 1;
        }
        proof {
            crate::seqs::lemma_to_multiset_empty(deck@);
            broadcast use vstd::multiset::group_multiset_axioms;

            assert_multisets_equal!(all_cards(players@).to_multiset(), deck0.to_multiset());
            crate::seqs::lemma_map_preserves_multiset(
                all_cards(players@),
                deck0,
                |c: Card| card_pair(c),
            );
        }
        War { players }
    }

    /// Every seated player draws the front card of their hand; players with
    /// no card to draw leave the game. Returns the drawn cards in seating
    /// order.
    pub fn draw(&mut self) -> (r: Vec<PlayerCard>)
        requires
            old(self).wf(),
        ensures
            final(self).wf(),
            r@ == fronts(old(self).players@),
            drew_from(old(self).players@, final(self).players@),
            sum_hand_sizes(final(self).players@) + r@.len() == sum_hand_sizes(
                old(self).players@,
            ),
    {
        let ghost before = self.players@;
        let n = self.players.len();
        let mut cards: Vec<PlayerCard> = Vec::new();
        let mut kept: Vec<Player> = Vec::new();
        proof {
            assert(before.skip(0int) =~= before);
            assert(before.take(0int) =~= Seq::<Player>::empty());
        }
        let mut k: usize = 0;
        while k < n
            invariant
                n == before.len(),
                k <= n,
                self.players@ == before.skip(k as int),
                cards@ == fronts(before.take(k as int)),
                drew_from(before.take(k as int), kept@),
            decreases n - k,
        {
            proof {
                assert(before.skip(k as int)[0] == before[k as int]);
                assert(before.skip(k as int).drop_first() =~= before.skip(k as int + 1));
                assert(before.take(k as int + 1) =~= before.take(k as int).push(
                    before[k as int],
                ));
            }
            let ghost taken = before.take(k as int);
            let ghost cur = before[k as int];
            let mut p = self.players.remove(0);
            match p.draw() {
                Ok(pc) => {
                    proof {
                        lemma_fronts_push(taken, cur);
                        lemma_drew_from_push_nonempty(taken, kept@, cur, p);
                    }
                    cards.push(pc);
                    kept.push(p);
                },
                Err(_) => {
                    proof {
                        lemma_fronts_push(taken, cur);
                        lemma_drew_from_push_empty(taken, kept@, cur);
                    }
                },
            }
            k = k + 1;
        }
        self.players = kept;
        proof {
            assert(before.take(n as int) =~= before);
            lemma_drew_from_props(before, self.players@);
            lemma_drew_from_distinct(before, self.players@);
            assert forall|i: int|
                0 <= i < self.players@.len() implies war_hand_wf(
                (#[trigger] self.players@[i]).deck@,
            ) by {
                let b = choose|b: int|
                    0 <= b < before.len() && (#[trigger] self.players@[i]).id == before[b].id
                        && self.players@[i].name == before[b].name && before[b].deck@.len() > 0
                        && self.players@[i].deck@ == before[b].deck@.drop_first();
                assert forall|c: int|
                    0 <= c < self.players@[i].deck@.len() implies (
                #[trigger] self.players@[i].deck@[c]).wf() by {
                    assert(self.players@[i].deck@[c] == before[b].deck@[c + 1]);
                }
            }
            assert(self.wf());
        }
        cards
    }

    /// One war round among the tied players: each stakes cards as the
    /// shortfall policy dictates — four from a full enough hand (three of
    /// them hidden, joining the floor), the single front card from a shorter
    /// hand, and for an empty hand the player's last contribution to the
    /// floor resurfaces. The staked comparison cards are ranked, the players
    /// achieving the highest rank become the new tied set, and every staked
    /// card ends on the floor.
    #[verifier::rlimit(100)]
    pub fn war(&mut self, winners: &mut Vec<i32>, floor: &mut Vec<PlayerCard>)
        requires
            old(self).wf(),
            old(winners)@.len() >= 1,
            forall|a: int, b: int|
                0 <= a < b < old(winners)@.len() ==> old(winners)@[a] != old(winners)@[b],
            forall|k: int|
                0 <= k < old(winners)@.len() ==> spec_player_index(
                    old(self).players@,
                    #[trigger] old(winners)@[k],
                ) >= 0,
            forall|k: int|
                0 <= k < old(winners)@.len() ==> old(self).players@[spec_player_index(
                    old(self).players@,
                    #[trigger] old(winners)@[k],
                )].deck@.len() > 0 || has_floor_card(old(floor)@, old(winners)@[k]),
            war_floor_wf(old(floor)@),
        ensures
            final(self).wf(),
            war_floor_wf(final(floor)@),
            final(self).players@.len() == old(self).players@.len(),
            forall|j: int|
                0 <= j < old(self).players@.len() ==> (#[trigger] final(self).players@[j]).id
                    == old(self).players@[j].id && final(self).players@[j].name == old(
                    self,
                ).players@[j].name,
            forall|j: int|
                0 <= j < old(self).players@.len() && old(winners)@.contains(
                    (#[trigger] old(self).players@[j]).id,
                ) ==> final(self).players@[j].deck@ == old(self).players@[j].deck@.skip(
                    staked_take(old(self).players@[j]),
                ),
            forall|j: int|
                0 <= j < old(self).players@.len() && !old(winners)@.contains(
                    (#[trigger] old(self).players@[j]).id,
                ) ==> final(self).players@[j] == old(self).players@[j],
            final(winners)@ == ids_with_value(
                stakes_of(old(self).players@, old(winners)@, old(floor)@),
                max_stake_value(stakes_of(old(self).players@, old(winners)@, old(floor)@)),
            ),
            sum_hand_sizes(final(self).players@) + final(floor)@.len() == sum_hand_sizes(
                old(self).players@,
            ) + old(floor)@.len(),
            (exists|j: int|
                0 <= j < old(self).players@.len() && old(winners)@.contains(
                    (#[trigger] old(self).players@[j]).id,
                ) && old(self).players@[j].deck@.len() > 0) ==> sum_hand_sizes(
                final(self).players@,
            ) < sum_hand_sizes(old(self).players@),
            sum_hand_sizes(final(self).players@) <= sum_hand_sizes(old(self).players@),
            final(winners)@.len() >= 1,
            forall|a: int, b: int|
                0 <= a < b < final(winners)@.len() ==> final(winners)@[a] != final(winners)@[b],
            forall|k: int|
                0 <= k < final(winners)@.len() ==> old(winners)@.contains(
                    #[trigger] final(winners)@[k],
                ),
            forall|k: int|
                0 <= k < final(winners)@.len() ==> spec_player_index(
                    final(self).players@,
                    #[trigger] final(winners)@[k],
                ) >= 0,
            forall|k: int|
                0 <= k < final(winners)@.len() ==> has_floor_card(
                    final(floor)@,
                    #[trigger] final(winners)@[k],
                ),
            cards_of(final(floor)@).to_multiset() == cards_of(old(floor)@).to_multiset().add(
                staked_hand_cards(old(self).players@, old(winners)@).to_multiset(),
            ),
            all_cards(final(self).players@).to_multiset().add(
                cards_of(final(floor)@).to_multiset(),
            ) == all_cards(old(self).players@).to_multiset().add(
                cards_of(old(floor)@).to_multiset(),
            ),
    {
        let ghost players0 = self.players@;
        let ghost winners0 = winners@;
        let ghost floor0 = floor@;
        let mut stakes: Vec<PlayerCard> = Vec::new();
        let n = self.players.len();
        proof {
            broadcast use vstd::multiset::group_multiset_axioms;

            assert(players0.take(0int) =~= Seq::<Player>::empty());
            assert(staked_hand_cards(players0.take(0int), winners0) =~= Seq::<Card>::empty());
            lemma_cards_of_len(stakes@);
            crate::seqs::lemma_to_multiset_empty(cards_of(stakes@));
            crate::seqs::lemma_to_multiset_empty(
                staked_hand_cards(players0.take(0int), winners0),
            );
            assert_multisets_equal!(
                cards_of(floor@).to_multiset().add(cards_of(stakes@).to_multiset()),
                cards_of(floor0).to_multiset().add(
                    staked_hand_cards(players0.take(0int), winners0).to_multiset())
            );
            assert_multisets_equal!(
                all_cards(self.players@).to_multiset().add(cards_of(floor@).to_multiset()).add(
                    cards_of(stakes@).to_multiset()),
                all_cards(players0).to_multiset().add(cards_of(floor0).to_multiset())
            );
        }
        let mut k: usize = 0;
        while k < n
            invariant
                n == players0.len(),
                k <= n,
                winners@ == winners0,
                winners0.len() >= 1,
                forall|a: int, b: int|
                    0 <= a < b < players0.len() ==> (#[trigger] players0[a]).id != (
                    #[trigger] players0[b]).id,
                self.players@.len() == n,
                self.wf(),
                forall|j: int| k <= j < n ==> self.players@[j] == players0[j],
                forall|j: int|
                    0 <= j < k ==> (#[trigger] self.players@[j]).id == players0[j].id
                        && self.players@[j].name == players0[j].name,
                forall|j: int|
                    0 <= j < k && winners0.contains((#[trigger] players0[j]).id)
                        ==> self.players@[j].deck@ == players0[j].deck@.skip(
                        staked_take(players0[j]),
                    ),
                forall|j: int|
                    0 <= j < k && !winners0.contains((#[trigger] players0[j]).id)
                        ==> self.players@[j] == players0[j],
                stakes@ == stakes_of(players0.take(k as int), winners0, floor0),
                cards_of(floor@).to_multiset().add(cards_of(stakes@).to_multiset()) == cards_of(
                    floor0,
                ).to_multiset().add(
                    staked_hand_cards(players0.take(k as int), winners0).to_multiset(),
                ),
                all_cards(self.players@).to_multiset().add(cards_of(floor@).to_multiset()).add(
                    cards_of(stakes@).to_multiset(),
                ) == all_cards(players0).to_multiset().add(cards_of(floor0).to_multiset()),
                war_floor_wf(floor@),
                war_floor_wf(floor0),
                forall|m: int| 0 <= m < stakes@.len() ==> (#[trigger] stakes@[m]).card.wf(),
                sum_hand_sizes(self.players@) + floor@.len() + stakes@.len() == sum_hand_sizes(
                    players0,
                ) + floor0.len(),
                (exists|j: int|
                    0 <= j < k && winners0.contains((#[trigger] players0[j]).id)
                        && players0[j].deck@.len() > 0) ==> sum_hand_sizes(self.players@)
                    < sum_hand_sizes(players0),
                sum_hand_sizes(self.players@) <= sum_hand_sizes(players0),
                forall|j: int|
                    k <= j < n && winners0.contains((#[trigger] players0[j]).id)
                        ==> has_floor_card(floor@, players0[j].id) == has_floor_card(
                        floor0,
                        players0[j].id,
                    ) && last_floor_card(floor@, players0[j].id) == last_floor_card(
                        floor0,
                        players0[j].id,
                    ),
                forall|w: int|
                    0 <= w < winners0.len() ==> spec_player_index(
                        players0,
                        #[trigger] winners0[w],
                    ) >= 0,
                forall|w: int|
                    0 <= w < winners0.len() ==> players0[spec_player_index(
                        players0,
                        #[trigger] winners0[w],
                    )].deck@.len() > 0 || has_floor_card(floor0, winners0[w]),
            decreases n - k,
        {
            proof {
                assert(players0.take(k as int + 1) =~= players0.take(k as int).push(
                    players0[k as int],
                ));
            }
            let ghost players_head = self.players@;
            let ghost floor_head = floor@;
            let ghost stakes_head = stakes@;
            let pid = self.players[k].id;
            if contains_id(winners, pid) {
                let ghost p0 = players0[k as int];
                proof {
                    assert(self.players@[k as int] == p0);
                }
                let mut p = self.players.remove(k);
                let cmp: PlayerCard;
                if p.deck.len() >= 4 {
                    let mut draws = match p.draw_all(4) {
                        Ok(d) => d,
                        Err(_) => {
                            return vstd::pervasive::unreached();
                        },
                    };
                    let ghost full_draw = draws@;
                    cmp = match draws.pop() {
                        Some(pc) => pc,
                        None => {
                            return vstd::pervasive::unreached();
                        },
                    };
                    let ghost draws_init = draws@;
                    proof {
                        assert(cmp.card == p0.deck@[3] && cmp.player_id == p0.id);
                        assert(p.deck@ == p0.deck@.skip(4));
                        assert(war_hand_wf(p0.deck@));
                        assert(cmp.card.wf());
                        lemma_cards_of_index(draws_init);
                        assert forall|i: int|
                            0 <= i < 3 implies cards_of(draws_init)[i] == p0.deck@.take(3)[i] by {
                            assert(draws_init[i] == full_draw[i]);
                            assert(full_draw[i].card == p0.deck@[i]);
                        }
                        assert(cards_of(draws_init) =~= p0.deck@.take(3));
                    }
                    while draws.len() > 0
                        invariant
                            n == players0.len(),
                            k < n,
                            p0 == players0[k as int],
                            cards_of(floor@).to_multiset().add(
                                cards_of(draws@).to_multiset(),
                            ) == cards_of(floor_head).to_multiset().add(
                                cards_of(draws_init).to_multiset(),
                            ),
                            forall|a: int, b: int|
                                0 <= a < b < players0.len() ==> (#[trigger] players0[a]).id != (
                                #[trigger] players0[b]).id,
                            forall|m: int|
                                0 <= m < draws@.len() ==> (#[trigger] draws@[m]).player_id
                                    == p0.id && draws@[m].card.wf(),
                            war_floor_wf(floor@),
                            floor@.len() + draws@.len() == floor_head.len() + 3,
                            forall|j: int|
                                k < j < n && winners0.contains((#[trigger] players0[j]).id)
                                    ==> has_floor_card(floor@, players0[j].id)
                                    == has_floor_card(floor_head, players0[j].id)
                                    && last_floor_card(floor@, players0[j].id)
                                    == last_floor_card(floor_head, players0[j].id),
                        decreases draws@.len(),
                    {
                        let ghost fl = floor@;
                        let ghost dr = draws@;
                        let pc = draws.remove(0);
                        floor.push(pc);
                        proof {
                            broadcast use vstd::multiset::group_multiset_axioms;
                            broadcast use vstd::seq_lib::group_to_multiset_ensures;

                            lemma_cards_of_index(dr);
                            lemma_cards_of_index(draws@);
                            assert(cards_of(draws@) =~= cards_of(dr).remove(0));
                            assert(cards_of(dr)[0] == pc.card);
                            assert(cards_of(dr).contains(cards_of(dr)[0]));
                            assert(cards_of(dr).remove(0).to_multiset() == cards_of(
                                dr,
                            ).to_multiset().remove(pc.card));
                            lemma_cards_of_push(fl, pc);
                            assert(cards_of(floor@) =~= cards_of(fl).push(pc.card));
                            assert(cards_of(fl).push(pc.card).to_multiset() == cards_of(
                                fl,
                            ).to_multiset().insert(pc.card));
                            assert_multisets_equal!(
                                cards_of(floor@).to_multiset().add(cards_of(draws@).to_multiset()),
                                cards_of(fl).to_multiset().add(cards_of(dr).to_multiset())
                            );
                            assert forall|j: int|
                                k < j < n && winners0.contains((#[trigger] players0[j]).id)
                                    implies has_floor_card(floor@, players0[j].id)
                                == has_floor_card(fl, players0[j].id) && last_floor_card(
                                floor@,
                                players0[j].id,
                            ) == last_floor_card(fl, players0[j].id) by {
                                assert(players0[j].id != p0.id);
                                lemma_last_floor_push_other(fl, pc, players0[j].id);
                            }
                        }
                    }
                    proof {
                        broadcast use vstd::multiset::group_multiset_axioms;

                        crate::seqs::lemma_to_multiset_empty(cards_of(draws@));
                        lemma_cards_of_len(draws@);
                        assert_multisets_equal!(
                            cards_of(floor@).to_multiset(),
                            cards_of(floor_head).to_multiset().add(
                                p0.deck@.take(3).to_multiset())
                        );
                    }
                } else if p.deck.len() >= 1 {
                    cmp = match p.draw() {
                        Ok(pc) => pc,
                        Err(_) => {
                            return vstd::pervasive::unreached();
                        },
                    };
                    proof {
                        assert(cmp.card == p0.deck@[0] && cmp.player_id == p0.id);
                        assert(p.deck@ == p0.deck@.skip(1));
                        assert(war_hand_wf(p0.deck@));
                        assert(cmp.card.wf());
                    }
                } else {
                    proof {
                        let w = choose|w: int|
                            0 <= w < winners0.len() && #[trigger] winners0[w] == p0.id;
                        lemma_player_index_first(players0, p0.id, k as int);
                        assert(has_floor_card(floor0, p0.id));
                        assert(has_floor_card(floor@, p0.id));
                    }
                    let mut m: usize = 0;
                    let mut found: usize = 0;
                    let mut got = false;
                    while m < floor.len()
                        invariant
                            pid == p0.id,
                            m <= floor@.len(),
                            got ==> found < m && floor@[found as int].player_id == p0.id,
                            got ==> forall|q: int|
                                found < q < m ==> (#[trigger] floor@[q]).player_id != p0.id,
                            !got ==> forall|q: int|
                                0 <= q < m ==> (#[trigger] floor@[q]).player_id != p0.id,
                        decreases floor@.len() - m,
                    {
                        if floor[m].player_id == pid {
                            found = m;
                            got = true;
                        }
                        m = m + 1;
                    }
                    proof {
                        if !got {
                            let q = choose|q: int|
                                0 <= q < floor@.len() && (#[trigger] floor@[q]).player_id
                                    == p0.id;
                            assert(false);
                        }
                    }
                    let ghost fl = floor@;
                    cmp = floor.remove(found);
                    proof {
                        lemma_last_floor_at(fl, found as int, p0.id);
                        assert(fl[found as int].card.wf());
                        assert(cmp == last_floor_card(fl, p0.id));
                        assert(cmp.card.wf());
                        assert(cmp == last_floor_card(floor0, p0.id));
                        assert(cmp.player_id == p0.id);
                        assert(cmp.card == staked_card(p0, floor0));
                        assert forall|j: int|
                            k < j < n && winners0.contains((#[trigger] players0[j]).id)
                                implies has_floor_card(floor@, players0[j].id)
                            == has_floor_card(fl, players0[j].id) && last_floor_card(
                            floor@,
                            players0[j].id,
                        ) == last_floor_card(fl, players0[j].id) by {
                            assert(players0[j].id != p0.id);
                            lemma_last_floor_remove_other(fl, found as int, players0[j].id);
                        }
                        assert(p.deck@ == p0.deck@.skip(0));
                        broadcast use vstd::seq_lib::group_to_multiset_ensures;

                        lemma_cards_of_index(fl);
                        lemma_cards_of_index(floor@);
                        assert(fl == floor_head);
                        assert forall|q: int|
                            0 <= q < cards_of(floor@).len() implies cards_of(floor@)[q]
                            == cards_of(fl).remove(found as int)[q] by {
                            if q < found {
                                assert(floor@[q] == fl[q]);
                            } else {
                                assert(floor@[q] == fl[q + 1]);
                            }
                        }
                        assert(cards_of(floor@) =~= cards_of(fl).remove(found as int));
                        assert(cards_of(fl)[found as int] == cmp.card);
                        assert(cards_of(fl).contains(cards_of(fl)[found as int]));
                        assert(cards_of(fl).remove(found as int).to_multiset() == cards_of(
                            fl,
                        ).to_multiset().remove(cmp.card));
                        assert(cards_of(floor_head).to_multiset().count(cmp.card) > 0);
                        assert(cards_of(floor@).to_multiset() == cards_of(
                            floor_head,
                        ).to_multiset().remove(cmp.card));
                    }
                }
                self.players.insert(k, p);
                stakes.push(cmp);
                proof {
                    assert(self.players@ =~= players_head.update(k as int, p));
                    crate::player::lemma_sum_update(players_head, k as int, p);
                    lemma_stakes_of_push(players0.take(k as int), p0, winners0, floor0);
                    assert(cmp.card == staked_card(p0, floor0));
                    assert(cmp == (PlayerCard { card: staked_card(p0, floor0), player_id: p0.id }));
                    assert(stakes@ == stakes_of(players0.take(k as int + 1), winners0, floor0));
                    assert(cmp.card.wf());
                    broadcast use vstd::multiset::group_multiset_axioms;
                    broadcast use vstd::seq_lib::group_to_multiset_ensures;

                    let st = staked_take(p0);
                    let prefix = p0.deck@.take(st);
                    lemma_cards_of_push(stakes_head, cmp);
                    assert(cards_of(stakes@) =~= cards_of(stakes_head).push(cmp.card));
                    assert(cards_of(stakes@).to_multiset() == cards_of(
                        stakes_head,
                    ).to_multiset().insert(cmp.card));
                    if p0.deck@.len() >= 4 {
                        assert(prefix =~= p0.deck@.take(3).push(p0.deck@[3]));
                        assert(prefix.to_multiset() == p0.deck@.take(3).to_multiset().insert(
                            cmp.card,
                        ));
                        assert_multisets_equal!(
                            cards_of(floor@).to_multiset().add(cards_of(stakes@).to_multiset()),
                            cards_of(floor_head).to_multiset().add(
                                cards_of(stakes_head).to_multiset()).add(prefix.to_multiset())
                        );
                    } else if p0.deck@.len() >= 1 {
                        assert(floor@ == floor_head);
                        assert(prefix =~= Seq::<Card>::empty().push(p0.deck@[0]));
                        crate::seqs::lemma_to_multiset_empty(Seq::<Card>::empty());
                        assert(prefix.to_multiset() == Seq::<Card>::empty().to_multiset().insert(
                            cmp.card,
                        ));
                        assert_multisets_equal!(
                            cards_of(floor@).to_multiset().add(cards_of(stakes@).to_multiset()),
                            cards_of(floor_head).to_multiset().add(
                                cards_of(stakes_head).to_multiset()).add(prefix.to_multiset())
                        );
                    } else {
                        assert(prefix =~= Seq::<Card>::empty());
                        crate::seqs::lemma_to_multiset_empty(prefix);
                        assert(cards_of(floor@).to_multiset() == cards_of(
                            floor_head,
                        ).to_multiset().remove(cmp.card));
                        assert_multisets_equal!(
                            cards_of(floor@).to_multiset().add(cards_of(stakes@).to_multiset()),
                            cards_of(floor_head).to_multiset().add(
                                cards_of(stakes_head).to_multiset()).add(prefix.to_multiset())
                        );
                    }
                    lemma_staked_hand_cards_push(players0.take(k as int), p0, winners0);
                    vstd::seq_lib::lemma_multiset_commutative(
                        staked_hand_cards(players0.take(k as int), winners0),
                        prefix,
                    );
                    assert_multisets_equal!(
                        cards_of(floor@).to_multiset().add(cards_of(stakes@).to_multiset()),
                        cards_of(floor0).to_multiset().add(
                            staked_hand_cards(players0.take(k as int + 1), winners0).to_multiset())
                    );
                    lemma_all_cards_update(players_head, k as int, p);
                    assert(p0.deck@ =~= prefix + p0.deck@.skip(st));
                    vstd::seq_lib::lemma_multiset_commutative(prefix, p0.deck@.skip(st));
                    assert(p.deck@ == p0.deck@.skip(st));
                    assert(players_head[k as int] == p0);
                    assert(all_cards(self.players@) == all_cards(players_head.update(k as int, p)));
                    assert(all_cards(self.players@).to_multiset().add(p0.deck@.to_multiset())
                        == all_cards(players_head).to_multiset().add(p.deck@.to_multiset()));
                    assert forall|c: Card| #[trigger] all_cards(self.players@).to_multiset().add(
                        cards_of(floor@).to_multiset(),
                    ).add(cards_of(stakes@).to_multiset()).count(c) == all_cards(
                        players0,
                    ).to_multiset().add(cards_of(floor0).to_multiset()).count(c) by {
                        broadcast use vstd::multiset::group_multiset_axioms;

                        assert(all_cards(self.players@).to_multiset().add(
                            p0.deck@.to_multiset(),
                        ).count(c) == all_cards(players_head).to_multiset().add(
                            p.deck@.to_multiset(),
                        ).count(c));
                        assert(all_cards(self.players@).to_multiset().count(c)
                            + p0.deck@.to_multiset().count(c) == all_cards(
                            players_head,
                        ).to_multiset().count(c) + p.deck@.to_multiset().count(c));
                        assert(prefix.to_multiset().add(p0.deck@.skip(st).to_multiset()).count(c)
                            == prefix.to_multiset().count(c) + p0.deck@.skip(
                            st,
                        ).to_multiset().count(c));
                        assert(p0.deck@.to_multiset().count(c) == prefix.to_multiset().count(c)
                            + p0.deck@.skip(st).to_multiset().count(c));
                        assert(cards_of(floor@).to_multiset().add(
                            cards_of(stakes@).to_multiset(),
                        ).count(c) == cards_of(floor_head).to_multiset().add(
                            cards_of(stakes_head).to_multiset(),
                        ).add(prefix.to_multiset()).count(c));
                        assert(cards_of(floor@).to_multiset().count(c) + cards_of(
                            stakes@,
                        ).to_multiset().count(c) == cards_of(floor_head).to_multiset().count(c)
                            + cards_of(stakes_head).to_multiset().count(c) + prefix.to_multiset()
                            .count(c));
                        assert(all_cards(players_head).to_multiset().add(
                            cards_of(floor_head).to_multiset(),
                        ).add(cards_of(stakes_head).to_multiset()).count(c) == all_cards(
                            players0,
                        ).to_multiset().add(cards_of(floor0).to_multiset()).count(c));
                        assert(all_cards(players_head).to_multiset().count(c) + cards_of(
                            floor_head,
                        ).to_multiset().count(c) + cards_of(stakes_head).to_multiset().count(c)
                            == all_cards(players0).to_multiset().count(c) + cards_of(
                            floor0,
                        ).to_multiset().count(c));
                    }
                    assert(all_cards(self.players@).to_multiset().add(
                        cards_of(floor@).to_multiset(),
                    ).add(cards_of(stakes@).to_multiset()) =~= all_cards(
                        players0,
                    ).to_multiset().add(cards_of(floor0).to_multiset()));
                    assert(war_hand_wf(p.deck@)) by {
                        assert forall|c: int|
                            0 <= c < p.deck@.len() implies (#[trigger] p.deck@[c]).wf() by {
                            assert(p.deck@[c] == p0.deck@[c + staked_take(p0)]);
                            assert(war_hand_wf(p0.deck@));
                        }
                    }
                    assert(self.wf());
                    if p0.deck@.len() > 0 {
                        assert(sum_hand_sizes(self.players@) < sum_hand_sizes(players0));
                    }
                }
            } else {
                proof {
                    lemma_stakes_of_push(players0.take(k as int), players0[k as int], winners0, floor0);
                    lemma_staked_hand_cards_push(players0.take(k as int), players0[k as int], winners0);
                }
            }
            k = k + 1;
        }
        proof {
            assert(players0.take(n as int) =~= players0);
            let w0 = winners0[0];
            let i0 = spec_player_index(players0, w0);
            crate::player::lemma_player_index_in_range(players0, w0);
            assert(players0[i0].id == w0);
            assert(winners0.contains(w0));
            lemma_stakes_of_keeps(players0, winners0, floor0, i0);
            assert forall|m: int|
                0 <= m < stakes@.len() implies (#[trigger] stakes@[m]).card.value_id >= 0 by {
                assert(stakes@[m].card.wf());
            }
            lemma_stakes_of_distinct(players0, winners0, floor0);
        }
        let new_winners = highest_ids(&stakes);
        let ghost stakes_snap = stakes@;
        let ghost floor_before_append = floor@;
        floor.append(&mut stakes);
        *winners = new_winners;
        proof {
            broadcast use vstd::multiset::group_multiset_axioms;

            lemma_cards_of_index(floor@);
            lemma_cards_of_index(floor_before_append);
            lemma_cards_of_index(stakes_snap);
            assert forall|q: int|
                0 <= q < cards_of(floor@).len() implies cards_of(floor@)[q] == (cards_of(
                floor_before_append,
            ) + cards_of(stakes_snap))[q] by {
                if q < floor_before_append.len() {
                    assert(floor@[q] == floor_before_append[q]);
                } else {
                    assert(floor@[q] == stakes_snap[q - floor_before_append.len()]);
                }
            }
            assert(cards_of(floor@) =~= cards_of(floor_before_append) + cards_of(stakes_snap));
            vstd::seq_lib::lemma_multiset_commutative(
                cards_of(floor_before_append),
                cards_of(stakes_snap),
            );
            assert(players0.take(n as int) =~= players0);
            assert_multisets_equal!(
                cards_of(floor@).to_multiset(),
                cards_of(floor0).to_multiset().add(
                    staked_hand_cards(players0, winners0).to_multiset())
            );
            assert_multisets_equal!(
                all_cards(self.players@).to_multiset().add(cards_of(floor@).to_multiset()),
                all_cards(players0).to_multiset().add(cards_of(floor0).to_multiset())
            );
            let sv = stakes_snap;
            let mv = max_stake_value(sv);
            lemma_ids_with_value_distinct(sv, mv);
            assert forall|k2: int| 0 <= k2 < winners@.len() implies winners0.contains(
                #[trigger] winners@[k2],
            ) && spec_player_index(self.players@, winners@[k2]) >= 0 && has_floor_card(
                floor@,
                winners@[k2],
            ) by {
                lemma_ids_with_value_member(sv, mv, k2);
                let j = choose|j: int|
                    0 <= j < sv.len() && (#[trigger] sv[j]).player_id == ids_with_value(sv, mv)[k2]
                        && sv[j].card.value_id == mv;
                lemma_stakes_of_member(players0, winners0, floor0, j);
                let pj = choose|pj: int|
                    0 <= pj < players0.len() && (#[trigger] players0[pj]).id == sv[j].player_id
                        && winners0.contains(players0[pj].id) && sv[j].card == staked_card(
                        players0[pj],
                        floor0,
                    );
                assert(self.players@[pj].id == players0[pj].id);
                crate::player::lemma_player_index_first(
                    self.players@,
                    winners@[k2],
                    choose|q: int|
                        0 <= q <= pj && self.players@[q].id == winners@[k2] && forall|r: int|
                            0 <= r < q ==> (#[trigger] self.players@[r]).id != winners@[k2],
                );
                assert(floor@[floor_before_append.len() + j] == sv[j]);
                assert(has_floor_card(floor@, winners@[k2]));
            }
            assert(war_floor_wf(floor@)) by {
                assert forall|m: int|
                    0 <= m < floor@.len() implies (#[trigger] floor@[m]).card.wf() by {
                    if m < floor_before_append.len() {
                        assert(floor@[m] == floor_before_append[m]);
                    } else {
                        assert(floor@[m] == sv[m - floor_before_append.len()]);
                    }
                }
            }
        }
    }

    /// The round's winner collects the whole floor: every floor card joins
    /// the end of the winner's hand, in the order it reached the floor, and
    /// the floor is cleared.
    pub fn round_win(&mut self, winner: i32, floor: &mut Vec<PlayerCard>)
        requires
            old(self).wf(),
            spec_player_index(old(self).players@, winner) >= 0,
            war_floor_wf(old(floor)@),
        ensures
            final(self).wf(),
            final(floor)@.len() == 0,
            final(self).players@.len() == old(self).players@.len(),
            forall|j: int|
                0 <= j < old(self).players@.len() && j != spec_player_index(
                    old(self).players@,
                    winner,
                ) ==> final(self).players@[j] == old(self).players@[j],
            final(self).players@[spec_player_index(old(self).players@, winner)].id == old(
                self,
            ).players@[spec_player_index(old(self).players@, winner)].id,
            final(self).players@[spec_player_index(old(self).players@, winner)].name == old(
                self,
            ).players@[spec_player_index(old(self).players@, winner)].name,
            final(self).players@[spec_player_index(old(self).players@, winner)].deck@ == old(
                self,
            ).players@[spec_player_index(old(self).players@, winner)].deck@ + cards_of(
                old(floor)@,
            ),
            sum_hand_sizes(final(self).players@) == sum_hand_sizes(old(self).players@) + old(
                floor,
            )@.len(),
            all_cards(final(self).players@).to_multiset() == all_cards(
                old(self).players@,
            ).to_multiset().add(cards_of(old(floor)@).to_multiset()),
    {
        let idx = match Player::player_index(&self.players, winner) {
            Some(i) => {
                proof {
                    lemma_player_index_first(self.players@, winner, i as int);
                }
                i
            },
            None => {
                proof {
                    lemma_player_index_none(self.players@, winner);
                }
                return vstd::pervasive::unreached();
            },
        };
        let ghost players_before = self.players@;
        let ghost floor0 = floor@;
        let ghost h0 = self.players@[idx as int].deck@;
        let mut p = self.players.remove(idx);
        proof {
            assert(cards_of(floor0.take(0int)) =~= Seq::<Card>::empty());
            assert(h0 + cards_of(floor0.take(0int)) =~= h0);
        }
        let ghost t: int = 0;
        while floor.len() > 0
            invariant
                0 <= t <= floor0.len(),
                floor@ =~= floor0.skip(t),
                p.id == players_before[idx as int].id,
                p.name == players_before[idx as int].name,
                p.deck@ == h0 + cards_of(floor0.take(t)),
                war_hand_wf(h0),
                war_floor_wf(floor0),
                war_hand_wf(p.deck@),
            decreases floor@.len(),
        {
            let pc = floor.remove(0);
            proof {
                assert(floor0.skip(t)[0] == floor0[t]);
                assert(floor0.skip(t).drop_first() =~= floor0.skip(t + 1));
                assert(floor0.take(t + 1) =~= floor0.take(t).push(floor0[t]));
                lemma_cards_of_push(floor0.take(t), floor0[t]);
            }
            p.give(pc.card);
            proof {
                assert(p.deck@ =~= h0 + cards_of(floor0.take(t + 1)));
                assert forall|c: int|
                    0 <= c < p.deck@.len() implies (#[trigger] p.deck@[c]).wf() by {
                    if c < h0.len() + cards_of(floor0.take(t)).len() {
                    } else {
                        assert(p.deck@[c] == floor0[t].card);
                    }
                }
            }
            proof {
                t = t + 1;
            }
        }
        self.players.insert(idx, p);
        proof {
            assert(floor0.skip(t) =~= Seq::<PlayerCard>::empty());
            assert(t == floor0.len());
            assert(floor0.take(t) =~= floor0);
            assert(self.players@ =~= players_before.update(idx as int, p));
            crate::player::lemma_sum_update(players_before, idx as int, p);
            lemma_cards_of_len(floor0);
            lemma_all_cards_update(players_before, idx as int, p);
            vstd::seq_lib::lemma_multiset_commutative(h0, cards_of(floor0));
            assert(all_cards(self.players@) == all_cards(players_before.update(idx as int, p)));
            assert(p.deck@.to_multiset() == h0.to_multiset().add(cards_of(floor0).to_multiset()));
            assert forall|c: Card| #[trigger] all_cards(self.players@).to_multiset().count(c)
                == all_cards(players_before).to_multiset().add(
                cards_of(floor0).to_multiset(),
            ).count(c) by {
                broadcast use vstd::multiset::group_multiset_axioms;

                assert(all_cards(self.players@).to_multiset().add(h0.to_multiset()).count(c)
                    == all_cards(players_before).to_multiset().add(p.deck@.to_multiset()).count(
                    c,
                ));
                assert(h0.to_multiset().add(cards_of(floor0).to_multiset()).count(c)
                    == h0.to_multiset().count(c) + cards_of(floor0).to_multiset().count(c));
            }
            assert(all_cards(self.players@).to_multiset() =~= all_cards(
                players_before,
            ).to_multiset().add(cards_of(floor0).to_multiset()));
            assert(self.wf());
        }
    }

    /// Plays one full round: every player draws, the drawn cards are
    /// compared, ties cascade into wars until a single tied player remains
    /// (an unbreakable tie, possible only when every tied player's hand is
    /// empty, goes to the earliest-seated of them), and the round's winner
    /// collects every card staked this round. Players unable to draw leave
    /// the game; when only one player remains, that player has won and the
    /// round reports it. The 52 cards in play are conserved.
    pub fn play_round(&mut self) -> (r: Option<i32>)
        requires
            old(self).wf(),
            old(self).players@.len() >= 2,
            sum_hand_sizes(old(self).players@) >= 1,
        ensures
            final(self).wf(),
            sum_hand_sizes(final(self).players@) == sum_hand_sizes(old(self).players@),
            r matches Some(w) ==> final(self).players@.len() == 1 && final(self).players@[0].id
                == w && final(self).players@[0].deck@.len() == sum_hand_sizes(
                old(self).players@,
            ),
            r is None ==> final(self).players@.len() >= 2,
            final(self).players@.len() == still_dealt(old(self).players@).len(),
            forall|k: int|
                0 <= k < final(self).players@.len() ==> (#[trigger] final(self).players@[k]).id
                    == still_dealt(old(self).players@)[k].id && final(self).players@[k].name
                    == still_dealt(old(self).players@)[k].name,
            r is None ==> exists|w: int|
                0 <= w < final(self).players@.len() && #[trigger] round_went_to(
                    old(self).players@,
                    final(self).players@,
                    w,
                ) && round_hands(old(self).players@, final(self).players@, w),
            all_cards(final(self).players@).to_multiset() == all_cards(
                old(self).players@,
            ).to_multiset(),
    {
        let ghost pre = self.players@;
        let ghost total = sum_hand_sizes(pre);
        let mut cards = self.draw();
        proof {
            lemma_drew_from_props(pre, self.players@);
            lemma_drew_from_still_dealt(pre, self.players@);
            lemma_drew_from_all_cards(pre, self.players@);
            lemma_sum_pos_exists(pre);
            let j = choose|j: int| 0 <= j < pre.len() && (#[trigger] pre[j]).deck@.len() > 0;
            lemma_fronts_nonempty(pre, j);
        }
        if self.players.len() == 0 {
            return vstd::pervasive::unreached();
        }
        if self.players.len() == 1 {
            let pc = match cards.pop() {
                Some(pc) => pc,
                None => {
                    return vstd::pervasive::unreached();
                },
            };
            let ghost after_draw = self.players@;
            let mut p = self.players.remove(0);
            p.give(pc.card);
            self.players.insert(0, p);
            proof {
                crate::player::lemma_sum_remove(after_draw, 0);
                assert(self.players@ =~= after_draw.update(0int, p));
                crate::player::lemma_sum_update(after_draw, 0, p);
                assert(self.players@.drop_first() =~= Seq::<Player>::empty());
                assert(sum_hand_sizes(self.players@) == self.players@[0].deck@.len() as int);
                broadcast use vstd::multiset::group_multiset_axioms;
                broadcast use vstd::seq_lib::group_to_multiset_ensures;

                lemma_cards_of_index(fronts(pre));
                assert(fronts(pre)[0].card == pc.card);
                assert(cards_of(fronts(pre)) =~= Seq::<Card>::empty().push(pc.card));
                crate::seqs::lemma_to_multiset_empty(Seq::<Card>::empty());
                assert(cards_of(fronts(pre)).to_multiset() == Seq::<Card>::empty().to_multiset()
                    .insert(pc.card));
                assert(all_cards(after_draw) == after_draw[0].deck@ + all_cards(
                    after_draw.drop_first(),
                ));
                assert(after_draw.drop_first() =~= Seq::<Player>::empty());
                crate::seqs::lemma_to_multiset_empty(all_cards(Seq::<Player>::empty()));
                vstd::seq_lib::lemma_multiset_commutative(
                    after_draw[0].deck@,
                    all_cards(after_draw.drop_first()),
                );
                lemma_all_cards_update(after_draw, 0, p);
                assert(p.deck@ == after_draw[0].deck@.push(pc.card));
                assert(p.deck@.to_multiset() == after_draw[0].deck@.to_multiset().insert(
                    pc.card,
                ));
                assert(all_cards(self.players@) == all_cards(after_draw.update(0int, p)));
                assert forall|c: Card| #[trigger] all_cards(self.players@).to_multiset().count(c)
                    == all_cards(pre).to_multiset().count(c) by {
                    broadcast use vstd::multiset::group_multiset_axioms;

                    assert(all_cards(self.players@).to_multiset().add(
                        after_draw[0].deck@.to_multiset(),
                    ).count(c) == all_cards(after_draw).to_multiset().add(
                        p.deck@.to_multiset(),
                    ).count(c));
                    assert(all_cards(after_draw).to_multiset().add(
                        cards_of(fronts(pre)).to_multiset(),
                    ).count(c) == all_cards(pre).to_multiset().count(c));
                }
                assert(all_cards(self.players@).to_multiset() =~= all_cards(pre).to_multiset());
                assert(war_hand_wf(p.deck@)) by {
                    assert forall|c: int|
                        0 <= c < p.deck@.len() implies (#[trigger] p.deck@[c]).wf() by {
                        if c < after_draw[0].deck@.len() {
                            assert(p.deck@[c] == after_draw[0].deck@[c]);
                            assert(war_hand_wf(after_draw[0].deck@));
                        } else {
                            assert(p.deck@[c] == pc.card);
                            lemma_fronts_wf(pre);
                        }
                    }
                }
                assert(self.wf());
            }
            return Some(self.players[0].id);
        }
        let ghost kept = self.players@;
        proof {
            lemma_fronts_wf(pre);
            assert forall|m: int| 0 <= m < cards@.len() implies (#[trigger] cards@[m]).card.value_id
                >= 0 by {
                assert(cards@[m].card.wf());
            }
        }
        let mut winners = highest_ids(&cards);
        let mut floor = cards;
        proof {
            lemma_fronts_ids_distinct(pre, kept);
            let mv = max_stake_value(fronts(pre));
            lemma_ids_with_value_distinct(fronts(pre), mv);
            assert forall|k: int| 0 <= k < winners@.len() implies spec_player_index(
                self.players@,
                #[trigger] winners@[k],
            ) >= 0 && has_floor_card(floor@, winners@[k]) by {
                lemma_ids_with_value_member(fronts(pre), mv, k);
                let j = choose|j: int|
                    0 <= j < fronts(pre).len() && (#[trigger] fronts(pre)[j]).player_id
                        == ids_with_value(fronts(pre), mv)[k] && fronts(pre)[j].card.value_id
                        == mv;
                assert(kept[j].id == winners@[k]);
                crate::player::lemma_player_index_in_range(kept, winners@[k]);
                lemma_spec_index_found(kept, winners@[k], j);
                assert(floor@[j].player_id == winners@[k]);
            }
            assert(floor@ == fronts(pre));
            assert(all_cards(self.players@).to_multiset().add(cards_of(floor@).to_multiset())
                == all_cards(pre).to_multiset());
            assert forall|k: int| 0 <= k < kept.len() implies is_suffix_of(
                (#[trigger] self.players@[k]).deck@,
                kept[k].deck@,
            ) by {
                assert(kept[k].deck@.skip(0int) =~= kept[k].deck@);
            }
        }
        while winners.len() > 1
            invariant
                self.wf(),
                self.players@.len() >= 2,
                winners@.len() >= 1,
                forall|a: int, b: int|
                    0 <= a < b < winners@.len() ==> winners@[a] != winners@[b],
                forall|k: int|
                    0 <= k < winners@.len() ==> spec_player_index(
                        self.players@,
                        #[trigger] winners@[k],
                    ) >= 0,
                forall|k: int|
                    0 <= k < winners@.len() ==> self.players@[spec_player_index(
                        self.players@,
                        #[trigger] winners@[k],
                    )].deck@.len() > 0 || has_floor_card(floor@, winners@[k]),
                war_floor_wf(floor@),
                sum_hand_sizes(self.players@) + floor@.len() == total,
                all_cards(self.players@).to_multiset().add(cards_of(floor@).to_multiset())
                    == all_cards(pre).to_multiset(),
                self.players@.len() == kept.len(),
                forall|k: int|
                    0 <= k < kept.len() ==> is_suffix_of(
                        (#[trigger] self.players@[k]).deck@,
                        kept[k].deck@,
                    ),
                forall|k: int|
                    0 <= k < kept.len() ==> (#[trigger] self.players@[k]).id == kept[k].id
                        && self.players@[k].name == kept[k].name && self.players@[k].deck@.len()
                        <= kept[k].deck@.len(),
            decreases sum_hand_sizes(self.players@),
        {
            let mut any = false;
            let mut t: usize = 0;
            while t < self.players.len()
                invariant
                    t <= self.players@.len(),
                    any ==> exists|j: int|
                        0 <= j < self.players@.len() && winners@.contains(
                            (#[trigger] self.players@[j]).id,
                        ) && self.players@[j].deck@.len() > 0,
                decreases self.players@.len() - t,
            {
                if self.players[t].deck.len() > 0 && contains_id(&winners, self.players[t].id) {
                    any = true;
                }
                t = t + 1;
            }
            if !any {
                break ;
            }
            let ghost head_players = self.players@;
            let ghost head_winners = winners@;
            self.war(&mut winners, &mut floor);
            proof {
                crate::player::lemma_sum_nonneg(self.players@);
                assert forall|k: int| 0 <= k < kept.len() implies is_suffix_of(
                    (#[trigger] self.players@[k]).deck@,
                    kept[k].deck@,
                ) by {
                    let t = kept[k].deck@;
                    let s_old = head_players[k].deck@;
                    let d = t.len() - s_old.len();
                    assert(is_suffix_of(s_old, t));
                    if head_winners.contains(head_players[k].id) {
                        let st = staked_take(head_players[k]);
                        assert(self.players@[k].deck@ == s_old.skip(st));
                        assert(s_old.skip(st) =~= t.skip(d + st));
                    } else {
                        assert(self.players@[k] == head_players[k]);
                    }
                }
            }
        }
        let w = winners[0];
        let ghost before_win = self.players@;
        proof {
            crate::player::lemma_player_index_in_range(self.players@, w);
        }
        self.round_win(w, &mut floor);
        proof {
            lemma_cards_of_len(floor@);
            let i = spec_player_index(before_win, w);
            assert forall|k: int|
                0 <= k < self.players@.len() && k != i implies (
            #[trigger] self.players@[k]).deck@.len() < still_dealt(pre)[k].deck@.len() by {
                assert(self.players@[k] == before_win[k]);
                assert(before_win[k].deck@.len() <= kept[k].deck@.len());
                assert(kept[k].deck@ == still_dealt(pre)[k].deck@.drop_first());
            }
            assert(round_went_to(pre, self.players@, i));
            let sd = still_dealt(pre);
            assert forall|k: int| 0 <= k < self.players@.len() && k != i implies is_suffix_of(
                (#[trigger] self.players@[k]).deck@,
                sd[k].deck@.drop_first(),
            ) by {
                assert(self.players@[k] == before_win[k]);
                assert(is_suffix_of(before_win[k].deck@, kept[k].deck@));
                assert(kept[k].deck@ == sd[k].deck@.drop_first());
            }
            let m = before_win[i].deck@.len() as int;
            assert(self.players@[i].deck@.take(m) =~= before_win[i].deck@);
            assert(is_suffix_of(before_win[i].deck@, kept[i].deck@));
            assert(kept[i].deck@ == sd[i].deck@.drop_first());
            assert(is_suffix_of(self.players@[i].deck@.take(m), sd[i].deck@.drop_first()));
            assert(round_hands(pre, self.players@, i));
        }
        None
    }

    /// Removes the first player carrying the given identifier; the rest keep
    /// their seats and hands.
    pub fn remove(&mut self, player_id: i32)
        requires
            old(self).wf(),
            spec_player_index(old(self).players@, player_id) >= 0,
        ensures
            final(self).wf(),
            final(self).players@ == old(self).players@.remove(
                spec_player_index(old(self).players@, player_id),
            ),
            sum_hand_sizes(final(self).players@) == sum_hand_sizes(old(self).players@)
                - old(self).players@[spec_player_index(old(self).players@, player_id)].deck@.len(),
    {
        let idx = match Player::player_index(&self.players, player_id) {
            Some(i) => {
                proof {
                    lemma_player_index_first(self.players@, player_id, i as int);
                }
                i
            },
            None => {
                proof {
                    lemma_player_index_none(self.players@, player_id);
                }
                return vstd::pervasive::unreached();
            },
        };
        let ghost before = self.players@;
        let _ = self.players.remove(idx);
        proof {
            crate::player::lemma_sum_remove(before, idx as int);
            assert(self.wf());
        }
    }

    /// Removes every listed player in turn.
    pub fn remove_all(&mut self, player_ids: Vec<i32>)
        requires
            old(self).wf(),
            forall|a: int, b: int|
                0 <= a < b < player_ids@.len() ==> player_ids@[a] != player_ids@[b],
            forall|k: int|
                0 <= k < player_ids@.len() ==> spec_player_index(
                    old(self).players@,
                    #[trigger] player_ids@[k],
                ) >= 0,
        ensures
            final(self).wf(),
            final(self).players@.len() == old(self).players@.len() - player_ids@.len(),
            forall|j: int|
                0 <= j < final(self).players@.len() ==> old(self).players@.contains(
                    #[trigger] final(self).players@[j],
                ) && !player_ids@.contains(final(self).players@[j].id),
            removal_of(old(self).players@, final(self).players@, player_ids@),
    {
        proof {
            lemma_removal_refl(self.players@);
            assert(player_ids@.take(0int) =~= Seq::<i32>::empty());
        }
        let mut k: usize = 0;
        while k < player_ids.len()
            invariant
                old(self).wf(),
                self.wf(),
                k <= player_ids@.len(),
                forall|a: int, b: int|
                    0 <= a < b < player_ids@.len() ==> player_ids@[a] != player_ids@[b],
                self.players@.len() == old(self).players@.len() - k,
                forall|j: int|
                    0 <= j < self.players@.len() ==> old(self).players@.contains(
                        #[trigger] self.players@[j],
                    ),
                forall|j: int, a: int|
                    0 <= j < self.players@.len() && 0 <= a < k ==> (
                    #[trigger] self.players@[j]).id != #[trigger] player_ids@[a],
                forall|a: int|
                    k <= a < player_ids@.len() ==> spec_player_index(
                        self.players@,
                        #[trigger] player_ids@[a],
                    ) >= 0,
                removal_of(old(self).players@, self.players@, player_ids@.take(k as int)),
            decreases player_ids@.len() - k,
        {
            let ghost before = self.players@;
            let id = player_ids[k];
            proof {
                crate::player::lemma_player_index_in_range(before, id);
            }
            self.remove(id);
            proof {
                assert(old(self).wf());
                assert(id == player_ids@[k as int]);
                assert(spec_player_index(before, id) >= 0);
                lemma_removal_remove_one(
                    old(self).players@,
                    before,
                    player_ids@.take(k as int),
                    id,
                );
                assert(player_ids@.take(k as int).push(id) =~= player_ids@.take(k as int + 1));
                let i = spec_player_index(before, id);
                assert forall|j: int| 0 <= j < self.players@.len() implies before.contains(
                    #[trigger] self.players@[j],
                ) by {
                    if j < i {
                        assert(self.players@[j] == before[j]);
                    } else {
                        assert(self.players@[j] == before[j + 1]);
                    }
                }
                assert forall|a: int|
                    k + 1 <= a < player_ids@.len() implies spec_player_index(
                    self.players@,
                    #[trigger] player_ids@[a],
                ) >= 0 by {
                    let aid = player_ids@[a];
                    crate::player::lemma_player_index_in_range(before, aid);
                    let ai = spec_player_index(before, aid);
                    assert(before[ai].id == aid);
                    assert(aid != id);
                    assert(before[i].id == id);
                    if ai < i {
                        assert(self.players@[ai] == before[ai]);
                        lemma_spec_index_found(self.players@, aid, ai);
                    } else {
                        assert(self.players@[ai - 1] == before[ai]);
                        lemma_spec_index_found(self.players@, aid, ai - 1);
                    }
                }
                assert forall|j: int, a: int|
                    0 <= j < self.players@.len() && 0 <= a < k + 1 implies (
                #[trigger] self.players@[j]).id != #[trigger] player_ids@[a] by {
                    if j < i {
                        assert(self.players@[j] == before[j]);
                    } else {
                        assert(self.players@[j] == before[j + 1]);
                    }
                    if a == k {
                        if j < i {
                            assert(before[j].id != id) by {
                                lemma_spec_index_first_not_before(before, id, j);
                            }
                        } else {
                            assert(before[j + 1].id != id) by {
                                if before[j + 1].id == id {
                                    assert(before[i].id == id);
                                }
                            }
                        }
                    }
                }
            }
            k = k + 1;
        }
        proof {
            assert(player_ids@.take(player_ids@.len() as int) =~= player_ids@);
        }
    }
}

/// The player set `after` is `before` with exactly the players carrying a
/// listed identifier removed, the rest keeping their seats and hands.
pub open spec fn removal_of(before: Seq<Player>, after: Seq<Player>, ids: Seq<i32>) -> bool
    decreases before.len(),
{
    if before.len() == 0 {
        after.len() == 0
    } else if ids.contains(before[0].id) {
        removal_of(before.drop_first(), after, ids)
    } else {
        &&& after.len() > 0
        &&& after[0] == before[0]
        &&& removal_of(before.drop_first(), after.drop_first(), ids)
    }
}

/// Removing nothing keeps every player.
pub proof fn lemma_removal_refl(players: Seq<Player>)
    ensures
        removal_of(players, players, Seq::<i32>::empty()),
    decreases players.len(),
{
    if players.len() > 0 {
        lemma_removal_refl(players.drop_first());
    }
}

/// An identifier nobody carries can join the removal list.
pub proof fn lemma_removal_grow(before: Seq<Player>, after: Seq<Player>, ids: Seq<i32>, id: i32)
    requires
        removal_of(before, after, ids),
        forall|j: int| 0 <= j < before.len() ==> (#[trigger] before[j]).id != id,
    ensures
        removal_of(before, after, ids.push(id)),
    decreases before.len(),
{
    if before.len() > 0 {
        assert forall|j: int|
            0 <= j < before.drop_first().len() implies (#[trigger] before.drop_first()[j]).id
            != id by {
            assert(before.drop_first()[j] == before[j + 1]);
        }
        assert(before[0].id != id);
        assert(ids.push(id).contains(before[0].id) == ids.contains(before[0].id)) by {
            if ids.contains(before[0].id) {
                let w = choose|w: int| 0 <= w < ids.len() && ids[w] == before[0].id;
                assert(ids.push(id)[w] == before[0].id);
            }
            if ids.push(id).contains(before[0].id) {
                let w = choose|w: int|
                    0 <= w < ids.push(id).len() && ids.push(id)[w] == before[0].id;
                assert(w < ids.len());
            }
        }
        if ids.contains(before[0].id) {
            lemma_removal_grow(before.drop_first(), after, ids, id);
        } else {
            lemma_removal_grow(before.drop_first(), after.drop_first(), ids, id);
        }
    }
}

/// Removing the one player carrying a fresh identifier extends the removal.
pub proof fn lemma_removal_remove_one(
    before: Seq<Player>,
    after: Seq<Player>,
    ids: Seq<i32>,
    id: i32,
)
    requires
        removal_of(before, after, ids),
        forall|a: int, b: int|
            0 <= a < b < before.len() ==> (#[trigger] before[a]).id != (#[trigger] before[b]).id,
        spec_player_index(after, id) >= 0,
    ensures
        removal_of(before, after.remove(spec_player_index(after, id)), ids.push(id)),
    decreases before.len(),
{
    crate::player::lemma_player_index_in_range(after, id);
    let idx = spec_player_index(after, id);
    assert forall|a: int, b: int|
        0 <= a < b < before.drop_first().len() implies (#[trigger] before.drop_first()[a]).id
        != (#[trigger] before.drop_first()[b]).id by {
        assert(before.drop_first()[a] == before[a + 1]);
        assert(before.drop_first()[b] == before[b + 1]);
    }
    if before.len() == 0 {
        assert(false);
    } else if ids.contains(before[0].id) {
        lemma_removal_remove_one(before.drop_first(), after, ids, id);
        let w = choose|w: int| 0 <= w < ids.len() && ids[w] == before[0].id;
        assert(ids.push(id)[w] == before[0].id);
        assert(ids.push(id).contains(before[0].id));
    } else {
        if before[0].id == id {
            assert(after[0] == before[0]);
            assert(idx == 0);
            assert(after.remove(0) =~= after.drop_first());
            assert(ids.push(id).last() == id);
            assert(ids.push(id).contains(id));
            assert forall|j: int|
                0 <= j < before.drop_first().len() implies (#[trigger] before.drop_first(
            )[j]).id != id by {
                assert(before.drop_first()[j] == before[j + 1]);
                assert(before[0].id != before[j + 1].id);
            }
            lemma_removal_grow(before.drop_first(), after.drop_first(), ids, id);
        } else {
            assert(after[0] == before[0]);
            assert(after[0].id != id);
            assert(idx >= 1);
            assert(spec_player_index(after.drop_first(), id) == idx - 1);
            lemma_removal_remove_one(before.drop_first(), after.drop_first(), ids, id);
            assert(after.remove(idx)[0] == after[0]);
            assert(after.remove(idx).drop_first() =~= after.drop_first().remove(idx - 1));
            assert(!ids.push(id).contains(before[0].id)) by {
                if ids.push(id).contains(before[0].id) {
                    let w = choose|w: int|
                        0 <= w < ids.push(id).len() && ids.push(id)[w] == before[0].id;
                    assert(w < ids.len());
                    assert(ids.contains(before[0].id));
                }
            }
            assert(after.remove(idx).len() > 0);
        }
    }
}

/// A floor's card list mirrors the floor entry by entry.
pub proof fn lemma_cards_of_index(floor: Seq<PlayerCard>)
    ensures
        cards_of(floor).len() == floor.len(),
        forall|j: int| 0 <= j < floor.len() ==> cards_of(floor)[j] == (#[trigger] floor[j]).card,
    decreases floor.len(),
{
    if floor.len() > 0 {
        lemma_cards_of_index(floor.drop_first());
        assert forall|j: int|
            0 <= j < floor.len() implies cards_of(floor)[j] == (#[trigger] floor[j]).card by {
            if j > 0 {
                assert(cards_of(floor)[j] == cards_of(floor.drop_first())[j - 1]);
                assert(floor.drop_first()[j - 1] == floor[j]);
            }
        }
    }
}

/// The cards the tied players move out of their hands in one war round, in
/// seating order: the staked prefix of every tied hand.
pub open spec fn staked_hand_cards(players: Seq<Player>, winners: Seq<i32>) -> Seq<Card>
    decreases players.len(),
{
    if players.len() == 0 {
        Seq::empty()
    } else {
        let rest = staked_hand_cards(players.drop_first(), winners);
        if winners.contains(players[0].id) {
            players[0].deck@.take(staked_take(players[0])) + rest
        } else {
            rest
        }
    }
}

/// Appending a player appends that player's staked prefix, when the player is
/// tied.
pub proof fn lemma_staked_hand_cards_push(players: Seq<Player>, p: Player, winners: Seq<i32>)
    ensures
        staked_hand_cards(players.push(p), winners) == if winners.contains(p.id) {
            staked_hand_cards(players, winners) + p.deck@.take(staked_take(p))
        } else {
            staked_hand_cards(players, winners)
        },
    decreases players.len(),
{
    if players.len() == 0 {
        assert(players.push(p).drop_first() =~= players);
        if winners.contains(p.id) {
            assert(p.deck@.take(staked_take(p)) + staked_hand_cards(players, winners)
                =~= staked_hand_cards(players, winners) + p.deck@.take(staked_take(p)));
        }
    } else {
        assert(players.push(p).drop_first() =~= players.drop_first().push(p));
        assert(players.push(p)[0] == players[0]);
        lemma_staked_hand_cards_push(players.drop_first(), p, winners);
        if winners.contains(players[0].id) && winners.contains(p.id) {
            let head = players[0].deck@.take(staked_take(players[0]));
            let tail = p.deck@.take(staked_take(p));
            assert(head + (staked_hand_cards(players.drop_first(), winners) + tail) =~= (head
                + staked_hand_cards(players.drop_first(), winners)) + tail);
        }
    }
}

/// Replacing one player trades that player's old hand for the new one in the
/// pool of all held cards.
pub proof fn lemma_all_cards_update(players: Seq<Player>, k: int, p: Player)
    requires
        0 <= k < players.len(),
    ensures
        all_cards(players.update(k, p)).to_multiset().add(players[k].deck@.to_multiset())
            =~= all_cards(players).to_multiset().add(p.deck@.to_multiset()),
    decreases players.len(),
{
    broadcast use vstd::multiset::group_multiset_axioms;

    if k == 0 {
        assert(players.update(0, p).drop_first() =~= players.drop_first());
        assert(players.update(0, p)[0] == p);
        assert(all_cards(players.update(0, p)) == p.deck@ + all_cards(players.drop_first()));
        vstd::seq_lib::lemma_multiset_commutative(p.deck@, all_cards(players.drop_first()));
        vstd::seq_lib::lemma_multiset_commutative(
            players[0].deck@,
            all_cards(players.drop_first()),
        );
    } else {
        assert(players.update(k, p).drop_first() =~= players.drop_first().update(k - 1, p));
        assert(players.update(k, p)[0] == players[0]);
        lemma_all_cards_update(players.drop_first(), k - 1, p);
        assert(all_cards(players.update(k, p)) == players[0].deck@ + all_cards(
            players.drop_first().update(k - 1, p),
        ));
        vstd::seq_lib::lemma_multiset_commutative(
            players[0].deck@,
            all_cards(players.drop_first().update(k - 1, p)),
        );
        assert(all_cards(players) == players[0].deck@ + all_cards(players.drop_first()));
        vstd::seq_lib::lemma_multiset_commutative(players[0].deck@, all_cards(players.drop_first()));
        assert(players.drop_first()[k - 1] == players[k]);
        assert(all_cards(players.drop_first().update(k - 1, p)).to_multiset().add(
            players[k].deck@.to_multiset(),
        ) == all_cards(players.drop_first()).to_multiset().add(p.deck@.to_multiset()));
        assert forall|c: Card| #[trigger] all_cards(players.update(k, p)).to_multiset().add(
            players[k].deck@.to_multiset(),
        ).count(c) == all_cards(players).to_multiset().add(p.deck@.to_multiset()).count(c) by {
            assert(all_cards(players.update(k, p)).to_multiset().count(c)
                == players[0].deck@.to_multiset().count(c) + all_cards(
                players.drop_first().update(k - 1, p),
            ).to_multiset().count(c));
            assert(all_cards(players).to_multiset().count(c) == players[0].deck@.to_multiset()
                .count(c) + all_cards(players.drop_first()).to_multiset().count(c));
            assert(all_cards(players.drop_first().update(k - 1, p)).to_multiset().count(c)
                + players[k].deck@.to_multiset().count(c) == all_cards(
                players.drop_first(),
            ).to_multiset().count(c) + p.deck@.to_multiset().count(c)) by {
                assert(all_cards(players.drop_first().update(k - 1, p)).to_multiset().add(
                    players[k].deck@.to_multiset(),
                ).count(c) == all_cards(players.drop_first()).to_multiset().add(
                    p.deck@.to_multiset(),
                ).count(c));
            }
        }
        assert(all_cards(players.update(k, p)).to_multiset().add(players[k].deck@.to_multiset())
            =~= all_cards(players).to_multiset().add(p.deck@.to_multiset()));
    }
}

/// A draw moves exactly the drawn front cards out of the players' hands.
pub proof fn lemma_drew_from_all_cards(before: Seq<Player>, after: Seq<Player>)
    requires
        drew_from(before, after),
    ensures
        all_cards(after).to_multiset().add(cards_of(fronts(before)).to_multiset())
            =~= all_cards(before).to_multiset(),
    decreases before.len(),
{
    broadcast use vstd::multiset::group_multiset_axioms;
    broadcast use vstd::seq_lib::group_to_multiset_ensures;

    if before.len() == 0 {
        crate::seqs::lemma_to_multiset_empty(all_cards(after));
        crate::seqs::lemma_to_multiset_empty(cards_of(fronts(before)));
        crate::seqs::lemma_to_multiset_empty(all_cards(before));
        assert_multisets_equal!(
            all_cards(after).to_multiset().add(cards_of(fronts(before)).to_multiset()),
            all_cards(before).to_multiset()
        );
    } else if before[0].deck@.len() > 0 {
        lemma_drew_from_all_cards(before.drop_first(), after.drop_first());
        let h = before[0].deck@;
        let pc = PlayerCard { card: h[0], player_id: before[0].id };
        assert(all_cards(before) == h + all_cards(before.drop_first()));
        assert(all_cards(after) == after[0].deck@ + all_cards(after.drop_first()));
        assert(fronts(before) == seq![pc] + fronts(before.drop_first()));
        assert(cards_of(fronts(before)) =~= seq![h[0]] + cards_of(fronts(before.drop_first())))
            by {
            lemma_cards_of_index(fronts(before));
            lemma_cards_of_index(fronts(before.drop_first()));
            assert forall|j: int|
                0 <= j < fronts(before).len() implies cards_of(fronts(before))[j] == (seq![h[0]]
                + cards_of(fronts(before.drop_first())))[j] by {
                if j > 0 {
                    assert(fronts(before)[j] == fronts(before.drop_first())[j - 1]);
                }
            }
        }
        vstd::seq_lib::lemma_multiset_commutative(h, all_cards(before.drop_first()));
        vstd::seq_lib::lemma_multiset_commutative(after[0].deck@, all_cards(after.drop_first()));
        vstd::seq_lib::lemma_multiset_commutative(
            seq![h[0]],
            cards_of(fronts(before.drop_first())),
        );
        assert(h =~= seq![h[0]] + after[0].deck@);
        vstd::seq_lib::lemma_multiset_commutative(seq![h[0]], after[0].deck@);
        assert_multisets_equal!(
            all_cards(after).to_multiset().add(cards_of(fronts(before)).to_multiset()),
            all_cards(before).to_multiset()
        );
    } else {
        lemma_drew_from_all_cards(before.drop_first(), after);
        assert(all_cards(before) == before[0].deck@ + all_cards(before.drop_first()));
        crate::seqs::lemma_to_multiset_empty(before[0].deck@);
        vstd::seq_lib::lemma_multiset_commutative(before[0].deck@, all_cards(before.drop_first()));
        assert_multisets_equal!(
            all_cards(before).to_multiset(),
            all_cards(before.drop_first()).to_multiset()
        );
    }
}

/// A position carrying the identifier bounds the first such position.
pub proof fn lemma_spec_index_found(players: Seq<Player>, id: i32, i: int)
    requires
        0 <= i < players.len(),
        players[i].id == id,
    ensures
        0 <= spec_player_index(players, id) <= i,
    decreases players.len(),
{
    if players[0].id != id {
        assert(players.drop_first()[i - 1] == players[i]);
        lemma_spec_index_found(players.drop_first(), id, i - 1);
    }
}

/// Positions before the first match do not carry the identifier.
pub proof fn lemma_spec_index_first_not_before(players: Seq<Player>, id: i32, j: int)
    requires
        0 <= j < spec_player_index(players, id),
    ensures
        players[j].id != id,
    decreases players.len(),
{
    crate::player::lemma_player_index_in_range(players, id);
    if j > 0 {
        assert(players.drop_first()[j - 1] == players[j]);
        lemma_spec_index_first_not_before(players.drop_first(), id, j - 1);
    }
}

/// The cards of the floor, stripped of their owner tags, in order.
pub open spec fn cards_of(floor: Seq<PlayerCard>) -> Seq<Card>
    decreases floor.len(),
{
    if floor.len() == 0 {
        Seq::empty()
    } else {
        seq![floor[0].card] + cards_of(floor.drop_first())
    }
}

/// There are as many floor cards as tagged entries.
pub proof fn lemma_cards_of_len(floor: Seq<PlayerCard>)
    ensures
        cards_of(floor).len() == floor.len(),
    decreases floor.len(),
{
    if floor.len() > 0 {
        lemma_cards_of_len(floor.drop_first());
    }
}

/// Appending a tagged card appends its card.
pub proof fn lemma_cards_of_push(floor: Seq<PlayerCard>, pc: PlayerCard)
    ensures
        cards_of(floor.push(pc)) == cards_of(floor).push(pc.card),
    decreases floor.len(),
{
    if floor.len() == 0 {
        assert(floor.push(pc).drop_first() =~= floor);
        assert(seq![pc.card] + cards_of(floor) =~= cards_of(floor).push(pc.card));
    } else {
        assert(floor.push(pc).drop_first() =~= floor.drop_first().push(pc));
        assert(floor.push(pc)[0] == floor[0]);
        lemma_cards_of_push(floor.drop_first(), pc);
        assert(seq![floor[0].card] + cards_of(floor.drop_first()).push(pc.card) =~= (seq![
            floor[0].card,
        ] + cards_of(floor.drop_first())).push(pc.card));
    }
}

/// A positive card count means some player still holds a card.
pub proof fn lemma_sum_pos_exists(players: Seq<Player>)
    requires
        sum_hand_sizes(players) >= 1,
    ensures
        exists|j: int| 0 <= j < players.len() && (#[trigger] players[j]).deck@.len() > 0,
    decreases players.len(),
{
    if players[0].deck@.len() > 0 {
        assert(players[0].deck@.len() > 0);
    } else {
        lemma_sum_pos_exists(players.drop_first());
        let j = choose|j: int|
            0 <= j < players.drop_first().len() && (#[trigger] players.drop_first(
            )[j]).deck@.len() > 0;
        assert(players.drop_first()[j] == players[j + 1]);
    }
}

/// A player who still holds a card contributes a front card to the draw.
pub proof fn lemma_fronts_nonempty(players: Seq<Player>, j: int)
    requires
        0 <= j < players.len(),
        players[j].deck@.len() > 0,
    ensures
        fronts(players).len() > 0,
    decreases players.len(),
{
    if j > 0 && players[0].deck@.len() == 0 {
        assert(players.drop_first()[j - 1] == players[j]);
        lemma_fronts_nonempty(players.drop_first(), j - 1);
    }
}

/// Drawn front cards of well-formed hands are well formed.
pub proof fn lemma_fronts_wf(players: Seq<Player>)
    requires
        forall|i: int| 0 <= i < players.len() ==> war_hand_wf((#[trigger] players[i]).deck@),
    ensures
        war_floor_wf(fronts(players)),
    decreases players.len(),
{
    if players.len() > 0 {
        assert forall|i: int|
            0 <= i < players.drop_first().len() implies war_hand_wf(
            (#[trigger] players.drop_first()[i]).deck@,
        ) by {
            assert(players.drop_first()[i] == players[i + 1]);
        }
        lemma_fronts_wf(players.drop_first());
        let all = fronts(players);
        let rest = fronts(players.drop_first());
        assert forall|m: int| 0 <= m < all.len() implies (#[trigger] all[m]).card.wf() by {
            if players[0].deck@.len() > 0 {
                if m == 0 {
                    assert(war_hand_wf(players[0].deck@));
                    assert(players[0].deck@[0].wf());
                    assert(all[0].card == players[0].deck@[0]);
                } else {
                    assert(all[m] == rest[m - 1]);
                }
            } else {
                assert(all[m] == rest[m]);
            }
        }
    }
}

/// The draw hands every drawn card the identifier of a distinct seated
/// player.
pub proof fn lemma_fronts_ids_distinct(before: Seq<Player>, after: Seq<Player>)
    requires
        drew_from(before, after),
        forall|a: int, b: int|
            0 <= a < b < before.len() ==> (#[trigger] before[a]).id != (#[trigger] before[b]).id,
    ensures
        forall|a: int, b: int|
            0 <= a < b < fronts(before).len() ==> (#[trigger] fronts(before)[a]).player_id != (
            #[trigger] fronts(before)[b]).player_id,
{
    lemma_drew_from_props(before, after);
    lemma_drew_from_distinct(before, after);
    assert forall|a: int, b: int|
        0 <= a < b < fronts(before).len() implies (#[trigger] fronts(before)[a]).player_id != (
    #[trigger] fronts(before)[b]).player_id by {
        assert(fronts(before)[a].player_id == after[a].id);
        assert(fronts(before)[b].player_id == after[b].id);
    }
}

impl crate::game_common::Game for War {
    /// A game of War stays well formed with all 52 cards spread over at
    /// least one seated player.
    open spec fn inv(&self) -> bool {
        &&& self.wf()
        &&& self.players@.len() >= 1
        &&& sum_hand_sizes(self.players@) == 52
    }

    fn round(&mut self) {
        if self.players.len() >= 2 {
            let _ = self.play_round();
        }
    }

    fn get_players(&self) -> &Vec<Player> {
        &self.players
    }
}

} // verus!
