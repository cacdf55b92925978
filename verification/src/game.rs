use crate::board::Board;
use crate::card::{is_deck, Card};
use crate::configuration::Configuration;
use crate::dealer::{
    cards_played, has_player, in_hands, in_piles, is_arrangement, lemma_hands_change,
    lemma_hands_same, lemma_piles_same, on_board, same_hands, Dealer,
};
use vstd::multiset::Multiset;
use crate::player::{Id, Player, Sight};
use crate::stack::{bull_total, wide_bulls};
use vstd::prelude::*;

verus! {

/// Running of the game.
pub struct Game<D: Dealer, P: Player> {
    pub board: Board,
    pub dealer: D,
    pub players: Vec<P>,
}

/// The score of a player: the bulls of the cards taken.
pub open spec fn score_of<P: Player>(player: P) -> nat {
    bull_total(player.taken())
}

/// Whether another round is to be played: no player has reached the
/// winning score, or the first two players are tied.
pub open spec fn goes_on<P: Player>(players: Seq<P>, config: Configuration) -> bool {
    ||| forall|k: int| 0 <= k < players.len() ==> score_of(#[trigger] players[k]) < config.win_score
    ||| score_of(players[0]) == score_of(players[1])
}

/// Whether the players stand by rising score.
pub open spec fn by_score<P: Player>(players: Seq<P>) -> bool {
    forall|i: int, j: int|
        0 <= i < j < players.len() ==> score_of(#[trigger] players[i]) <= score_of(
            #[trigger] players[j],
        )
}

/// Whether a round can be played: the dealer can make a deck, the deck
/// holds a card for each turn of each player and four for the board, and a
/// stack may hold a card.
pub open spec fn can_play<D: Dealer, P: Player>(
    dealer: D,
    players: Seq<P>,
    config: Configuration,
) -> bool {
    &&& dealer.can_open(config)
    &&& config.stack_size != 0
    &&& config.deck_size >= config.turn_count * players.len() + 4
}

/// Whether the players were put in the order of their scores: `after`
/// holds in place `i` the player that `before` holds in place `places[i]`,
/// the scores rise, and players with the same score stand as they stood.
pub open spec fn ranked<P: Player>(before: Seq<P>, after: Seq<P>, places: Seq<int>) -> bool {
    &&& is_arrangement(places, before.len() as int)
    &&& after.len() == before.len()
    &&& forall|i: int| 0 <= i < after.len() ==> #[trigger] after[i] == before[places[i]]
    &&& forall|i: int, j: int|
        0 <= i < j < after.len() ==> {
            &&& score_of(#[trigger] after[i]) <= score_of(#[trigger] after[j])
            &&& score_of(after[i]) == score_of(after[j]) ==> places[i] < places[j]
        }
}

/// Whether the first `count` players are in the order of their scores and
/// the others stand where they stood.
pub open spec fn ranked_up_to<P: Player>(
    before: Seq<P>,
    after: Seq<P>,
    places: Seq<int>,
    count: int,
) -> bool {
    &&& is_arrangement(places, before.len() as int)
    &&& after.len() == before.len()
    &&& forall|i: int| 0 <= i < after.len() ==> #[trigger] after[i] == before[places[i]]
    &&& forall|i: int| 0 <= i < count ==> #[trigger] places[i] < count
    &&& forall|i: int| count <= i < after.len() ==> #[trigger] places[i] == i
    &&& forall|i: int, j: int|
        0 <= i < j < count ==> {
            &&& score_of(#[trigger] after[i]) <= score_of(#[trigger] after[j])
            &&& score_of(after[i]) == score_of(after[j]) ==> places[i] < places[j]
        }
}

/// One more player is put in order: when the first `count` players are in
/// order and the next one moves behind those with no higher score, the
/// first `count + 1` are in order.
proof fn lemma_rank_one_more<P: Player>(
    before: Seq<P>,
    after: Seq<P>,
    places: Seq<int>,
    count: int,
    at: int,
)
    requires
        0 <= at <= count < after.len(),
        ranked_up_to(before, after, places, count),
        forall|k: int| at <= k < count ==> score_of(after[count]) < score_of(#[trigger] after[k]),
        at > 0 ==> score_of(after[at - 1]) <= score_of(after[count]),
    ensures
        ranked_up_to(
            before,
            after.remove(count).insert(at, after[count]),
            places.remove(count).insert(at, count),
            count + 1,
        ),
{
    let player = after[count];
    let moved = after.remove(count).insert(at, player);
    let seats = places.remove(count).insert(at, count);
    assert(places[count] == count);
    // Where each place of the new order comes from in the old one.
    let from = |i: int|
        if i < at {
            i
        } else if i == at {
            count
        } else if i <= count {
            i - 1
        } else {
            i
        };
    assert forall|i: int| 0 <= i < moved.len() implies #[trigger] moved[i] == after[from(i)]
        && seats[i] == places[from(i)] by {}
    assert forall|i: int| 0 <= i < seats.len() implies 0 <= #[trigger] seats[i] < before.len() by {
        assert(seats[i] == places[from(i)]);
    }
    assert forall|i: int, j: int| 0 <= i < j < seats.len() implies #[trigger] seats[i]
        != #[trigger] seats[j] by {
        assert(seats[i] == places[from(i)]);
        assert(seats[j] == places[from(j)]);
        if from(i) < from(j) {
            assert(places[from(i)] != places[from(j)]);
        } else {
            assert(places[from(j)] != places[from(i)]);
        }
    }
    assert forall|i: int| 0 <= i < moved.len() implies #[trigger] moved[i] == before[seats[i]] by {
        assert(moved[i] == after[from(i)]);
        assert(after[from(i)] == before[places[from(i)]]);
    }
    assert forall|i: int| 0 <= i < count + 1 implies #[trigger] seats[i] < count + 1 by {
        assert(seats[i] == places[from(i)]);
    }
    assert forall|i: int| count + 1 <= i < moved.len() implies #[trigger] seats[i] == i by {
        assert(seats[i] == places[from(i)]);
    }
    assert forall|i: int, j: int| 0 <= i < j < count + 1 implies {
        &&& score_of(#[trigger] moved[i]) <= score_of(#[trigger] moved[j])
        &&& score_of(moved[i]) == score_of(moved[j]) ==> seats[i] < seats[j]
    } by {
        assert(moved[i] == after[from(i)] && seats[i] == places[from(i)]);
        assert(moved[j] == after[from(j)] && seats[j] == places[from(j)]);
        if j == at {
            assert(places[from(i)] < count);
            if i < at - 1 {
                assert(score_of(after[i]) <= score_of(after[at - 1]));
            }
        } else if i == at {
            assert(score_of(after[count]) < score_of(after[from(j)]));
        } else {
            assert(score_of(after[from(i)]) <= score_of(after[from(j)]));
        }
    }
}

/// Puts the players in the order of their scores, the lowest first.
/// Players with the same score keep their order.
pub fn sort_by_score<P: Player>(players: &mut Vec<P>)
    ensures
        exists|places: Seq<int>| ranked(old(players)@, final(players)@, places),
        by_score(final(players)@),
        final(players)@.to_multiset() == old(players)@.to_multiset(),
        final(players)@.len() == old(players)@.len(),
{
    let ghost mut places: Seq<int> = Seq::new(players@.len(), |i: int| i);
    let mut i: usize = 0;
    while i < players.len()
        invariant
            i <= players@.len(),
            players@.len() == old(players)@.len(),
            players@.to_multiset() == old(players)@.to_multiset(),
            ranked_up_to(old(players)@, players@, places, i as int),
        decreases players.len() - i,
    {
        let ghost before = players@;
        let ghost seats = places;
        let player = players.remove(i);
        let ghost without = players@;
        let score = wide_bulls(player.pile());
        let mut at: usize = i;
        while at > 0 && wide_bulls(players[at - 1].pile()) > score
            invariant
                at <= i <= players@.len(),
                players@ == without,
                score == score_of(player),
                forall|k: int| at <= k < i ==> score < score_of(#[trigger] players@[k]),
            decreases at,
        {
            at -= 1;
        }
        players.insert(at, player);
        proof {
            places = seats.remove(i as int).insert(at as int, i as int);
            vstd::seq_lib::to_multiset_remove(before, i as int);
            vstd::seq_lib::to_multiset_insert(without, at as int, player);
            vstd::seq_lib::to_multiset_contains(before, player);
            assert(before.contains(before[i as int]));
            assert(before.to_multiset().remove(player).insert(player) =~= before.to_multiset());
            assert forall|k: int| at <= k < i implies score_of(before[i as int]) < score_of(
                #[trigger] before[k],
            ) by {
                assert(without[k] == before[k]);
            }
            if at > 0 {
                assert(without[at - 1] == before[at - 1]);
            }
            lemma_rank_one_more(old(players)@, before, seats, i as int, at as int);
        }
        i += 1;
    }
    proof {
        assert(ranked(old(players)@, players@, places));
        assert forall|a: int, b: int| 0 <= a < b < players@.len() implies score_of(
            #[trigger] players@[a],
        ) <= score_of(#[trigger] players@[b]) by {}
    }
}

/// The cards that are in the game: those on the board, in the piles and in
/// the hands.
pub open spec fn in_play<P: Player>(stacks: Seq<Seq<Card>>, players: Seq<P>) -> Multiset<Card> {
    on_board(stacks).add(in_piles(players)).add(in_hands(players))
}

/// When one player plays a card from the hand and the other hands stay,
/// the hands hold that card less.
pub proof fn lemma_card_played<P: Player>(before: Seq<P>, after: Seq<P>, k: int, card: Card)
    requires
        after.len() == before.len(),
        0 <= k < before.len(),
        before[k].holding().to_multiset() == after[k].holding().to_multiset().insert(card),
        forall|j: int|
            0 <= j < before.len() && j != k ==> (#[trigger] after[j]).holding()
                == before[j].holding(),
    ensures
        in_hands(before) == in_hands(after).insert(card),
{
    broadcast use vstd::multiset::group_multiset_axioms;

    lemma_hands_change(before, after, k);
    let left = in_hands(after).add(before[k].holding().to_multiset());
    let right = in_hands(before).add(after[k].holding().to_multiset());
    assert forall|other: Card|
        in_hands(before).count(other) == in_hands(after).insert(card).count(other) by {
        assert(left.count(other) == right.count(other));
        assert(before[k].holding().to_multiset().count(other)
            == after[k].holding().to_multiset().insert(card).count(other));
    }
    assert(in_hands(before) =~= in_hands(after).insert(card));
}

/// Lets every player look at the board and play a card. Returns the cards
/// in the order of the players, each with the id of the player who played
/// it.
pub fn play_cards<P: Player>(players: &mut Vec<P>, board: &Board) -> (played: Vec<(Card, Id)>)
    requires
        board.ready(),
        forall|k: int|
            0 <= k < old(players)@.len() ==> (#[trigger] old(players)@[k]).holding().len() > 0,
    ensures
        final(players)@.len() == old(players)@.len(),
        played@.len() == old(players)@.len(),
        forall|k: int|
            0 <= k < old(players)@.len() ==> {
                &&& (#[trigger] final(players)@[k]).ident() == old(players)@[k].ident()
                &&& final(players)@[k].taken() == old(players)@[k].taken()
                &&& final(players)@[k].holding().len() == old(players)@[k].holding().len() - 1
                &&& old(players)@[k].holding().to_multiset()
                    == final(players)@[k].holding().to_multiset().insert(played@[k].0)
                &&& played@[k].1 == old(players)@[k].ident()
            },
        in_piles(final(players)@) == in_piles(old(players)@),
        in_hands(old(players)@) == in_hands(final(players)@).add(cards_played(played@)),
{
    let mut played: Vec<(Card, Id)> = Vec::new();
    let mut k: usize = 0;
    proof {
        broadcast use vstd::multiset::group_multiset_axioms;

        let none = played@.map_values(|entry: (Card, Id)| entry.0);
        assert(none == Seq::<Card>::empty());
        none.to_multiset_ensures();
        assert(cards_played(played@) =~= Multiset::<Card>::empty());
        assert(in_hands(players@).add(cards_played(played@)) =~= in_hands(players@));
    }
    while k < players.len()
        invariant
            k <= players@.len(),
            players@.len() == old(players)@.len(),
            board.ready(),
            played@.len() == k,
            forall|j: int|
                0 <= j < k ==> {
                    &&& (#[trigger] players@[j]).ident() == old(players)@[j].ident()
                    &&& players@[j].taken() == old(players)@[j].taken()
                    &&& players@[j].holding().len() == old(players)@[j].holding().len() - 1
                    &&& old(players)@[j].holding().to_multiset()
                        == players@[j].holding().to_multiset().insert(played@[j].0)
                    &&& played@[j].1 == old(players)@[j].ident()
                },
            forall|j: int| k <= j < players@.len() ==> #[trigger] players@[j] == old(players)@[j],
            forall|j: int|
                0 <= j < old(players)@.len() ==> (#[trigger] old(players)@[j]).holding().len() > 0,
            in_hands(old(players)@) == in_hands(players@).add(cards_played(played@)),
        decreases players.len() - k,
    {
        let ghost folk = players@;
        let ghost cards = played@;
        assert(players@[k as int] == old(players)@[k as int]);
        players[k].look_at_board(board);
        let card = players[k].play();
        let id = players[k].id();
        played.push((card, id));
        proof {
            broadcast use vstd::multiset::group_multiset_axioms;

            lemma_card_played(folk, players@, k as int, card);
            let card_of = |entry: (Card, Id)| entry.0;
            assert(played@.map_values(card_of) == cards.map_values(card_of).push(card));
            vstd::seq_lib::to_multiset_build(cards.map_values(card_of), card);
            assert(in_hands(old(players)@) =~= in_hands(players@).add(cards_played(played@)));
        }
        k += 1;
    }
    proof {
        lemma_piles_same(old(players)@, players@);
    }
    played
}

/// Shows every player the cards played; nothing else of them changes.
pub fn show_played<P: Player>(players: &mut Vec<P>, played: &Vec<(Card, Id)>)
    ensures
        final(players)@.len() == old(players)@.len(),
        forall|k: int|
            0 <= k < old(players)@.len() ==> {
                &&& (#[trigger] final(players)@[k]).ident() == old(players)@[k].ident()
                &&& final(players)@[k].holding() == old(players)@[k].holding()
                &&& final(players)@[k].taken() == old(players)@[k].taken()
                &&& final(players)@[k].seen() == old(players)@[k].seen().push(
                    Sight::Played(played@),
                )
            },
        in_piles(final(players)@) == in_piles(old(players)@),
        in_hands(final(players)@) == in_hands(old(players)@),
{
    let mut k: usize = 0;
    while k < players.len()
        invariant
            k <= players@.len(),
            players@.len() == old(players)@.len(),
            forall|j: int|
                0 <= j < players@.len() ==> {
                    &&& (#[trigger] players@[j]).ident() == old(players)@[j].ident()
                    &&& players@[j].holding() == old(players)@[j].holding()
                    &&& players@[j].taken() == old(players)@[j].taken()
                    &&& players@[j].seen() == if j < k {
                        old(players)@[j].seen().push(Sight::Played(played@))
                    } else {
                        old(players)@[j].seen()
                    }
                },
        decreases players.len() - k,
    {
        players[k].look_at_played(played.as_slice());
        k += 1;
    }
    proof {
        lemma_piles_same(old(players)@, players@);
        lemma_hands_same(old(players)@, players@);
    }
}

/// Whether a round leads from one game to another. The players are who
/// they were, each holds as many cards as before, and the piles have
/// grown. Every stack of the board holds a card. The cards that were on the
/// board are cleared away, and no other card is lost: the board, the piles,
/// the hands and what is left of the deck hold the deck that was opened and
/// what the piles and the hands held. Another round can be played.
pub open spec fn is_round<D: Dealer, P: Player>(
    before: Game<D, P>,
    after: Game<D, P>,
    config: Configuration,
) -> bool {
    &&& can_play(after.dealer, after.players@, config)
    &&& after.board.ready()
    &&& after.players@.len() == before.players@.len()
    &&& forall|k: int|
        0 <= k < before.players@.len() ==> {
            &&& (#[trigger] after.players@[k]).ident() == before.players@[k].ident()
            &&& after.players@[k].holding().len() == before.players@[k].holding().len()
            &&& before.players@[k].taken().is_prefix_of(after.players@[k].taken())
        }
    &&& exists|deck: Seq<Card>|
        {
            &&& #[trigger] is_deck(deck, config)
            &&& in_play(after.board@, after.players@).add(after.dealer.deck().to_multiset())
                == in_piles(before.players@).add(in_hands(before.players@)).add(
                deck.to_multiset(),
            )
        }
}

/// Whether the players of a game were put in the order of their scores,
/// and nothing else of the game has changed.
pub open spec fn is_ranking<D: Dealer, P: Player>(before: Game<D, P>, after: Game<D, P>) -> bool {
    &&& after.board == before.board
    &&& after.dealer == before.dealer
    &&& exists|places: Seq<int>| ranked(before.players@, after.players@, places)
}

/// Whether a number of rounds lead from one game to another: each round is
/// played in a game that goes on, and after each round the players are put
/// in the order of their scores.
pub open spec fn rounds_played<D: Dealer, P: Player>(
    start: Game<D, P>,
    count: nat,
    config: Configuration,
    end: Game<D, P>,
) -> bool
    decreases count,
{
    if count == 0 {
        end == start
    } else {
        exists|before: Game<D, P>, played: Game<D, P>|
            {
                &&& rounds_played(start, (count - 1) as nat, config, before)
                &&& goes_on(before.players@, config)
                &&& #[trigger] is_round(before, played, config)
                &&& is_ranking(played, end)
            }
    }
}

/// Whether some players are those that there were, in some order: the
/// player in place `i` is the one that stood in place `places[i]`, with
/// the same id, as many cards in the hand, and a pile that has grown.
pub open spec fn same_folk<P: Player>(before: Seq<P>, after: Seq<P>, places: Seq<int>) -> bool {
    &&& is_arrangement(places, before.len() as int)
    &&& after.len() == before.len()
    &&& forall|i: int|
        0 <= i < after.len() ==> {
            &&& (#[trigger] after[i]).ident() == before[places[i]].ident()
            &&& after[i].holding().len() == before[places[i]].holding().len()
            &&& before[places[i]].taken().is_prefix_of(after[i].taken())
        }
}

/// The players are still those that there were after one more round and
/// its ranking.
pub proof fn lemma_folk_after_round<P: Player>(
    first: Seq<P>,
    before: Seq<P>,
    places: Seq<int>,
    played: Seq<P>,
    end: Seq<P>,
    ranks: Seq<int>,
)
    requires
        same_folk(first, before, places),
        played.len() == before.len(),
        forall|k: int|
            0 <= k < before.len() ==> {
                &&& (#[trigger] played[k]).ident() == before[k].ident()
                &&& played[k].holding().len() == before[k].holding().len()
                &&& before[k].taken().is_prefix_of(played[k].taken())
            },
        ranked(played, end, ranks),
    ensures
        same_folk(first, end, Seq::new(first.len(), |i: int| places[ranks[i]])),
{
    let seats = Seq::new(first.len(), |i: int| places[ranks[i]]);
    assert forall|i: int| 0 <= i < seats.len() implies 0 <= #[trigger] seats[i] < first.len() by {
        assert(0 <= ranks[i] < first.len());
        assert(0 <= places[ranks[i]] < first.len());
    }
    assert forall|i: int, j: int| 0 <= i < j < seats.len() implies #[trigger] seats[i]
        != #[trigger] seats[j] by {
        assert(ranks[i] != ranks[j]);
        if ranks[i] < ranks[j] {
            assert(places[ranks[i]] != places[ranks[j]]);
        } else {
            assert(places[ranks[j]] != places[ranks[i]]);
        }
    }
    assert forall|i: int| 0 <= i < end.len() implies {
        &&& (#[trigger] end[i]).ident() == first[seats[i]].ident()
        &&& end[i].holding().len() == first[seats[i]].holding().len()
        &&& first[seats[i]].taken().is_prefix_of(end[i].taken())
    } by {
        let k = ranks[i];
        assert(0 <= k < first.len());
        assert(end[i] == played[k]);
        assert(played[k].ident() == before[k].ident());
        assert(before[k].ident() == first[places[k]].ident());
        assert(first[places[k]].taken().is_prefix_of(before[k].taken()));
        assert(before[k].taken().is_prefix_of(played[k].taken()));
    }
}

impl<D: Dealer, P: Player> Game<D, P> {
    /// Creates a new game with an empty board.
    pub fn new(dealer: D, players: Vec<P>) -> (game: Game<D, P>)
        ensures
            game.dealer == dealer,
            game.players == players,
            game.board@ == Seq::new(4, |i: int| Seq::<Card>::empty()),
    {
        Game { board: Board::default(), dealer, players }
    }

    /// Returns whether another round is to be played.
    pub fn goes_on(&self, config: &Configuration) -> (more: bool)
        requires
            self.players@.len() >= 2,
        ensures
            more == goes_on(self.players@, *config),
    {
        let mut k: usize = 0;
        let mut all_below = true;
        while k < self.players.len()
            invariant
                k <= self.players@.len(),
                all_below == forall|j: int|
                    0 <= j < k ==> score_of(#[trigger] self.players@[j]) < config.win_score,
            decreases self.players.len() - k,
        {
            if wide_bulls(self.players[k].pile()) >= config.win_score as u128 {
                all_below = false;
            }
            k += 1;
        }
        all_below || wide_bulls(self.players[0].pile()) == wide_bulls(self.players[1].pile())
    }

    /// Plays a turn: every player looks at the board and plays a card, all
    /// look at the cards played, and the dealer stacks them. No card is
    /// lost: the board, the piles and the hands hold what they held.
    pub fn turn(&mut self, config: &Configuration)
        requires
            old(self).board.ready(),
            config.stack_size != 0,
            forall|k: int|
                0 <= k < old(self).players@.len() ==> (
                #[trigger] old(self).players@[k]).holding().len() > 0,
        ensures
            final(self).board.ready(),
            final(self).players@.len() == old(self).players@.len(),
            final(self).dealer.deck() == old(self).dealer.deck(),
            forall|config: Configuration|
                old(self).dealer.can_open(config) ==> final(self).dealer.can_open(config),
            forall|k: int|
                0 <= k < old(self).players@.len() ==> {
                    &&& (#[trigger] final(self).players@[k]).ident()
                        == old(self).players@[k].ident()
                    &&& final(self).players@[k].holding().len()
                        == old(self).players@[k].holding().len() - 1
                    &&& old(self).players@[k].taken().is_prefix_of(final(self).players@[k].taken())
                },
            in_play(final(self).board@, final(self).players@) == in_play(
                old(self).board@,
                old(self).players@,
            ),
    {
        let played = play_cards(&mut self.players, &self.board);
        let ghost cards = cards_played(played@);
        let ghost folk = self.players@;
        show_played(&mut self.players, &played);
        let ghost shown = self.players@;
        proof {
            assert forall|i: int| 0 <= i < played@.len() implies has_player(
                self.players@,
                (#[trigger] played@[i]).1,
            ) by {
                assert(self.players@[i].ident() == played@[i].1);
            }
        }
        self.dealer.stack(&mut self.board, played, &mut self.players, config);
        proof {
            broadcast use vstd::multiset::group_multiset_axioms;

            assert(same_hands(shown, self.players@));
            let first = old(self).players@;
            assert forall|k: int| 0 <= k < first.len() implies first[k].taken().is_prefix_of(
                (#[trigger] self.players@[k]).taken(),
            ) by {
                assert(shown[k].taken().is_prefix_of(self.players@[k].taken()));
            }
            assert(in_play(self.board@, self.players@) =~= in_play(
                old(self).board@,
                old(self).players@,
            ));
        }
    }

    /// Plays a round: the dealer opens a deck, deals the hands and flips
    /// the first cards, and then the turns of the round are played. The
    /// cards that were on the board are cleared away. No other card is
    /// lost: the board, the piles, the hands and what is left of the deck
    /// hold the deck that was opened and what the piles and the hands held.
    pub fn round(&mut self, config: &Configuration)
        requires
            can_play(old(self).dealer, old(self).players@, *config),
        ensures
            is_round(*old(self), *final(self), *config),
    {
        let ghost count = self.players@.len();
        self.dealer.open(config);
        let ghost deck = self.dealer.deck();
        let ghost start = in_piles(self.players@).add(in_hands(self.players@)).add(
            deck.to_multiset(),
        );
        proof {
            assert(config.turn_count * count + 4 <= config.deck_size);
        }
        self.dealer.deals(&mut self.players, config);
        let ghost dealt = self.dealer.deck();
        self.dealer.flip(&mut self.board, config);
        proof {
            broadcast use vstd::multiset::group_multiset_axioms;

            let hands = in_hands(self.players@);
            let left = hands.add(dealt.to_multiset());
            let right = in_hands(old(self).players@).add(deck.to_multiset());
            let flipped = on_board(self.board@).add(self.dealer.deck().to_multiset());
            assert forall|card: Card|
                in_play(self.board@, self.players@).add(
                    self.dealer.deck().to_multiset(),
                ).count(card) == start.count(card) by {
                assert(left.count(card) == right.count(card));
                assert(flipped.count(card) == dealt.to_multiset().count(card));
            }
            assert(in_play(self.board@, self.players@).add(self.dealer.deck().to_multiset())
                =~= start);
        }
        let mut turn: usize = 0;
        while turn < config.turn_count
            invariant
                turn <= config.turn_count,
                count == old(self).players@.len(),
                self.players@.len() == count,
                self.board.ready(),
                self.dealer.can_open(*config),
                config.stack_size != 0,
                forall|k: int|
                    0 <= k < count ==> {
                        &&& (#[trigger] self.players@[k]).ident() == old(self).players@[k].ident()
                        &&& self.players@[k].holding().len() + turn
                            == old(self).players@[k].holding().len() + config.turn_count
                        &&& old(self).players@[k].taken().is_prefix_of(self.players@[k].taken())
                    },
                in_play(self.board@, self.players@).add(self.dealer.deck().to_multiset()) == start,
            decreases config.turn_count - turn,
        {
            let ghost folk = self.players@;
            self.turn(config);
            proof {
                let first = old(self).players@;
                assert forall|k: int| 0 <= k < count implies first[k].taken().is_prefix_of(
                    (#[trigger] self.players@[k]).taken(),
                ) by {
                    assert(folk[k].taken().is_prefix_of(self.players@[k].taken()));
                }
            }
            turn += 1;
        }
        assert(is_deck(deck, *config));
    }

    /// Runs the game: plays rounds until one player at least has reached
    /// the winning score and the two players with the lowest scores are not
    /// tied, or until the given number of rounds is played. After each
    /// round the players are put in the order of their scores. Returns
    /// whether the game is over.
    pub fn run(&mut self, config: &Configuration, rounds: usize) -> (over: bool)
        requires
            old(self).players@.len() >= 2,
            can_play(old(self).dealer, old(self).players@, *config),
        ensures
            over == !goes_on(final(self).players@, *config),
            exists|count: nat|
                {
                    &&& count <= rounds
                    &&& #[trigger] rounds_played(*old(self), count, *config, *final(self))
                    &&& count == rounds || over
                    &&& count > 0 ==> by_score(final(self).players@)
                },
            exists|places: Seq<int>| same_folk(old(self).players@, final(self).players@, places),
            final(self).players@.len() == old(self).players@.len(),
            can_play(final(self).dealer, final(self).players@, *config),
    {
        let mut left = rounds;
        let ghost mut count: nat = 0;
        let ghost mut places: Seq<int> = Seq::new(self.players@.len(), |i: int| i);
        while left > 0 && self.goes_on(config)
            invariant
                self.players@.len() == old(self).players@.len(),
                self.players@.len() >= 2,
                can_play(self.dealer, self.players@, *config),
                count + left == rounds,
                rounds_played(*old(self), count, *config, *self),
                count > 0 ==> by_score(self.players@),
                same_folk(old(self).players@, self.players@, places),
            decreases left,
        {
            let ghost before = *self;
            self.round(config);
            let ghost played = *self;
            sort_by_score(&mut self.players);
            proof {
                let ranks = choose|ranks: Seq<int>| ranked(played.players@, self.players@, ranks);
                lemma_folk_after_round(
                    old(self).players@,
                    before.players@,
                    places,
                    played.players@,
                    self.players@,
                    ranks,
                );
                places = Seq::new(self.players@.len(), |i: int| places[ranks[i]]);
                assert(is_ranking(played, *self));
                assert(is_round(before, played, *config));
                count = count + 1;
                assert(rounds_played(*old(self), count, *config, *self));
            }
            left -= 1;
        }
        !self.goes_on(config)
    }
}

} // verus!
