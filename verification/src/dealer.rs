use crate::board::{fits, is_closest_smaller, Board, StackId};
use crate::card::{is_deck, Card};
use crate::configuration::Configuration;
use crate::player::{Id, Player, Sight};
use vstd::multiset::Multiset;
use vstd::prelude::*;

verus! {

/// Whether some player has the given id.
pub open spec fn has_player<P: Player>(players: Seq<P>, id: Id) -> bool {
    exists|k: int| 0 <= k < players.len() && (#[trigger] players[k]).ident() == id
}

/// Whether the players are who they were and hold what they held. Their
/// piles may have grown.
pub open spec fn same_hands<P: Player>(before: Seq<P>, after: Seq<P>) -> bool {
    &&& after.len() == before.len()
    &&& forall|k: int|
        0 <= k < before.len() ==> {
            &&& (#[trigger] after[k]).ident() == before[k].ident()
            &&& after[k].holding() == before[k].holding()
            &&& before[k].taken().is_prefix_of(after[k].taken())
        }
}

/// All the cards of some sequences of cards.
pub open spec fn heap(piles: Seq<Seq<Card>>) -> Multiset<Card>
    decreases piles.len(),
{
    if piles.len() == 0 {
        Multiset::empty()
    } else {
        heap(piles.drop_last()).add(piles.last().to_multiset())
    }
}

/// The cards on a board.
pub open spec fn on_board(stacks: Seq<Seq<Card>>) -> Multiset<Card> {
    heap(stacks)
}

/// The piles of some players.
pub open spec fn piles_of<P: Player>(players: Seq<P>) -> Seq<Seq<Card>> {
    Seq::new(players.len(), |k: int| players[k].taken())
}

/// The hands of some players.
pub open spec fn hands_of<P: Player>(players: Seq<P>) -> Seq<Seq<Card>> {
    Seq::new(players.len(), |k: int| players[k].holding())
}

/// The cards in the piles of some players.
pub open spec fn in_piles<P: Player>(players: Seq<P>) -> Multiset<Card> {
    heap(piles_of(players))
}

/// The cards in the hands of some players.
pub open spec fn in_hands<P: Player>(players: Seq<P>) -> Multiset<Card> {
    heap(hands_of(players))
}

/// The cards that were played, without the ids that came with them.
pub open spec fn cards_played(played: Seq<(Card, Id)>) -> Multiset<Card> {
    played.map_values(|entry: (Card, Id)| entry.0).to_multiset()
}

/// When one of some sequences of cards is changed for other cards, the
/// sequences and the cards that were changed hold what the sequences held
/// and the other cards.
pub proof fn lemma_heap_change(piles: Seq<Seq<Card>>, k: int, cards: Seq<Card>)
    requires
        0 <= k < piles.len(),
    ensures
        heap(piles.update(k, cards)).add(piles[k].to_multiset()) == heap(piles).add(
            cards.to_multiset(),
        ),
    decreases piles.len(),
{
    broadcast use vstd::multiset::group_multiset_axioms;

    let changed = piles.update(k, cards);
    let n = piles.len() - 1;
    if k == n {
        assert(changed.drop_last() == piles.drop_last());
        assert(changed.last() == cards);
        assert(piles.last() == piles[k]);
    } else {
        assert(changed.drop_last() == piles.drop_last().update(k, cards));
        assert(piles.drop_last()[k] == piles[k]);
        assert(changed.last() == piles.last());
        lemma_heap_change(piles.drop_last(), k, cards);
    }
    assert(heap(changed) == heap(changed.drop_last()).add(changed.last().to_multiset()));
    assert(heap(piles) == heap(piles.drop_last()).add(piles.last().to_multiset()));
    assert forall|card: Card|
        heap(changed).add(piles[k].to_multiset()).count(card) == heap(piles).add(
            cards.to_multiset(),
        ).count(card) by {
        if k != n {
            let left = heap(piles.drop_last().update(k, cards)).add(piles[k].to_multiset());
            let right = heap(piles.drop_last()).add(cards.to_multiset());
            assert(left.count(card) == right.count(card));
        }
    }
    assert(heap(changed).add(piles[k].to_multiset()) =~= heap(piles).add(cards.to_multiset()));
}

/// The piles hold the same cards when each player's pile is what it was.
pub proof fn lemma_piles_same<P: Player>(before: Seq<P>, after: Seq<P>)
    requires
        after.len() == before.len(),
        forall|j: int| 0 <= j < before.len() ==> (#[trigger] after[j]).taken() == before[j].taken(),
    ensures
        in_piles(after) == in_piles(before),
{
    assert(piles_of(after) =~= piles_of(before));
}

/// When one player takes some cards and the other piles stay, the piles
/// hold those cards more.
pub proof fn lemma_piles_grow<P: Player>(before: Seq<P>, after: Seq<P>, k: int, cards: Seq<Card>)
    requires
        after.len() == before.len(),
        0 <= k < before.len(),
        after[k].taken() == before[k].taken() + cards,
        forall|j: int|
            0 <= j < before.len() && j != k ==> (#[trigger] after[j]).taken() == before[j].taken(),
    ensures
        in_piles(after) == in_piles(before).add(cards.to_multiset()),
{
    broadcast use vstd::multiset::group_multiset_axioms;

    let pile = before[k].taken();
    assert(piles_of(after) =~= piles_of(before).update(k, pile + cards));
    lemma_heap_change(piles_of(before), k, pile + cards);
    vstd::seq_lib::lemma_multiset_commutative(pile, cards);
    assert(piles_of(before)[k] == pile);
    let left = heap(piles_of(after)).add(pile.to_multiset());
    let right = heap(piles_of(before)).add((pile + cards).to_multiset());
    assert forall|card: Card|
        in_piles(after).count(card) == in_piles(before).add(cards.to_multiset()).count(card) by {
        assert(left.count(card) == right.count(card));
    }
    assert(in_piles(after) =~= in_piles(before).add(cards.to_multiset()));
}

/// The hands hold the same cards when each player's hand is what it was.
pub proof fn lemma_hands_same<P: Player>(before: Seq<P>, after: Seq<P>)
    requires
        after.len() == before.len(),
        forall|j: int|
            0 <= j < before.len() ==> (#[trigger] after[j]).holding() == before[j].holding(),
    ensures
        in_hands(after) == in_hands(before),
{
    assert(hands_of(after) =~= hands_of(before));
}

/// When the hand of one player changes and the other hands stay, the hands
/// and the cards that the player held hold what the hands held and the
/// cards that the player holds.
pub proof fn lemma_hands_change<P: Player>(before: Seq<P>, after: Seq<P>, k: int)
    requires
        after.len() == before.len(),
        0 <= k < before.len(),
        forall|j: int|
            0 <= j < before.len() && j != k ==> (#[trigger] after[j]).holding()
                == before[j].holding(),
    ensures
        in_hands(after).add(before[k].holding().to_multiset()) == in_hands(before).add(
            after[k].holding().to_multiset(),
        ),
{
    assert(hands_of(after) =~= hands_of(before).update(k, after[k].holding()));
    lemma_heap_change(hands_of(before), k, after[k].holding());
}

/// A board with a card more on one of its stacks holds that card more.
pub proof fn lemma_board_gains(stacks: Seq<Seq<Card>>, place: int, card: Card)
    requires
        0 <= place < stacks.len(),
    ensures
        on_board(stacks.update(place, stacks[place].push(card))) == on_board(stacks).insert(card),
{
    broadcast use vstd::multiset::group_multiset_axioms;

    let stack = stacks[place];
    let after = stacks.update(place, stack.push(card));
    lemma_heap_change(stacks, place, stack.push(card));
    vstd::seq_lib::to_multiset_build(stack, card);
    let left = heap(after).add(stack.to_multiset());
    let right = heap(stacks).add(stack.push(card).to_multiset());
    assert forall|other: Card|
        on_board(after).count(other) == on_board(stacks).insert(card).count(other) by {
        assert(left.count(other) == right.count(other));
    }
    assert(on_board(after) =~= on_board(stacks).insert(card));
}

/// A board on which a card stands for a stack, and the cards of that
/// stack, hold what the board held and the card.
pub proof fn lemma_board_swaps(stacks: Seq<Seq<Card>>, place: int, card: Card)
    requires
        0 <= place < stacks.len(),
    ensures
        on_board(stacks.update(place, seq![card])).add(stacks[place].to_multiset()) == on_board(
            stacks,
        ).insert(card),
{
    broadcast use vstd::multiset::group_multiset_axioms;

    lemma_heap_change(stacks, place, seq![card]);
    lemma_single_card(card);
    let after = stacks.update(place, seq![card]);
    assert(on_board(after).add(stacks[place].to_multiset()) =~= on_board(stacks).insert(card));
}

/// When a board gave up some cards for one card and the piles took those
/// cards, the board and the piles hold what they held and the one card.
pub proof fn lemma_taken_over(
    board: Multiset<Card>,
    board_before: Multiset<Card>,
    piles: Multiset<Card>,
    piles_before: Multiset<Card>,
    cards: Multiset<Card>,
    card: Card,
)
    requires
        board.add(cards) == board_before.insert(card),
        piles == piles_before.add(cards),
    ensures
        board.add(piles) == board_before.add(piles_before).insert(card),
{
    broadcast use vstd::multiset::group_multiset_axioms;

    assert forall|other: Card|
        board.add(piles).count(other) == board_before.add(piles_before).insert(card).count(
            other,
        ) by {
        assert(board.add(cards).count(other) == board_before.insert(card).count(other));
        assert(piles.count(other) == piles_before.add(cards).count(other));
        assert(board.add(cards).count(other) == board.count(other) + cards.count(other));
        assert(piles_before.add(cards).count(other) == piles_before.count(other) + cards.count(
            other,
        ));
        assert(board.add(piles).count(other) == board.count(other) + piles.count(other));
        assert(board_before.add(piles_before).count(other) == board_before.count(other)
            + piles_before.count(other));
        if other == card {
            assert(board_before.insert(card).count(other) == board_before.count(other) + 1);
            assert(board_before.add(piles_before).insert(card).count(other) == board_before.add(
                piles_before,
            ).count(other) + 1);
        } else {
            assert(board_before.insert(card).count(other) == board_before.count(other));
            assert(board_before.add(piles_before).insert(card).count(other) == board_before.add(
                piles_before,
            ).count(other));
        }
    }
    assert(board.add(piles) =~= board_before.add(piles_before).insert(card));
}

/// When a card goes from the top of a deck into the hand of one player,
/// the hands and the deck hold what they held.
pub proof fn lemma_card_dealt<P: Player>(before: Seq<P>, after: Seq<P>, k: int, deck: Seq<Card>)
    requires
        deck.len() > 0,
        after.len() == before.len(),
        0 <= k < before.len(),
        after[k].holding() == before[k].holding().push(deck.last()),
        forall|j: int|
            0 <= j < before.len() && j != k ==> (#[trigger] after[j]).holding()
                == before[j].holding(),
    ensures
        in_hands(after).add(deck.drop_last().to_multiset()) == in_hands(before).add(
            deck.to_multiset(),
        ),
{
    broadcast use vstd::multiset::group_multiset_axioms;

    let card = deck.last();
    let held = before[k].holding();
    lemma_hands_change(before, after, k);
    vstd::seq_lib::to_multiset_build(held, card);
    vstd::seq_lib::to_multiset_build(deck.drop_last(), card);
    assert(deck.drop_last().push(card) == deck);
    let left = in_hands(after).add(held.to_multiset());
    let right = in_hands(before).add(held.push(card).to_multiset());
    assert forall|other: Card|
        in_hands(after).add(deck.drop_last().to_multiset()).count(other) == in_hands(before).add(
            deck.to_multiset(),
        ).count(other) by {
        assert(left.count(other) == right.count(other));
        assert(held.push(card).to_multiset().count(other) == held.to_multiset().insert(
            card,
        ).count(other));
        assert(deck.to_multiset().count(other) == deck.drop_last().to_multiset().insert(
            card,
        ).count(other));
    }
    assert(in_hands(after).add(deck.drop_last().to_multiset()) =~= in_hands(before).add(
        deck.to_multiset(),
    ));
}

/// When a card goes from the top of a deck onto a stack of a board, the
/// board and the deck hold what they held.
pub proof fn lemma_card_flipped(stacks: Seq<Seq<Card>>, place: int, deck: Seq<Card>)
    requires
        deck.len() > 0,
        0 <= place < stacks.len(),
    ensures
        on_board(stacks.update(place, stacks[place].push(deck.last()))).add(
            deck.drop_last().to_multiset(),
        ) == on_board(stacks).add(deck.to_multiset()),
{
    broadcast use vstd::multiset::group_multiset_axioms;

    let card = deck.last();
    lemma_board_gains(stacks, place, card);
    vstd::seq_lib::to_multiset_build(deck.drop_last(), card);
    assert(deck.drop_last().push(card) == deck);
    let after = stacks.update(place, stacks[place].push(card));
    assert forall|other: Card|
        on_board(after).add(deck.drop_last().to_multiset()).count(other) == on_board(stacks).add(
            deck.to_multiset(),
        ).count(other) by {
        assert(deck.to_multiset().count(other) == deck.drop_last().to_multiset().insert(
            card,
        ).count(other));
    }
    assert(on_board(after).add(deck.drop_last().to_multiset()) =~= on_board(stacks).add(
        deck.to_multiset(),
    ));
}

/// A board with empty stacks holds no card.
pub proof fn lemma_board_empty(stacks: Seq<Seq<Card>>)
    requires
        forall|i: int| 0 <= i < stacks.len() ==> (#[trigger] stacks[i]).len() == 0,
    ensures
        on_board(stacks) == Multiset::<Card>::empty(),
    decreases stacks.len(),
{
    broadcast use vstd::multiset::group_multiset_axioms;

    if stacks.len() > 0 {
        assert forall|i: int| 0 <= i < stacks.len() - 1 implies (
        #[trigger] stacks.drop_last()[i]).len() == 0 by {
            assert(stacks.drop_last()[i] == stacks[i]);
        }
        lemma_board_empty(stacks.drop_last());
        assert(stacks.last() == stacks[stacks.len() - 1]);
        stacks.last().to_multiset_ensures();
        assert(stacks.last() == Seq::<Card>::empty());
        assert(stacks.last().to_multiset() =~= Multiset::<Card>::empty());
        assert(on_board(stacks) =~= Multiset::<Card>::empty());
    }
}

/// One card alone is that card once.
pub proof fn lemma_single_card(card: Card)
    ensures
        seq![card].to_multiset() == Multiset::<Card>::empty().insert(card),
{
    broadcast use vstd::multiset::group_multiset_axioms;

    vstd::seq_lib::to_multiset_build(Seq::<Card>::empty(), card);
    assert(Seq::<Card>::empty().push(card) == seq![card]);
    Seq::<Card>::empty().to_multiset_ensures();
    assert(Seq::<Card>::empty().to_multiset() =~= Multiset::<Card>::empty());
}

/// Whether the cards come by rising value.
pub open spec fn rising(played: Seq<(Card, Id)>) -> bool {
    forall|i: int, j: int|
        0 <= i < j < played.len() ==> (#[trigger] played[i]).0.not_above((#[trigger] played[j]).0)
}

/// The cards that a player gets when a deck is dealt to some players for
/// some turns, one card to each player in turn: the player in place `k` of
/// `players` gets the card `t * players + k` places below the top of the
/// deck for turn `t`.
pub open spec fn dealt_to(deck: Seq<Card>, players: int, k: int, turns: int) -> Seq<Card> {
    Seq::new(turns as nat, |t: int| deck[deck.len() - 1 - (t * players + k)])
}

/// What happens to a card that was played.
#[derive(Debug, PartialEq, Eq, Clone, Copy, Structural)]
pub enum Placement {
    /// The card goes on top of the stack.
    OnTop(StackId),
    /// The stack is full: the player takes it, and the card starts it anew.
    Takes(StackId),
    /// The card is below every stack: the player must choose a stack to
    /// take, and the card starts it anew.
    MustChoose,
}

/// What happens to a card of the given face value on a board whose stacks
/// all hold a card, if the board says so: it goes on the stack whose top
/// card is closest below it, which the player takes first if it is full.
/// Where the card is below every stack the player must choose one.
pub open spec fn placement_of(stacks: Seq<Seq<Card>>, face: u8, config: Configuration) -> Option<
    Placement,
> {
    if forall|j: int| 0 <= j < 4 ==> !fits(#[trigger] stacks[j], face) {
        Some(Placement::MustChoose)
    } else if exists|place: StackId| is_closest_smaller(stacks, face, place.index()) {
        let place = choose|place: StackId| is_closest_smaller(stacks, face, place.index());
        if stacks[place.index()].len() == config.stack_size {
            Some(Placement::Takes(place))
        } else {
            Some(Placement::OnTop(place))
        }
    } else {
        None
    }
}

/// A card goes on one stack at most.
pub proof fn lemma_closest_unique(stacks: Seq<Seq<Card>>, face: u8)
    ensures
        forall|a: StackId, b: StackId|
            is_closest_smaller(stacks, face, a.index()) && is_closest_smaller(
                stacks,
                face,
                b.index(),
            ) ==> a == b,
{
    assert forall|a: StackId, b: StackId|
        is_closest_smaller(stacks, face, a.index()) && is_closest_smaller(
            stacks,
            face,
            b.index(),
        ) implies a == b by {
        if a.index() < b.index() {
            assert(fits(stacks[b.index()], face));
        } else if b.index() < a.index() {
            assert(fits(stacks[a.index()], face));
        }
    }
}

/// Decides what happens to a card that was played: it goes on the stack
/// whose top card is closest below it, which the player takes first if it
/// is full; where the card is below every stack, the player must choose one.
pub fn placement(board: &Board, card: &Card, config: &Configuration) -> (place: Placement)
    requires
        board.ready(),
    ensures
        match place {
            Placement::OnTop(id) => is_closest_smaller(board@, card.face, id.index())
                && board@[id.index()].len() != config.stack_size,
            Placement::Takes(id) => is_closest_smaller(board@, card.face, id.index())
                && board@[id.index()].len() == config.stack_size,
            Placement::MustChoose => forall|j: int|
                0 <= j < 4 ==> !fits(#[trigger] board@[j], card.face),
        },
        placement_of(board@, card.face, *config) == Some(place),
{
    proof {
        lemma_closest_unique(board@, card.face);
    }
    match board.closest_smaller(card) {
        Some(id) => if board.stack(id).full(config) {
            Placement::Takes(id)
        } else {
            Placement::OnTop(id)
        },
        None => Placement::MustChoose,
    }
}

/// Takes a stack off the board and starts it anew with a card. Returns the
/// cards that the stack held.
pub fn replace(board: &mut Board, id: StackId, card: Card, config: &Configuration) -> (cards: Vec<
    Card,
>)
    requires
        config.stack_size != 0,
        old(board)@.len() == 4,
    ensures
        cards@ == old(board)@[id.index()],
        final(board)@ == old(board)@.update(id.index(), seq![card]),
{
    let cards = board.give(id);
    board.push(id, card, config);
    assert(Seq::<Card>::empty().push(card) == seq![card]);
    assert(board@ =~= old(board)@.update(id.index(), seq![card]));
    cards
}

/// Returns the place of the first player with the given id.
pub fn find_player<P: Player>(players: &Vec<P>, id: Id) -> (place: Option<usize>)
    ensures
        match place {
            Some(k) => k < players@.len() && players@[k as int].ident() == id && forall|j: int|
                0 <= j < k ==> (#[trigger] players@[j]).ident() != id,
            None => !has_player(players@, id),
        },
{
    let mut k: usize = 0;
    while k < players.len()
        invariant
            k <= players@.len(),
            forall|j: int| 0 <= j < k ==> (#[trigger] players@[j]).ident() != id,
        decreases players.len() - k,
    {
        if players[k].id() == id {
            return Some(k);
        }
        k += 1;
    }
    None
}

/// Shows every player the cards of a stack that the player with the given
/// id takes: each has seen them, and nothing else of the players changes.
pub fn show_taken<P: Player>(players: &mut Vec<P>, cards: &Vec<Card>, id: Id)
    ensures
        same_hands(old(players)@, final(players)@),
        forall|k: int|
            0 <= k < old(players)@.len() ==> {
                &&& (#[trigger] final(players)@[k]).taken() == old(players)@[k].taken()
                &&& final(players)@[k].seen() == old(players)@[k].seen().push(
                    Sight::Taken(cards@, id),
                )
            },
{
    let mut k: usize = 0;
    while k < players.len()
        invariant
            k <= players@.len(),
            players@.len() == old(players)@.len(),
            forall|j: int|
                0 <= j < players@.len() ==> {
                    &&& (#[trigger] players@[j]).ident() == old(players)@[j].ident()
                    &&& players@[j].holding() == old(players)@[j].holding()
                    &&& players@[j].taken() == old(players)@[j].taken()
                    &&& players@[j].seen() == if j < k {
                        old(players)@[j].seen().push(Sight::Taken(cards@, id))
                    } else {
                        old(players)@[j].seen()
                    }
                },
        decreases players.len() - k,
    {
        players[k].look_at_taken((cards.as_slice(), id));
        k += 1;
    }
}

/// Whether some places are those of a sequence of the given length, each
/// once, in any order.
pub open spec fn is_arrangement(places: Seq<int>, count: int) -> bool {
    &&& places.len() == count
    &&& forall|i: int| 0 <= i < places.len() ==> 0 <= #[trigger] places[i] < count
    &&& forall|i: int, j: int|
        0 <= i < j < places.len() ==> #[trigger] places[i] != #[trigger] places[j]
}

/// Whether the played cards were put in order: `sorted` holds in place `i`
/// what `played` holds in place `places[i]`, the cards rise, and cards of
/// the same value stand as they stood.
pub open spec fn put_in_order(
    played: Seq<(Card, Id)>,
    sorted: Seq<(Card, Id)>,
    places: Seq<int>,
) -> bool {
    &&& is_arrangement(places, played.len() as int)
    &&& sorted.len() == played.len()
    &&& forall|i: int| 0 <= i < sorted.len() ==> #[trigger] sorted[i] == played[places[i]]
    &&& forall|i: int, j: int|
        0 <= i < j < sorted.len() ==> {
            &&& (#[trigger] sorted[i]).0.not_above((#[trigger] sorted[j]).0)
            &&& sorted[i].0 == sorted[j].0 ==> places[i] < places[j]
        }
}

/// Returns the played cards by rising value of the card. Cards of the same
/// value keep their order.
pub fn sort_played(played: Vec<(Card, Id)>) -> (sorted: Vec<(Card, Id)>)
    ensures
        exists|places: Seq<int>| put_in_order(played@, sorted@, places),
        rising(sorted@),
        sorted@.to_multiset() == played@.to_multiset(),
        cards_played(sorted@) == cards_played(played@),
        sorted@.len() == played@.len(),
{
    let mut sorted: Vec<(Card, Id)> = Vec::new();
    let ghost mut places: Seq<int> = Seq::empty();
    let mut i: usize = 0;
    assert(played@.take(0) == Seq::<(Card, Id)>::empty());
    assert(sorted@.map_values(|entry: (Card, Id)| entry.0) == played@.take(0).map_values(
        |entry: (Card, Id)| entry.0,
    ));
    while i < played.len()
        invariant
            i <= played@.len(),
            put_in_order(played@.take(i as int), sorted@, places),
            sorted@.to_multiset() == played@.take(i as int).to_multiset(),
            cards_played(sorted@) == cards_played(played@.take(i as int)),
            sorted@.len() == i,
        decreases played.len() - i,
    {
        let entry = played[i];
        let mut at: usize = sorted.len();
        while at > 0 && entry.0.lower_than(&sorted[at - 1].0)
            invariant
                at <= sorted@.len(),
                forall|k: int|
                    at <= k < sorted@.len() ==> entry.0.not_above((#[trigger] sorted@[k]).0)
                        && entry.0 != sorted@[k].0,
            decreases at,
        {
            at -= 1;
        }
        let ghost before = sorted@;
        let ghost seats = places;
        sorted.insert(at, entry);
        proof {
            places = seats.insert(at as int, i as int);
            vstd::seq_lib::to_multiset_insert(before, at as int, entry);
            vstd::seq_lib::to_multiset_build(played@.take(i as int), entry);
            assert(played@.take(i as int).push(entry) == played@.take(i + 1));
            let card_of = |entry: (Card, Id)| entry.0;
            assert(sorted@.map_values(card_of) == before.map_values(card_of).insert(
                at as int,
                entry.0,
            ));
            vstd::seq_lib::to_multiset_insert(before.map_values(card_of), at as int, entry.0);
            assert(played@.take(i + 1).map_values(card_of) == played@.take(i as int).map_values(
                card_of,
            ).push(entry.0));
            vstd::seq_lib::to_multiset_build(
                played@.take(i as int).map_values(card_of),
                entry.0,
            );
            lemma_insert_in_order(played@, i as int, before, seats, at as int);
        }
        i += 1;
    }
    assert(played@.take(i as int) == played@);
    proof {
        assert forall|a: int, b: int| 0 <= a < b < sorted@.len() implies (
        #[trigger] sorted@[a]).0.not_above((#[trigger] sorted@[b]).0) by {}
    }
    sorted
}

/// One more card is put in order: when the first `count` of the played
/// cards are in order, and the next one is put behind those that are not
/// above it and before those that are, then one card more is in order.
proof fn lemma_insert_in_order(
    played: Seq<(Card, Id)>,
    count: int,
    sorted: Seq<(Card, Id)>,
    places: Seq<int>,
    at: int,
)
    requires
        0 <= count < played.len(),
        put_in_order(played.take(count), sorted, places),
        0 <= at <= sorted.len(),
        forall|k: int|
            at <= k < sorted.len() ==> played[count].0.not_above((#[trigger] sorted[k]).0)
                && played[count].0 != sorted[k].0,
        at > 0 ==> sorted[at - 1].0.not_above(played[count].0),
    ensures
        put_in_order(
            played.take(count + 1),
            sorted.insert(at, played[count]),
            places.insert(at, count),
        ),
{
    let entry = played[count];
    let more = sorted.insert(at, entry);
    let seats = places.insert(at, count);
    let old_part = played.take(count);
    let part = played.take(count + 1);
    assert forall|i: int| 0 <= i < seats.len() implies 0 <= #[trigger] seats[i] < count + 1 by {
        if i < at {
            assert(seats[i] == places[i]);
        } else if i > at {
            assert(seats[i] == places[i - 1]);
        }
    }
    assert forall|i: int, j: int| 0 <= i < j < seats.len() implies #[trigger] seats[i]
        != #[trigger] seats[j] by {
        let a = if i < at {
            i
        } else {
            i - 1
        };
        let b = if j < at {
            j
        } else {
            j - 1
        };
        if i != at {
            assert(seats[i] == places[a]);
            assert(0 <= places[a] < count);
        }
        if j != at {
            assert(seats[j] == places[b]);
            assert(0 <= places[b] < count);
        }
        if i != at && j != at {
            assert(places[a] != places[b]);
        }
    }
    assert forall|i: int| 0 <= i < more.len() implies #[trigger] more[i] == part[seats[i]] by {
        if i < at {
            assert(more[i] == sorted[i]);
            assert(sorted[i] == old_part[places[i]]);
        } else if i > at {
            assert(more[i] == sorted[i - 1]);
            assert(sorted[i - 1] == old_part[places[i - 1]]);
        }
    }
    assert forall|i: int, j: int| 0 <= i < j < more.len() implies {
        &&& (#[trigger] more[i]).0.not_above((#[trigger] more[j]).0)
        &&& more[i].0 == more[j].0 ==> seats[i] < seats[j]
    } by {
        if j < at {
            assert(more[i] == sorted[i] && more[j] == sorted[j]);
            assert(sorted[i].0.not_above(sorted[j].0));
        } else if j == at {
            assert(more[i] == sorted[i]);
            assert(sorted[i] == old_part[places[i]]);
            assert(0 <= places[i] < count);
            if i < at - 1 {
                assert(sorted[i].0.not_above(sorted[at - 1].0));
            }
        } else if i < at {
            assert(more[i] == sorted[i] && more[j] == sorted[j - 1]);
            assert(sorted[i].0.not_above(sorted[j - 1].0));
        } else if i == at {
            assert(more[j] == sorted[j - 1]);
        } else {
            assert(more[i] == sorted[i - 1] && more[j] == sorted[j - 1]);
            assert(sorted[i - 1].0.not_above(sorted[j - 1].0));
        }
    }
}


/// Players who are who they were twice over are who they were at first.
pub proof fn lemma_same_hands_trans<P: Player>(first: Seq<P>, second: Seq<P>, third: Seq<P>)
    requires
        same_hands(first, second),
        same_hands(second, third),
    ensures
        same_hands(first, third),
{
    assert forall|k: int| 0 <= k < first.len() implies {
        &&& (#[trigger] third[k]).ident() == first[k].ident()
        &&& third[k].holding() == first[k].holding()
        &&& first[k].taken().is_prefix_of(third[k].taken())
    } by {
        assert(second[k].ident() == first[k].ident());
        assert(first[k].taken().is_prefix_of(second[k].taken()));
        assert(second[k].taken().is_prefix_of(third[k].taken()));
    }
}

/// Gives the cards of a stack to the player with the given id: all players
/// look at them, and the first player with the id takes them.
pub fn hand_over<P: Player>(players: &mut Vec<P>, cards: Vec<Card>, id: Id)
    requires
        has_player(old(players)@, id),
    ensures
        same_hands(old(players)@, final(players)@),
        in_piles(final(players)@) == in_piles(old(players)@).add(cards@.to_multiset()),
        forall|k: int|
            0 <= k < old(players)@.len() ==> {
                &&& (#[trigger] final(players)@[k]).seen() == old(players)@[k].seen().push(
                    Sight::Taken(cards@, id),
                )
                &&& final(players)@[k].taken() == if is_first(old(players)@, id, k) {
                    old(players)@[k].taken() + cards@
                } else {
                    old(players)@[k].taken()
                }
            },
{
    show_taken(players, &cards, id);
    let ghost shown = players@;
    proof {
        lemma_piles_same(old(players)@, shown);
        let k = choose|k: int|
            0 <= k < old(players)@.len() && (#[trigger] old(players)@[k]).ident() == id;
        assert(players@[k].ident() == id);
    }
    let k = find_player(players, id).unwrap();
    let ghost pile = players@[k as int].taken();
    let ghost heap = cards@;
    players[k].take(cards);
    proof {
        assert(pile.is_prefix_of(pile + heap));
        assert(same_hands(shown, players@));
        lemma_same_hands_trans(old(players)@, shown, players@);
        lemma_piles_grow(shown, players@, k as int, heap);
        assert forall|j: int| 0 <= j < old(players)@.len() implies is_first(
            old(players)@,
            id,
            j,
        ) == (j == k) by {
            assert(shown[j].ident() == old(players)@[j].ident());
            if j < k {
                assert(shown[j].ident() != id);
            }
            if j == k {
                assert forall|i: int| 0 <= i < j implies (#[trigger] old(players)@[i]).ident()
                    != id by {
                    assert(shown[i].ident() != id);
                }
            }
        }
    }
}

/// The first player with an id stands where it stood among players with
/// the ids that they had.
pub proof fn lemma_same_first<P: Player>(before: Seq<P>, after: Seq<P>, id: Id, place: int)
    requires
        after.len() == before.len(),
        forall|j: int| 0 <= j < before.len() ==> (#[trigger] after[j]).ident() == before[j].ident(),
    ensures
        is_first(after, id, place) == is_first(before, id, place),
{
    if 0 <= place < before.len() {
        assert(after[place].ident() == before[place].ident());
        if is_first(before, id, place) {
            assert forall|j: int| 0 <= j < place implies (#[trigger] after[j]).ident() != id by {
                assert(before[j].ident() != id);
            }
        }
        if is_first(after, id, place) {
            assert forall|j: int| 0 <= j < place implies (#[trigger] before[j]).ident() != id by {
                assert(after[j].ident() != id);
            }
        }
    }
}

/// Whether the players are what they were in all that is said of them.
pub open spec fn untouched<P: Player>(before: Seq<P>, after: Seq<P>) -> bool {
    &&& after.len() == before.len()
    &&& forall|k: int|
        0 <= k < before.len() ==> {
            &&& (#[trigger] after[k]).ident() == before[k].ident()
            &&& after[k].holding() == before[k].holding()
            &&& after[k].taken() == before[k].taken()
            &&& after[k].seen() == before[k].seen()
        }
}

/// Whether a player is the first with the given id as it stands after a
/// look at the board: with the board behind all that it has seen, and
/// nothing else changed.
pub open spec fn is_asked<P: Player>(
    players: Seq<P>,
    id: Id,
    stacks: Seq<Seq<Card>>,
    asked: P,
) -> bool {
    exists|k: int|
        {
            &&& #[trigger] is_first(players, id, k)
            &&& asked.ident() == players[k].ident()
            &&& asked.holding() == players[k].holding()
            &&& asked.taken() == players[k].taken()
            &&& asked.seen() == players[k].seen().push(Sight::Board(stacks))
        }
}

/// Whether a stack was taken for a card: the card stands for the stack on
/// the board; the first player with the id has the cards of the stack
/// behind those that were in the pile; and every player has seen the cards
/// taken, the one who took them after a look at the board if asked to
/// choose. Nothing else of the board or of the players has changed.
pub open spec fn taken_for<P: Player>(
    stacks: Seq<Seq<Card>>,
    players: Seq<P>,
    card: Card,
    id: Id,
    place: StackId,
    asked: bool,
    after: Seq<Seq<Card>>,
    folk: Seq<P>,
) -> bool {
    let cards = stacks[place.index()];
    &&& after == stacks.update(place.index(), seq![card])
    &&& folk.len() == players.len()
    &&& forall|k: int|
        0 <= k < players.len() ==> {
            &&& (#[trigger] folk[k]).ident() == players[k].ident()
            &&& folk[k].holding() == players[k].holding()
            &&& folk[k].taken() == if is_first(players, id, k) {
                players[k].taken() + cards
            } else {
                players[k].taken()
            }
            &&& folk[k].seen() == (if asked && is_first(players, id, k) {
                players[k].seen().push(Sight::Board(stacks))
            } else {
                players[k].seen()
            }).push(Sight::Taken(cards, id))
        }
}

/// Whether a card that the player with the given id played was put on a
/// board: on top of the stack whose top card is closest below it, with the
/// players untouched; or, where that stack is full, in its stead, the
/// player taking the stack; or, where the card is below every stack, in
/// the stead of a stack that the player chose and took.
pub open spec fn is_placed<P: Player>(
    stacks: Seq<Seq<Card>>,
    players: Seq<P>,
    card: Card,
    id: Id,
    config: Configuration,
    after: Seq<Seq<Card>>,
    folk: Seq<P>,
) -> bool {
    match placement_of(stacks, card.face, config) {
        Some(Placement::OnTop(place)) => {
            &&& after == stacks.update(place.index(), stacks[place.index()].push(card))
            &&& untouched(players, folk)
        },
        Some(Placement::Takes(place)) => taken_for(
            stacks,
            players,
            card,
            id,
            place,
            false,
            after,
            folk,
        ),
        Some(Placement::MustChoose) => exists|place: StackId, asked: P|
            {
                &&& is_asked(players, id, stacks, asked)
                &&& #[trigger] call_ensures(P::choose_stack, (&asked,), place)
                &&& taken_for(stacks, players, card, id, place, true, after, folk)
            },
        None => false,
    }
}

/// Whether some cards were put on a board one after the other, each by the
/// player whose id comes with it.
pub open spec fn stacked<P: Player>(
    stacks: Seq<Seq<Card>>,
    players: Seq<P>,
    played: Seq<(Card, Id)>,
    config: Configuration,
    after: Seq<Seq<Card>>,
    folk: Seq<P>,
) -> bool
    decreases played.len(),
{
    if played.len() == 0 {
        after == stacks && untouched(players, folk)
    } else {
        exists|between: Seq<Seq<Card>>, some: Seq<P>|
            {
                &&& stacked(stacks, players, played.drop_last(), config, between, some)
                &&& #[trigger] is_placed(
                    between,
                    some,
                    played.last().0,
                    played.last().1,
                    config,
                    after,
                    folk,
                )
            }
    }
}

/// Whether the player in the given place is the first with the given id.
pub open spec fn is_first<P: Player>(players: Seq<P>, id: Id, place: int) -> bool {
    &&& 0 <= place < players.len()
    &&& players[place].ident() == id
    &&& forall|j: int| 0 <= j < place ==> (#[trigger] players[j]).ident() != id
}

/// Asks the first player with the given id which stack to take, after a
/// look at the board: that player has seen the board, and nothing else of
/// the players has changed. Which stack is named is up to the player.
pub fn ask_choice<P: Player>(players: &mut Vec<P>, board: &Board, id: Id) -> (place: StackId)
    requires
        board.ready(),
        has_player(old(players)@, id),
    ensures
        same_hands(old(players)@, final(players)@),
        in_piles(final(players)@) == in_piles(old(players)@),
        forall|k: int|
            0 <= k < old(players)@.len() ==> {
                &&& (#[trigger] final(players)@[k]).taken() == old(players)@[k].taken()
                &&& final(players)@[k].seen() == if is_first(old(players)@, id, k) {
                    old(players)@[k].seen().push(Sight::Board(board@))
                } else {
                    old(players)@[k].seen()
                }
            },
        exists|k: int, looking: &mut P|
            {
                &&& is_first(old(players)@, id, k)
                &&& *looking == old(players)@[k]
                &&& #[trigger] call_ensures(P::look_at_board, (looking, board), ())
                &&& *final(looking) == final(players)@[k]
                &&& #[trigger] call_ensures(P::choose_stack, (&final(players)@[k],), place)
            },
{
    let k = find_player(players, id).unwrap();
    players[k].look_at_board(board);
    proof {
        lemma_piles_same(old(players)@, players@);
        assert forall|j: int| 0 <= j < old(players)@.len() implies is_first(
            old(players)@,
            id,
            j,
        ) == (j == k) by {
            if j < k {
                assert(old(players)@[j].ident() != id);
            }
        }
    }
    players[k].choose_stack()
}

/// Puts a card that the player with the given id played on the board. The
/// card goes on the stack whose top card is the highest below it. If that
/// stack is full, the player takes it first. If the card is below every
/// stack, the player chooses a stack to take. A stack that was taken
/// starts anew with the card. No card is lost: the board and the piles
/// hold what they held, and the card.
pub fn place_card<P: Player>(
    board: &mut Board,
    card: Card,
    id: Id,
    players: &mut Vec<P>,
    config: &Configuration,
)
    requires
        old(board).ready(),
        config.stack_size != 0,
        has_player(old(players)@, id),
    ensures
        final(board).ready(),
        same_hands(old(players)@, final(players)@),
        on_board(final(board)@).add(in_piles(final(players)@)) == on_board(old(board)@).add(
            in_piles(old(players)@),
        ).insert(card),
        is_placed(
            old(board)@,
            old(players)@,
            card,
            id,
            *config,
            final(board)@,
            final(players)@,
        ),
{
    let ghost stacks = board@;
    proof {
        board.lemma_four_stacks();
        lemma_closest_unique(stacks, card.face);
    }
    match placement(board, &card, config) {
        Placement::OnTop(place) => {
            board.push(place, card, config);
            proof {
                broadcast use vstd::multiset::group_multiset_axioms;

                lemma_board_gains(stacks, place.index(), card);
                assert(on_board(board@).add(in_piles(players@)) =~= on_board(stacks).add(
                    in_piles(players@),
                ).insert(card));
                assert(untouched(old(players)@, players@));
            }
        },
        Placement::Takes(place) => {
            let cards = replace(board, place, card, config);
            let ghost heap_taken = cards@.to_multiset();
            proof {
                lemma_board_swaps(stacks, place.index(), card);
            }
            hand_over(players, cards, id);
            proof {
                lemma_taken_over(
                    on_board(board@),
                    on_board(stacks),
                    in_piles(players@),
                    in_piles(old(players)@),
                    heap_taken,
                    card,
                );
                assert(taken_for(
                    stacks,
                    old(players)@,
                    card,
                    id,
                    place,
                    false,
                    board@,
                    players@,
                ));
            }
        },
        Placement::MustChoose => {
            let place = ask_choice(players, board, id);
            let ghost asked = players@;
            let ghost first = choose|k: int|
                is_first(old(players)@, id, k) && #[trigger] call_ensures(
                    P::choose_stack,
                    (&asked[k],),
                    place,
                );
            proof {
                let (k, looking) = choose|k: int, looking: &mut P|
                    {
                        &&& is_first(old(players)@, id, k)
                        &&& *looking == old(players)@[k]
                        &&& #[trigger] call_ensures(P::look_at_board, (looking, board), ())
                        &&& *final(looking) == asked[k]
                        &&& #[trigger] call_ensures(P::choose_stack, (&asked[k],), place)
                    };
                assert(is_first(old(players)@, id, k) && call_ensures(
                    P::choose_stack,
                    (&asked[k],),
                    place,
                ));
            }
            let cards = replace(board, place, card, config);
            let ghost heap_taken = cards@.to_multiset();
            proof {
                lemma_board_swaps(stacks, place.index(), card);
                let k = choose|k: int|
                    0 <= k < old(players)@.len() && (#[trigger] old(players)@[k]).ident() == id;
                assert(asked[k].ident() == id);
            }
            hand_over(players, cards, id);
            proof {
                lemma_same_hands_trans(old(players)@, asked, players@);
                lemma_taken_over(
                    on_board(board@),
                    on_board(stacks),
                    in_piles(players@),
                    in_piles(old(players)@),
                    heap_taken,
                    card,
                );
                assert forall|k: int| 0 <= k < asked.len() implies is_first(asked, id, k)
                    == is_first(old(players)@, id, k) by {
                    lemma_same_first(old(players)@, asked, id, k);
                }
                assert(taken_for(
                    stacks,
                    old(players)@,
                    card,
                    id,
                    place,
                    true,
                    board@,
                    players@,
                ));
                assert(is_first(old(players)@, id, first));
                assert(is_asked(old(players)@, id, stacks, asked[first]));
            }
        },
    }
    assert(board.ready()) by {
        assert forall|j: int| 0 <= j < 4 implies (#[trigger] board@[j]).len() > 0 by {
            assert(stacks[j].len() > 0);
        }
    }
}

/// A dealer facilitates the game: dealing the cards and stacking those
/// that were played.
///
/// The two specification functions say what a dealer is made of. A dealer
/// that is verified defines them. A dealer that is written in plain Rust
/// leaves them alone, and what the methods promise of it is taken on trust.
pub trait Dealer {
    /// The cards of the deck that are not dealt yet. The last one is dealt
    /// next.
    closed spec fn deck(&self) -> Seq<Card> {
        arbitrary()
    }

    /// Whether the dealer can make a deck of the given configuration.
    closed spec fn can_open(&self, config: Configuration) -> bool {
        arbitrary()
    }

    /// Opens a new deck of cards and shuffles it. The deck holds one card
    /// of each face value, and each in the bull range.
    fn open(&mut self, config: &Configuration)
        requires
            old(self).can_open(*config),
        ensures
            is_deck(final(self).deck(), *config),
            final(self).can_open(*config),
    ;

    /// Returns the next card off of the deck, which must hold one.
    fn deal(&mut self) -> (card: Card)
        requires
            old(self).deck().len() > 0,
        ensures
            card == old(self).deck().last(),
            final(self).deck() == old(self).deck().drop_last(),
            forall|config: Configuration|
                old(self).can_open(config) ==> final(self).can_open(config),
    ;

    /// Deals a card for each turn of a round to all given players: one card
    /// to each player in turn, and so on until each has one for each turn.
    fn deals<P: Player>(&mut self, players: &mut Vec<P>, config: &Configuration)
        requires
            old(self).deck().len() >= config.turn_count * old(players)@.len(),
        ensures
            final(players)@.len() == old(players)@.len(),
            final(self).deck() == old(self).deck().take(
                old(self).deck().len() - config.turn_count * old(players)@.len(),
            ),
            forall|k: int|
                0 <= k < old(players)@.len() ==> {
                    &&& (#[trigger] final(players)@[k]).ident() == old(players)@[k].ident()
                    &&& final(players)@[k].taken() == old(players)@[k].taken()
                    &&& final(players)@[k].holding() == old(players)@[k].holding() + dealt_to(
                        old(self).deck(),
                        old(players)@.len() as int,
                        k,
                        config.turn_count as int,
                    )
                    &&& final(players)@[k].holding().len() == old(players)@[k].holding().len()
                        + config.turn_count
                },
            in_piles(final(players)@) == in_piles(old(players)@),
            in_hands(final(players)@).add(final(self).deck().to_multiset()) == in_hands(
                old(players)@,
            ).add(old(self).deck().to_multiset()),
            forall|config: Configuration|
                old(self).can_open(config) ==> final(self).can_open(config),
    {
        let ghost count = players@.len();
        let ghost full = self.deck();
        let mut turn: usize = 0;
        proof {
            assert forall|k: int| 0 <= k < count implies (#[trigger] players@[k]).holding()
                == players@[k].holding() + dealt_to(full, count as int, k, 0) by {
                assert(dealt_to(full, count as int, k, 0) == Seq::<Card>::empty());
            }
        }
        while turn < config.turn_count
            invariant
                turn <= config.turn_count,
                players@.len() == count,
                count == old(players)@.len(),
                full == old(self).deck(),
                full.len() >= config.turn_count * count,
                self.deck() == full.take(full.len() - turn * count),
                in_hands(players@).add(self.deck().to_multiset()) == in_hands(old(players)@).add(
                    full.to_multiset(),
                ),
                forall|k: int|
                    0 <= k < count ==> {
                        &&& (#[trigger] players@[k]).ident() == old(players)@[k].ident()
                        &&& players@[k].taken() == old(players)@[k].taken()
                        &&& players@[k].holding() == old(players)@[k].holding() + dealt_to(
                            full,
                            count as int,
                            k,
                            turn as int,
                        )
                    },
                forall|config: Configuration|
                    old(self).can_open(config) ==> self.can_open(config),
            decreases config.turn_count - turn,
        {
            let ghost at_turn = players@;
            let mut k: usize = 0;
            proof {
                assert(turn * count + count == (turn + 1) * count) by (nonlinear_arith);
                assert((turn + 1) * count <= config.turn_count * count) by (nonlinear_arith)
                    requires
                        turn + 1 <= config.turn_count,
                        count >= 0,
                ;
            }
            while k < players.len()
                invariant
                    k <= count,
                    turn < config.turn_count,
                    players@.len() == count,
                    count == old(players)@.len(),
                    at_turn.len() == count,
                    full.len() >= turn * count + count,
                    self.deck() == full.take(full.len() - turn * count - k),
                    in_hands(players@).add(self.deck().to_multiset()) == in_hands(
                        old(players)@,
                    ).add(full.to_multiset()),
                    forall|j: int|
                        0 <= j < count ==> {
                            &&& (#[trigger] players@[j]).ident() == old(players)@[j].ident()
                            &&& players@[j].taken() == old(players)@[j].taken()
                            &&& players@[j].holding() == old(players)@[j].holding() + dealt_to(
                                full,
                                count as int,
                                j,
                                if j < k {
                                    turn + 1
                                } else {
                                    turn as int
                                },
                            )
                        },
                    forall|config: Configuration|
                        old(self).can_open(config) ==> self.can_open(config),
                decreases count - k,
            {
                let ghost deck = self.deck();
                let ghost folk = players@;
                let card = self.deal();
                assert(deck.drop_last() == full.take(full.len() - turn * count - k - 1));
                assert(card == full[full.len() - 1 - (turn * count + k)]);
                let ghost held = old(players)@[k as int].holding();
                players[k].draw(card);
                proof {
                    lemma_card_dealt(folk, players@, k as int, deck);
                    let before = dealt_to(full, count as int, k as int, turn as int);
                    let after = dealt_to(full, count as int, k as int, turn + 1);
                    assert(after == before.push(card));
                    assert((held + before).push(card) == held + after);
                }
                k += 1;
            }
            turn += 1;
        }
        proof {
            lemma_piles_same(old(players)@, players@);
        }
    }

    /// Clears the board and deals a card to each of its stacks.
    fn flip(&mut self, board: &mut Board, config: &Configuration)
        requires
            old(self).deck().len() >= 4,
            config.stack_size != 0,
        ensures
            final(self).deck() == old(self).deck().take(old(self).deck().len() - 4),
            final(board)@ == Seq::new(
                4,
                |i: int| seq![old(self).deck()[old(self).deck().len() - 1 - i]],
            ),
            final(board).ready(),
            on_board(final(board)@).add(final(self).deck().to_multiset())
                == old(self).deck().to_multiset(),
            forall|config: Configuration|
                old(self).can_open(config) ==> final(self).can_open(config),
    {
        let ghost full = self.deck();
        board.clear();
        let ids = StackId::all();
        let mut i: usize = 0;
        proof {
            broadcast use vstd::multiset::group_multiset_axioms;

            lemma_board_empty(board@);
            assert(on_board(board@).add(full.to_multiset()) =~= full.to_multiset());
        }
        while i < 4
            invariant
                i <= 4,
                config.stack_size != 0,
                full == old(self).deck(),
                full.len() >= 4,
                forall|k: int| 0 <= k < 4 ==> #[trigger] ids[k] == StackId::at(k),
                self.deck() == full.take(full.len() - i),
                on_board(board@).add(self.deck().to_multiset()) == full.to_multiset(),
                board@ == Seq::new(
                    4,
                    |k: int|
                        if k < i {
                            seq![full[full.len() - 1 - k]]
                        } else {
                            Seq::<Card>::empty()
                        },
                ),
                forall|config: Configuration|
                    old(self).can_open(config) ==> self.can_open(config),
            decreases 4 - i,
        {
            let ghost deck = self.deck();
            let ghost stacks = board@;
            let card = self.deal();
            assert(deck.drop_last() == full.take(full.len() - i - 1));
            let id = ids[i];
            assert(id == StackId::at(i as int));
            board.push(id, card, config);
            proof {
                lemma_card_flipped(stacks, i as int, deck);
            }
            assert(Seq::<Card>::empty().push(card) == seq![card]);
            assert(board@ =~= Seq::new(
                4,
                |k: int|
                    if k < i + 1 {
                        seq![full[full.len() - 1 - k]]
                    } else {
                        Seq::<Card>::empty()
                    },
            ));
            i += 1;
        }
        assert(board@ =~= Seq::new(4, |k: int| seq![full[full.len() - 1 - k]]));
    }

    /// Stacks the played cards on the board.
    ///
    /// The cards are stacked from the lowest to the highest. A card goes on
    /// the stack whose top card is the highest below it. If that stack is
    /// full, the player who played the card takes it first. If the card is
    /// below every stack, the player chooses a stack to take, and the card
    /// starts that stack anew. Whenever a player takes a stack, all players
    /// look at the cards taken.
    fn stack<P: Player>(
        &mut self,
        board: &mut Board,
        played: Vec<(Card, Id)>,
        players: &mut Vec<P>,
        config: &Configuration,
    )
        requires
            old(board).ready(),
            config.stack_size != 0,
            forall|i: int|
                0 <= i < played@.len() ==> has_player(old(players)@, (#[trigger] played@[i]).1),
        ensures
            final(board).ready(),
            same_hands(old(players)@, final(players)@),
            on_board(final(board)@).add(in_piles(final(players)@)) == on_board(old(board)@).add(
                in_piles(old(players)@),
            ).add(cards_played(played@)),
            in_hands(final(players)@) == in_hands(old(players)@),
            exists|places: Seq<int>, sorted: Seq<(Card, Id)>|
                {
                    &&& #[trigger] put_in_order(played@, sorted, places)
                    &&& stacked(
                        old(board)@,
                        old(players)@,
                        sorted,
                        *config,
                        final(board)@,
                        final(players)@,
                    )
                },
            final(self).deck() == old(self).deck(),
            forall|config: Configuration|
                old(self).can_open(config) ==> final(self).can_open(config),
    {
        let ghost given = played@;
        let ghost start = on_board(board@).add(in_piles(players@));
        let played = sort_played(played);
        proof {
            broadcast use vstd::multiset::group_multiset_axioms;

            assert forall|i: int| 0 <= i < played@.len() implies has_player(
                old(players)@,
                (#[trigger] played@[i]).1,
            ) by {
                vstd::seq_lib::to_multiset_contains(played@, played@[i]);
                vstd::seq_lib::to_multiset_contains(given, played@[i]);
                assert(played@.contains(played@[i]));
                let j = choose|j: int| 0 <= j < given.len() && given[j] == played@[i];
                assert(has_player(old(players)@, given[j].1));
            }
            let none = played@.take(0).map_values(|entry: (Card, Id)| entry.0);
            assert(none == Seq::<Card>::empty());
            none.to_multiset_ensures();
            assert(cards_played(played@.take(0)) =~= Multiset::<Card>::empty());
            assert(start.add(cards_played(played@.take(0))) =~= start);
        }
        let mut i: usize = 0;
        proof {
            assert(untouched(old(players)@, players@));
            assert(played@.take(0).len() == 0);
        }
        while i < played.len()
            invariant
                i <= played@.len(),
                board.ready(),
                config.stack_size != 0,
                same_hands(old(players)@, players@),
                on_board(board@).add(in_piles(players@)) == start.add(
                    cards_played(played@.take(i as int)),
                ),
                stacked(
                    old(board)@,
                    old(players)@,
                    played@.take(i as int),
                    *config,
                    board@,
                    players@,
                ),
                forall|k: int|
                    0 <= k < played@.len() ==> has_player(old(players)@, (#[trigger] played@[k]).1),
            decreases played.len() - i,
        {
            let (card, id) = played[i];
            let ghost folk = players@;
            let ghost stacks = board@;
            proof {
                assert(has_player(old(players)@, played@[i as int].1));
                let k = choose|k: int|
                    0 <= k < old(players)@.len() && (#[trigger] old(players)@[k]).ident() == id;
                assert(players@[k].ident() == id);
                let card_of = |entry: (Card, Id)| entry.0;
                assert(played@.take(i + 1).map_values(card_of) == played@.take(i as int).map_values(
                    card_of,
                ).push(card));
                vstd::seq_lib::to_multiset_build(played@.take(i as int).map_values(card_of), card);
            }
            place_card(board, card, id, players, config);
            proof {
                let more = played@.take(i + 1);
                assert(more.drop_last() == played@.take(i as int));
                assert(more.last() == played@[i as int]);
                let (last, by) = more.last();
                assert(is_placed(stacks, folk, last, by, *config, board@, players@));
                assert(stacked(old(board)@, old(players)@, more, *config, board@, players@));
                lemma_same_hands_trans(old(players)@, folk, players@);
                assert(on_board(board@).add(in_piles(players@)) =~= start.add(
                    cards_played(played@.take(i + 1)),
                ));
            }
            i += 1;
        }
        assert(played@.take(i as int) == played@);
        proof {
            lemma_hands_same(old(players)@, players@);
            let places = choose|places: Seq<int>| put_in_order(given, played@, places);
            assert(put_in_order(given, played@, places));
        }
    }
}

} // verus!
