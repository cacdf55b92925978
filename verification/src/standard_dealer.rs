use crate::card::{holds_face, is_deck, Card};
use crate::configuration::Configuration;
use crate::dealer::Dealer;
use rand::Rng;
use vstd::prelude::*;

verus! {

/// The bull value that the standard game gives to a face value: seven for
/// 55, five for the other multiples of eleven, three for the multiples of
/// ten, two for the other multiples of five, and one for the rest.
pub open spec fn standard_bulls(face: u8) -> u8 {
    if face == 55 {
        7
    } else if face % 11 == 0 {
        5
    } else if face % 10 == 0 {
        3
    } else if face % 5 == 0 {
        2
    } else {
        1
    }
}

/// The card of the standard game with the given face value.
pub open spec fn standard_card(face: u8) -> Card {
    Card { face, bull: standard_bulls(face) }
}

/// The deck of the standard game by rising face value.
pub open spec fn standard_deck(config: Configuration) -> Seq<Card> {
    Seq::new(config.deck_size as nat, |i: int| standard_card((i + 1) as u8))
}

/// Returns the bull value that the standard game gives to a face value.
pub fn standard_bull(face: u8) -> (bull: u8)
    ensures
        bull == standard_bulls(face),
{
    if face == 55 {
        7
    } else if face % 11 == 0 {
        5
    } else if face % 10 == 0 {
        3
    } else if face % 5 == 0 {
        2
    } else {
        1
    }
}

/// Calls `Rng::shuffle` of rand on the generator of the thread, which
/// swaps the elements of the slice among themselves: afterwards the deck
/// holds the same cards, each as often as before. Nothing is said of their
/// order.
#[verifier::external_body]
pub(crate) fn shuffle(deck: &mut Vec<Card>)
    ensures
        final(deck)@.to_multiset() == old(deck)@.to_multiset(),
{
    rand::thread_rng().shuffle(deck.as_mut_slice());
}

/// Some cards in another order are a deck if they were one.
pub proof fn lemma_shuffled_deck(before: Seq<Card>, after: Seq<Card>, config: Configuration)
    requires
        is_deck(before, config),
        after.to_multiset() == before.to_multiset(),
    ensures
        is_deck(after, config),
{
    vstd::seq_lib::to_multiset_len(before);
    vstd::seq_lib::to_multiset_len(after);
    assert forall|i: int| 0 <= i < after.len() implies (#[trigger] after[i]).valid(config) by {
        vstd::seq_lib::to_multiset_contains(after, after[i]);
        vstd::seq_lib::to_multiset_contains(before, after[i]);
        assert(after.contains(after[i]));
        let j = choose|j: int| 0 <= j < before.len() && before[j] == after[i];
        assert(before[j].valid(config));
    }
    assert forall|face: u8| 1 <= face <= config.deck_size implies #[trigger] holds_face(
        after,
        face,
    ) by {
        assert(holds_face(before, face));
        let j = choose|j: int| 0 <= j < before.len() && (#[trigger] before[j]).face == face;
        vstd::seq_lib::to_multiset_contains(after, before[j]);
        vstd::seq_lib::to_multiset_contains(before, before[j]);
        assert(before.contains(before[j]));
        let i = choose|i: int| 0 <= i < after.len() && after[i] == before[j];
        assert(after[i].face == face);
    }
}

/// A dealer who attempts to make the game as fair as possible.
#[derive(Debug)]
pub struct StandardDealer {
    deck: Vec<Card>,
}

impl StandardDealer {
    /// Whether the bull values of the standard game lie in the bull range
    /// of the configuration.
    pub open spec fn suits(config: Configuration) -> bool {
        forall|face: u8|
            1 <= face <= config.deck_size ==> (#[trigger] standard_card(face)).valid(config)
    }
}

impl Default for StandardDealer {
    /// A dealer who has not opened a deck yet.
    fn default() -> (dealer: StandardDealer)
        ensures
            dealer.deck() == Seq::<Card>::empty(),
    {
        StandardDealer { deck: Vec::new() }
    }
}

impl Dealer for StandardDealer {
    closed spec fn deck(&self) -> Seq<Card> {
        self.deck@
    }

    open spec fn can_open(&self, config: Configuration) -> bool {
        StandardDealer::suits(config)
    }

    /// Opens the deck of the standard game and shuffles it.
    fn open(&mut self, config: &Configuration)
        ensures
            final(self).deck().to_multiset() == standard_deck(*config).to_multiset(),
    {
        assert forall|face: u8, bull: u8|
            1 <= face <= config.deck_size && call_ensures(
                standard_bull,
                (face,),
                bull,
            ) implies (Card { face, bull }).valid(*config) by {
            assert(standard_card(face).valid(*config));
        }
        self.deck = Card::deck(standard_bull, config);
        proof {
            let deck = self.deck@;
            assert(deck =~= standard_deck(*config));
            assert forall|face: u8| 1 <= face <= config.deck_size implies #[trigger] holds_face(
                deck,
                face,
            ) by {
                assert(deck[face - 1].face == face);
            }
        }
        let ghost sorted = self.deck@;
        shuffle(&mut self.deck);
        proof {
            lemma_shuffled_deck(sorted, self.deck@, *config);
        }
    }

    fn deal(&mut self) -> (card: Card) {
        self.deck.pop().unwrap()
    }
}

} // verus!
