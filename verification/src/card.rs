use crate::configuration::Configuration;
use crate::validation::StructureError;
use vstd::prelude::*;
use vstd::relations::{
    antisymmetric, reflexive, sorted_by, strongly_connected, total_ordering, transitive,
};

verus! {

/// A playing card: its face value identifies it within a deck, its bull
/// value is the penalty it carries.
#[derive(Debug, PartialEq, Eq, PartialOrd, Ord, Clone, Copy, Structural)]
pub struct Card {
    pub face: u8,
    pub bull: u8,
}

/// Whether a card of the given face value is among some cards.
pub open spec fn holds_face(cards: Seq<Card>, face: u8) -> bool {
    exists|i: int| 0 <= i < cards.len() && (#[trigger] cards[i]).face == face
}

/// Whether some cards are a deck of the configuration, in any order: as
/// many cards as the deck has, each of the deck, and each face value among
/// them.
pub open spec fn is_deck(cards: Seq<Card>, config: Configuration) -> bool {
    &&& cards.len() == config.deck_size
    &&& forall|i: int| 0 <= i < cards.len() ==> (#[trigger] cards[i]).valid(config)
    &&& forall|face: u8| 1 <= face <= config.deck_size ==> #[trigger] holds_face(cards, face)
}

/// The order of cards by falling value: the first is no lower than the
/// second.
pub open spec fn descending() -> spec_fn(Card, Card) -> bool {
    |a: Card, b: Card| b.not_above(a)
}

/// The order of cards is total.
pub proof fn lemma_card_orders()
    ensures
        total_ordering(descending()),
{
    let down = descending();
    assert(reflexive(down)) by {
        assert forall|x: Card| #[trigger] down(x, x) by {}
    }
    assert(antisymmetric(down)) by {
        assert forall|x: Card, y: Card| #[trigger] down(x, y) && #[trigger] down(y, x) implies x
            == y by {}
    }
    assert(transitive(down)) by {
        assert forall|x: Card, y: Card, z: Card| #[trigger] down(x, y) && #[trigger] down(
            y,
            z,
        ) implies down(x, z) by {}
    }
    assert(strongly_connected(down)) by {
        assert forall|x: Card, y: Card| #[trigger] down(x, y) || #[trigger] down(y, x) by {}
    }
}

/// Returns the cards by falling value.
pub fn sort_descending(cards: &Vec<Card>) -> (sorted: Vec<Card>)
    ensures
        sorted@ == cards@.sort_by(descending()),
{
    let mut sorted: Vec<Card> = Vec::new();
    let mut i: usize = 0;
    assert(cards@.take(0) == Seq::<Card>::empty());
    while i < cards.len()
        invariant
            i <= cards@.len(),
            sorted_by(sorted@, descending()),
            sorted@.to_multiset() == cards@.take(i as int).to_multiset(),
            sorted@.len() == i,
        decreases cards.len() - i,
    {
        let card = cards[i];
        let mut at: usize = 0;
        while at < sorted.len() && card.lower_than(&sorted[at])
            invariant
                at <= sorted@.len(),
                forall|k: int| 0 <= k < at ==> card.not_above(#[trigger] sorted@[k]),
            decreases sorted.len() - at,
        {
            at += 1;
        }
        let ghost before = sorted@;
        sorted.insert(at, card);
        proof {
            vstd::seq_lib::to_multiset_insert(before, at as int, card);
            vstd::seq_lib::to_multiset_build(cards@.take(i as int), card);
            assert(cards@.take(i as int).push(card) == cards@.take(i + 1));
            let down = descending();
            assert forall|a: int, b: int| 0 <= a < b < sorted@.len() implies #[trigger] down(
                sorted@[a],
                sorted@[b],
            ) by {
                if b < at {
                    assert(down(before[a], before[b]));
                } else if b == at {
                } else if a < at {
                    assert(down(before[a], before[b - 1]));
                } else if a == at {
                    if at < before.len() {
                        assert(!card.not_above(before[at as int]) || card == before[at as int]);
                        assert(at < b - 1 ==> down(before[at as int], before[b - 1]));
                    }
                } else {
                    assert(down(before[a - 1], before[b - 1]));
                }
            }
        }
        i += 1;
    }
    proof {
        assert(cards@.take(i as int) == cards@);
        lemma_card_orders();
        cards@.lemma_sort_by_ensures(descending());
        vstd::seq_lib::lemma_sorted_unique(sorted@, cards@.sort_by(descending()), descending());
    }
    sorted
}

impl Card {
    /// Whether this card comes before the other one or is the same card.
    /// Cards go by their face values; of two cards with the same face, the
    /// one with fewer bulls comes first.
    pub open spec fn not_above(self, other: Card) -> bool {
        self.face < other.face || (self.face == other.face && self.bull <= other.bull)
    }

    /// Returns whether this card comes before the other one.
    pub fn lower_than(&self, other: &Card) -> (lower: bool)
        ensures
            lower == (self.not_above(*other) && *self != *other),
    {
        self.face < other.face || (self.face == other.face && self.bull < other.bull)
    }

    /// Whether the card belongs to a deck of the given configuration.
    pub open spec fn valid(self, config: Configuration) -> bool {
        &&& 1 <= self.face <= config.deck_size
        &&& config.bull_range.0 <= self.bull <= config.bull_range.1
    }

    /// Builds a card of the given configuration, or says which of the two
    /// values is out of range; the face is examined first.
    pub fn new(face: u8, bull: u8, config: &Configuration) -> (result: Result<
        Card,
        StructureError,
    >)
        ensures
            result == Card::checked_spec(face, bull, *config),
            result is Ok <==> (Card { face, bull }).valid(*config),
    {
        if face < 1 || face > config.deck_size {
            Err(StructureError::Face(face))
        } else if bull < config.bull_range.0 || bull > config.bull_range.1 {
            Err(StructureError::Bull(bull))
        } else {
            Ok(Card { face, bull })
        }
    }

    /// The card of two values, or the fault of the first of them that is out
    /// of range.
    pub open spec fn checked_spec(face: u8, bull: u8, config: Configuration) -> Result<
        Card,
        StructureError,
    > {
        if !(1 <= face <= config.deck_size) {
            Err(StructureError::Face(face))
        } else if !(config.bull_range.0 <= bull <= config.bull_range.1) {
            Err(StructureError::Bull(bull))
        } else {
            Ok(Card { face, bull })
        }
    }

    /// Given a function from face values to bull values, returns all the
    /// cards of a deck, by rising face value.
    pub fn deck<F: Fn(u8) -> u8>(f: F, config: &Configuration) -> (deck: Vec<Card>)
        requires
            forall|face: u8| 1 <= face <= config.deck_size ==> call_requires(f, (face,)),
            forall|face: u8, bull: u8|
                1 <= face <= config.deck_size && call_ensures(f, (face,), bull) ==> (Card {
                    face,
                    bull,
                }).valid(*config),
        ensures
            deck@.len() == config.deck_size,
            forall|i: int|
                0 <= i < deck@.len() ==> {
                    &&& (#[trigger] deck@[i]).face == i + 1
                    &&& deck@[i].valid(*config)
                    &&& call_ensures(f, (deck@[i].face,), deck@[i].bull)
                },
    {
        let mut deck: Vec<Card> = Vec::new();
        let mut face: u8 = 0;
        while face < config.deck_size
            invariant
                face <= config.deck_size,
                deck@.len() == face,
                forall|face: u8| 1 <= face <= config.deck_size ==> call_requires(f, (face,)),
                forall|face: u8, bull: u8|
                    1 <= face <= config.deck_size && call_ensures(f, (face,), bull) ==> (Card {
                        face,
                        bull,
                    }).valid(*config),
                forall|i: int|
                    0 <= i < deck@.len() ==> {
                        &&& (#[trigger] deck@[i]).face == i + 1
                        &&& deck@[i].valid(*config)
                        &&& call_ensures(f, (deck@[i].face,), deck@[i].bull)
                    },
            decreases config.deck_size - face,
        {
            face += 1;
            let bull = f(face);
            deck.push(Card { face, bull });
        }
        deck
    }

    /// Returns the face value of this card.
    pub fn face(&self) -> (f: u8)
        ensures
            f == self.face,
    {
        self.face
    }

    /// Returns the bull value of this card.
    pub fn bull(&self) -> (b: u8)
        ensures
            b == self.bull,
    {
        self.bull
    }
}

} // verus!
