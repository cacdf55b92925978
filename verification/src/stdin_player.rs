use crate::board::StackId;
use crate::card::Card;
use crate::custom_dealer::{all_digits, digits_value, lemma_digits_value_grows, PLUS};
use crate::lexer::is_digit;
use crate::player::Id;
use crate::token::ZERO;
use vstd::prelude::*;

verus! {

/// Why a line names no card of the hand.
#[derive(Debug, PartialEq, Eq, Clone, Copy, Structural)]
pub enum PickError {
    /// The line is no number.
    NotANumber,
    /// The line is the second number, and the hand has no card at that
    /// place: the last place is the first number.
    OutOfRange(usize, usize),
}

/// The place that a line names: one digit or more, with or without a plus
/// sign in front, if the number fits.
pub open spec fn place(line: Seq<u8>) -> Option<usize> {
    let digits = if line.len() > 0 && line[0] == PLUS {
        line.skip(1)
    } else {
        line
    };
    if digits.len() > 0 && all_digits(digits) && digits_value(digits) <= usize::MAX {
        Some(digits_value(digits) as usize)
    } else {
        None
    }
}

/// The stack that a line names: a line that is one of the letters `A` to
/// `D` names the stack of that letter.
pub open spec fn stack_named(line: Seq<u8>) -> Option<StackId> {
    if line == seq![65u8] {
        Some(StackId::A)
    } else if line == seq![66u8] {
        Some(StackId::B)
    } else if line == seq![67u8] {
        Some(StackId::C)
    } else if line == seq![68u8] {
        Some(StackId::D)
    } else {
        None
    }
}

/// Reads the place that a line names.
pub fn read_place(line: &[u8]) -> (found: Option<usize>)
    ensures
        found == place(line@),
{
    let start: usize = if line.len() > 0 && line[0] == PLUS {
        1
    } else {
        0
    };
    let ghost digits = line@.skip(start as int);
    if start == line.len() {
        return None;
    }
    let mut value: usize = 0;
    let mut i: usize = start;
    assert(digits.take(0) == Seq::<u8>::empty());
    while i < line.len()
        invariant
            start <= i <= line@.len(),
            start <= 1,
            digits == line@.skip(start as int),
            digits == if line@.len() > 0 && line@[0] == PLUS {
                line@.skip(1)
            } else {
                line@
            },
            all_digits(digits.take(i - start)),
            value == digits_value(digits.take(i - start)),
        decreases line.len() - i,
    {
        let byte = line[i];
        assert(digits[i - start] == byte);
        if byte < ZERO || byte > ZERO + 9 {
            assert(!is_digit(digits[i - start]));
            return None;
        }
        let ghost longer = digits.take(i - start + 1);
        proof {
            assert(longer.drop_last() == digits.take(i - start));
            assert(longer.last() == byte);
            assert forall|k: int| 0 <= k < longer.len() implies is_digit(#[trigger] longer[k]) by {
                if k < longer.len() - 1 {
                    assert(longer[k] == digits.take(i - start)[k]);
                }
            }
            lemma_digits_value_grows(digits, i - start + 1);
        }
        let tens = match value.checked_mul(10) {
            Some(tens) => tens,
            None => {
                return None;
            },
        };
        value = match tens.checked_add((byte - ZERO) as usize) {
            Some(sum) => sum,
            None => {
                return None;
            },
        };
        i += 1;
    }
    assert(digits.take(i - start) == digits);
    Some(value)
}

/// Reads the stack that a line names.
pub fn read_stack(line: &[u8]) -> (id: Option<StackId>)
    ensures
        id == stack_named(line@),
{
    if line.len() != 1 {
        return None;
    }
    let letter = line[0];
    assert(line@ =~= seq![letter]);
    if letter == 65 {
        Some(StackId::A)
    } else if letter == 66 {
        Some(StackId::B)
    } else if letter == 67 {
        Some(StackId::C)
    } else if letter == 68 {
        Some(StackId::D)
    } else {
        None
    }
}

/// The cards of a player who is asked for every decision, line by line.
#[derive(Debug)]
pub struct StdinPlayer {
    id: Id,
    hand: Vec<Card>,
    pile: Vec<Card>,
}

impl StdinPlayer {
    /// The id of the player.
    pub closed spec fn ident(&self) -> Id {
        self.id
    }

    /// The cards that the player holds.
    pub closed spec fn holding(&self) -> Seq<Card> {
        self.hand@
    }

    /// The cards that the player has taken.
    pub closed spec fn taken(&self) -> Seq<Card> {
        self.pile@
    }

    /// Creates a new player with the given id, who holds no cards.
    pub fn new(id: Id) -> (player: StdinPlayer)
        ensures
            player.ident() == id,
            player.holding() == Seq::<Card>::empty(),
            player.taken() == Seq::<Card>::empty(),
    {
        StdinPlayer { id, hand: Vec::new(), pile: Vec::new() }
    }

    /// Returns the id of the player.
    pub fn id(&self) -> (id: Id)
        ensures
            id == self.ident(),
    {
        self.id
    }

    /// Returns the cards that the player holds.
    pub fn hand(&self) -> (cards: &[Card])
        ensures
            cards@ == self.holding(),
    {
        self.hand.as_slice()
    }

    /// Returns the cards that the player has taken.
    pub fn pile(&self) -> (cards: &[Card])
        ensures
            cards@ == self.taken(),
    {
        self.pile.as_slice()
    }

    /// Draws a card into the player's hand.
    pub fn draw(&mut self, card: Card)
        ensures
            final(self).holding() == old(self).holding().push(card),
            final(self).taken() == old(self).taken(),
            final(self).ident() == old(self).ident(),
    {
        self.hand.push(card)
    }

    /// Takes some cards to add to the player's pile.
    pub fn take(&mut self, cards: Vec<Card>)
        ensures
            final(self).taken() == old(self).taken() + cards@,
            final(self).holding() == old(self).holding(),
            final(self).ident() == old(self).ident(),
    {
        let mut cards = cards;
        self.pile.append(&mut cards);
    }

    /// Plays the card at the place that was read from a line, if the hand
    /// has a card there. Otherwise the hand stays as it is and the player
    /// is to be asked again.
    pub fn pick_at(&mut self, found: Option<usize>) -> (result: Result<Card, PickError>)
        requires
            old(self).holding().len() > 0,
        ensures
            final(self).taken() == old(self).taken(),
            final(self).ident() == old(self).ident(),
            match result {
                Ok(card) => {
                    &&& found is Some
                    &&& found->0 < old(self).holding().len()
                    &&& card == old(self).holding()[found->0 as int]
                    &&& final(self).holding() == old(self).holding().remove(found->0 as int)
                },
                Err(e) => {
                    &&& final(self).holding() == old(self).holding()
                    &&& match found {
                        Some(given) => given >= old(self).holding().len() && e
                            == PickError::OutOfRange(
                            (old(self).holding().len() - 1) as usize,
                            given,
                        ),
                        None => e == PickError::NotANumber,
                    }
                },
            },
    {
        match found {
            Some(given) => if given < self.hand.len() {
                Ok(self.hand.remove(given))
            } else {
                Err(PickError::OutOfRange(self.hand.len() - 1, given))
            },
            None => Err(PickError::NotANumber),
        }
    }

    /// Plays the card at the place that a line names, if the line names a
    /// place and the hand has a card there.
    pub fn pick(&mut self, line: &[u8]) -> (result: Result<Card, PickError>)
        requires
            old(self).holding().len() > 0,
        ensures
            final(self).taken() == old(self).taken(),
            final(self).ident() == old(self).ident(),
            match result {
                Ok(card) => {
                    &&& place(line@) is Some
                    &&& place(line@)->0 < old(self).holding().len()
                    &&& card == old(self).holding()[place(line@)->0 as int]
                    &&& final(self).holding() == old(self).holding().remove(
                        place(line@)->0 as int,
                    )
                },
                Err(e) => {
                    &&& final(self).holding() == old(self).holding()
                    &&& match place(line@) {
                        Some(given) => given >= old(self).holding().len() && e
                            == PickError::OutOfRange(
                            (old(self).holding().len() - 1) as usize,
                            given,
                        ),
                        None => e == PickError::NotANumber,
                    }
                },
            },
    {
        self.pick_at(read_place(line))
    }
}

} // verus!
