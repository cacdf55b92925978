use crate::card::Card;
use crate::configuration::Configuration;
use vstd::prelude::*;

verus! {

/// Why some cards are not a starting hand.
#[derive(Debug, PartialEq, Eq, Clone, Copy, Structural)]
pub enum Error {
    /// The hand was given this number of cards, which is not the number of
    /// turns in a round.
    CardLength(usize),
}

impl Error {
    /// A short description of the error.
    pub fn description(&self) -> (text: &'static str)
        ensures
            text@ == "invalid number of cards in starting hand"@,
    {
        "invalid number of cards in starting hand"
    }

    /// The number of cards that was refused.
    pub fn card_count(&self) -> (n: usize)
        ensures
            *self == Error::CardLength(n),
    {
        match self {
            Error::CardLength(n) => *n,
        }
    }
}

/// The cards dealt to a player at the start of a round: one for each turn.
#[derive(Debug)]
pub struct StartingHand {
    cards: Vec<Card>,
}

impl View for StartingHand {
    type V = Seq<Card>;

    /// The cards of the hand, in the order in which they were dealt.
    closed spec fn view(&self) -> Seq<Card> {
        self.cards@
    }
}

impl StartingHand {
    /// Builds a starting hand: the number of cards must be the configured
    /// number of turns.
    pub fn new(cards: Vec<Card>, config: &Configuration) -> (result: Result<StartingHand, Error>)
        ensures
            match result {
                Ok(hand) => cards@.len() == config.turn_count && hand@ == cards@,
                Err(e) => cards@.len() != config.turn_count && e == Error::CardLength(cards.len()),
            },
    {
        if cards.len() != config.turn_count {
            Err(Error::CardLength(cards.len()))
        } else {
            Ok(StartingHand { cards })
        }
    }

    /// Gives up the hand for its cards.
    pub fn take(self) -> (cards: Vec<Card>)
        ensures
            cards@ == self@,
    {
        self.cards
    }

    /// Returns the cards of the hand.
    pub fn cards(&self) -> (cards: &Vec<Card>)
        ensures
            cards@ == self@,
    {
        &self.cards
    }
}

} // verus!
