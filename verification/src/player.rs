use crate::board::{Board, StackId};
use crate::card::Card;
use crate::stack::bull_total;
use vstd::prelude::*;

verus! {

/// A unique identifier for a player in the game.
pub type Id = u8;

/// Something that a player was given to look at.
pub enum Sight {
    /// A board, by its stacks.
    Board(Seq<Seq<Card>>),
    /// The cards that were played in a turn, each with the id of the player
    /// who played it.
    Played(Seq<(Card, Id)>),
    /// The cards of a stack that was taken, and the id of the player who
    /// took them.
    Taken(Seq<Card>, Id),
}

/// A player draws and plays cards in an attempt to win the game.
///
/// Whoever implements `Player` keeps to what the methods promise here: a
/// hand that grows by the cards drawn and shrinks by the cards played, a
/// pile that grows by the cards taken, and nothing else that changes
/// either. How a player decides is its own business.
///
/// The four specification functions say what a player is made of. A
/// player that is verified defines them. A player that is written in plain
/// Rust leaves them alone, and what the methods promise of it is taken on
/// trust.
pub trait Player {
    /// The id of the player.
    closed spec fn ident(&self) -> Id {
        arbitrary()
    }

    /// The cards that the player holds.
    closed spec fn holding(&self) -> Seq<Card> {
        arbitrary()
    }

    /// The cards that the player has taken. They count towards the score.
    closed spec fn taken(&self) -> Seq<Card> {
        arbitrary()
    }

    /// All that the player was given to look at, in the order in which it
    /// was shown.
    closed spec fn seen(&self) -> Seq<Sight> {
        arbitrary()
    }

    /// Returns the id of the player.
    fn id(&self) -> (id: Id)
        ensures
            id == self.ident(),
    ;

    /// Returns the cards that the player holds.
    fn hand(&self) -> (cards: &[Card])
        ensures
            cards@ == self.holding(),
    ;

    /// Returns the cards that the player has taken.
    fn pile(&self) -> (cards: &[Card])
        ensures
            cards@ == self.taken(),
    ;

    /// Draws a card into the player's hand.
    fn draw(&mut self, card: Card)
        ensures
            final(self).holding() == old(self).holding().push(card),
            final(self).taken() == old(self).taken(),
            final(self).ident() == old(self).ident(),
            final(self).seen() == old(self).seen(),
    ;

    /// Gives the player the board to look at. Every stack of it holds a
    /// card.
    fn look_at_board(&mut self, board: &Board)
        requires
            board.ready(),
        ensures
            final(self).holding() == old(self).holding(),
            final(self).taken() == old(self).taken(),
            final(self).ident() == old(self).ident(),
            final(self).seen() == old(self).seen().push(Sight::Board(board@)),
    ;

    /// Gives the player the played cards to look at, each with the id of
    /// the player who played it.
    fn look_at_played(&mut self, played: &[(Card, Id)])
        ensures
            final(self).holding() == old(self).holding(),
            final(self).taken() == old(self).taken(),
            final(self).ident() == old(self).ident(),
            final(self).seen() == old(self).seen().push(Sight::Played(played@)),
    ;

    /// Gives the player the cards of a stack that was taken to look at,
    /// with the id of the player who took them.
    fn look_at_taken(&mut self, taken: (&[Card], Id))
        ensures
            final(self).holding() == old(self).holding(),
            final(self).taken() == old(self).taken(),
            final(self).ident() == old(self).ident(),
            final(self).seen() == old(self).seen().push(Sight::Taken(taken.0@, taken.1)),
    ;

    /// Returns the card that the player wishes to play, out of the hand,
    /// which must hold a card.
    fn play(&mut self) -> (card: Card)
        requires
            old(self).holding().len() > 0,
        ensures
            old(self).holding().to_multiset() == final(self).holding().to_multiset().insert(card),
            final(self).holding().len() == old(self).holding().len() - 1,
            final(self).taken() == old(self).taken(),
            final(self).ident() == old(self).ident(),
            final(self).seen() == old(self).seen(),
    ;

    /// Returns the name of the stack that the player wishes to take when
    /// the card played is below every stack.
    fn choose_stack(&self) -> (id: StackId)
    ;

    /// Takes some cards to add to the player's pile.
    fn take(&mut self, cards: Vec<Card>)
        ensures
            final(self).taken() == old(self).taken() + cards@,
            final(self).holding() == old(self).holding(),
            final(self).ident() == old(self).ident(),
            final(self).seen() == old(self).seen(),
    ;

    /// Returns the score of the player: the sum of the bull values of the
    /// cards in the pile.
    fn score(&self) -> (score: u32)
        requires
            bull_total(self.taken()) <= u32::MAX,
        ensures
            score == bull_total(self.taken()),
    {
        count_bulls(self.pile())
    }

    /// Returns what the player is called in a report.
    fn name(&self) -> (name: String)
    ;
}

/// Returns the sum of the bull values of some cards.
pub fn count_bulls(cards: &[Card]) -> (sum: u32)
    requires
        bull_total(cards@) <= u32::MAX,
    ensures
        sum == bull_total(cards@),
{
    let mut sum: u32 = 0;
    let mut i: usize = 0;
    while i < cards.len()
        invariant
            i <= cards@.len(),
            sum == bull_total(cards@.take(i as int)),
            bull_total(cards@) <= u32::MAX,
        decreases cards.len() - i,
    {
        proof {
            let next = cards@.take(i + 1);
            assert(next.drop_last() == cards@.take(i as int));
            assert(cards@ == next + cards@.skip(i + 1));
            crate::stack::lemma_bull_total_concat(next, cards@.skip(i + 1));
        }
        sum = sum + cards[i].bull as u32;
        i += 1;
    }
    assert(cards@.take(i as int) == cards@);
    sum
}

} // verus!
