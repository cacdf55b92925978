use crate::card::Card;
use crate::configuration::Configuration;
use crate::validation::StructureError;
use vstd::prelude::*;

verus! {

/// The sum of the bull values of some cards.
pub open spec fn bull_total(cards: Seq<Card>) -> nat
    decreases cards.len(),
{
    if cards.len() == 0 {
        0
    } else {
        bull_total(cards.drop_last()) + cards.last().bull as nat
    }
}

/// No card adds more than 255 bulls.
pub proof fn lemma_bull_total_bound(cards: Seq<Card>)
    ensures
        bull_total(cards) <= 255 * cards.len(),
    decreases cards.len(),
{
    if cards.len() > 0 {
        lemma_bull_total_bound(cards.drop_last());
    }
}

/// The bulls of a pile that grew are those it had and those it got.
pub proof fn lemma_bull_total_concat(a: Seq<Card>, b: Seq<Card>)
    ensures
        bull_total(a + b) == bull_total(a) + bull_total(b),
    decreases b.len(),
{
    if b.len() == 0 {
        assert(a + b == a);
    } else {
        lemma_bull_total_concat(a, b.drop_last());
        assert((a + b).drop_last() == a + b.drop_last());
    }
}

/// Returns the sum of the bull values of some cards, however many they are.
pub fn wide_bulls(cards: &[Card]) -> (sum: u128)
    ensures
        sum == bull_total(cards@),
{
    let mut sum: u128 = 0;
    let mut i: usize = 0;
    while i < cards.len()
        invariant
            i <= cards@.len(),
            sum == bull_total(cards@.take(i as int)),
        decreases cards.len() - i,
    {
        proof {
            assert(cards@.take(i + 1).drop_last() == cards@.take(i as int));
            lemma_bull_total_bound(cards@.take(i as int));
        }
        sum = sum + cards[i].bull as u128;
        i += 1;
    }
    assert(cards@.take(i as int) == cards@);
    sum
}

/// A pile of cards on the board. Cards are put on top one by one; a player
/// who takes the stack takes all of it.
#[derive(Debug, Clone)]
pub struct Stack {
    cards: Vec<Card>,
}

impl View for Stack {
    type V = Seq<Card>;

    /// The cards of the stack, bottom first.
    closed spec fn view(&self) -> Seq<Card> {
        self.cards@
    }
}

/// What some rows of cards hold.
pub open spec fn rows(stacks: Seq<Vec<Card>>) -> Seq<Seq<Card>> {
    Seq::new(stacks.len(), |i: int| stacks[i]@)
}

/// What some stacks hold: for each stack its cards, bottom first.
pub open spec fn stack_views(stacks: Seq<Stack>) -> Seq<Seq<Card>> {
    Seq::new(stacks.len(), |i: int| stacks[i]@)
}

impl Stack {
    /// Builds a stack that holds the given cards, bottom first. There must
    /// be a card: the empty stack is what `default` gives and what `give`
    /// and `clear` leave behind, and no stack is built as one.
    pub fn new(cards: Vec<Card>) -> (result: Result<Stack, StructureError>)
        ensures
            match result {
                Ok(stack) => cards@.len() > 0 && stack@ == cards@,
                Err(e) => cards@.len() == 0 && e == StructureError::EmptyStack,
            },
    {
        if cards.len() == 0 {
            Err(StructureError::EmptyStack)
        } else {
            Ok(Stack { cards })
        }
    }

    /// Whether the stack holds exactly as many cards as a stack may hold.
    pub open spec fn is_full(self, config: Configuration) -> bool {
        self@.len() == config.stack_size
    }

    /// Returns true when this stack holds `stack_size` cards.
    pub fn full(&self, config: &Configuration) -> (full: bool)
        ensures
            full == self.is_full(*config),
    {
        self.cards.len() == config.stack_size
    }

    /// Returns the sum of the bull values of the cards in the stack.
    pub fn bulls(&self) -> (sum: u32)
        requires
            bull_total(self@) <= u32::MAX,
        ensures
            sum == bull_total(self@),
    {
        let mut sum: u32 = 0;
        let mut i: usize = 0;
        while i < self.cards.len()
            invariant
                i <= self.cards@.len(),
                sum == bull_total(self.cards@.take(i as int)),
                bull_total(self.cards@) <= u32::MAX,
            decreases self.cards.len() - i,
        {
            proof {
                let next = self.cards@.take(i + 1);
                assert(next.drop_last() == self.cards@.take(i as int));
                assert(self.cards@ == next + self.cards@.skip(i + 1));
                lemma_bull_total_concat(next, self.cards@.skip(i + 1));
            }
            sum = sum + self.cards[i].bull as u32;
            i += 1;
        }
        assert(self.cards@.take(i as int) == self.cards@);
        sum
    }

    /// Whether this stack carries fewer bulls than the other one. Unlike
    /// `bulls`, this asks nothing of the size of either stack.
    pub fn fewer_bulls_than(&self, other: &Stack) -> (fewer: bool)
        ensures
            fewer == (bull_total(self@) < bull_total(other@)),
    {
        wide_bulls(self.cards.as_slice()) < wide_bulls(other.cards.as_slice())
    }

    /// Adds a card to the top of the stack, which must not be full.
    pub fn push(&mut self, card: Card, config: &Configuration)
        requires
            !old(self).is_full(*config),
        ensures
            final(self)@ == old(self)@.push(card),
    {
        self.cards.push(card);
    }

    /// Hands out the cards of the stack, bottom first, and leaves the stack
    /// empty.
    pub fn give(&mut self) -> (cards: Vec<Card>)
        ensures
            cards@ == old(self)@,
            final(self)@ == Seq::<Card>::empty(),
    {
        let mut cards: Vec<Card> = Vec::new();
        core::mem::swap(&mut cards, &mut self.cards);
        cards
    }

    /// Returns the number of cards in the stack.
    pub fn len(&self) -> (n: usize)
        ensures
            n == self@.len(),
    {
        self.cards.len()
    }

    /// Returns true when the stack holds no card.
    pub fn is_empty(&self) -> (empty: bool)
        ensures
            empty == (self@.len() == 0),
    {
        self.cards.len() == 0
    }

    /// Returns the card on top of the stack, if there is one.
    pub fn last(&self) -> (top: Option<Card>)
        ensures
            top == if self@.len() == 0 { None } else { Some(self@.last()) },
    {
        if self.cards.len() == 0 {
            None
        } else {
            Some(self.cards[self.cards.len() - 1])
        }
    }

    /// Returns the cards of the stack, bottom first.
    pub fn cards(&self) -> (cards: &Vec<Card>)
        ensures
            cards@ == self@,
    {
        &self.cards
    }

    /// Removes all cards from the stack.
    pub fn clear(&mut self)
        ensures
            final(self)@ == Seq::<Card>::empty(),
    {
        self.cards.clear();
    }
}

impl Default for Stack {
    /// The empty stack.
    fn default() -> (stack: Stack)
        ensures
            stack@ == Seq::<Card>::empty(),
    {
        Stack { cards: Vec::new() }
    }
}

} // verus!
