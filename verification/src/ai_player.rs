use crate::board::{Board, StackId};
use crate::card::{descending, sort_descending, Card};
use crate::player::{Id, Player, Sight};
use crate::stack::bull_total;
use crate::text::{decimal_chars, titled};
use vstd::prelude::*;

verus! {

/// A computer player, implemented as a simple AI: it plays its lowest card,
/// and when it must take a stack it takes the one with the fewest bulls
/// that it has seen.
pub struct AiPlayer {
    id: Id,
    hand: Vec<Card>,
    pile: Vec<Card>,
    mind: Mind,
}

/// What the player has on its mind: the stack that it would take, and all
/// that it has seen.
struct Mind {
    choice: StackId,
    seen: Ghost<Seq<Sight>>,
}

/// The stack that the player prefers once it has looked at the first
/// `seen` stacks of a board, when it preferred `choice` before: each stack
/// with fewer bulls than the one preferred so far is preferred in turn.
pub open spec fn preferred(stacks: Seq<Seq<Card>>, choice: StackId, seen: nat) -> StackId
    decreases seen,
{
    if seen == 0 {
        choice
    } else {
        let before = preferred(stacks, choice, (seen - 1) as nat);
        if bull_total(stacks[seen - 1]) < bull_total(stacks[before.index()]) {
            StackId::at(seen - 1)
        } else {
            before
        }
    }
}

/// The stack that the player prefers after all that it has seen: stack `A`
/// at first, and after each board the stack that it prefers of that board.
pub open spec fn prefers(seen: Seq<Sight>) -> StackId
    decreases seen.len(),
{
    if seen.len() == 0 {
        StackId::A
    } else {
        match seen.last() {
            Sight::Board(stacks) => preferred(stacks, prefers(seen.drop_last()), 4),
            _ => prefers(seen.drop_last()),
        }
    }
}

impl Mind {
    /// The stack that the player would take is the one that it prefers
    /// after all that it has seen.
    #[verifier::type_invariant]
    spec fn made_up(self) -> bool {
        self.choice == prefers(self.seen@)
    }
}

impl AiPlayer {
    /// The stack that the player would take.
    pub closed spec fn choice(&self) -> StackId {
        self.mind.choice
    }

    /// Creates a new AI player with the given id. It holds no cards and
    /// would take stack `A`.
    pub fn new(id: Id) -> (player: AiPlayer)
        ensures
            player.ident() == id,
            player.holding() == Seq::<Card>::empty(),
            player.taken() == Seq::<Card>::empty(),
            player.seen() == Seq::<Sight>::empty(),
            player.choice() == StackId::A,
    {
        AiPlayer {
            id,
            hand: Vec::new(),
            pile: Vec::new(),
            mind: Mind { choice: StackId::A, seen: Ghost(Seq::empty()) },
        }
    }
}

impl Player for AiPlayer {
    closed spec fn ident(&self) -> Id {
        self.id
    }

    closed spec fn holding(&self) -> Seq<Card> {
        self.hand@
    }

    closed spec fn taken(&self) -> Seq<Card> {
        self.pile@
    }

    closed spec fn seen(&self) -> Seq<Sight> {
        self.mind.seen@
    }

    fn id(&self) -> (id: Id) {
        self.id
    }

    fn hand(&self) -> (cards: &[Card]) {
        self.hand.as_slice()
    }

    fn pile(&self) -> (cards: &[Card]) {
        self.pile.as_slice()
    }

    fn draw(&mut self, card: Card)
        ensures
            final(self).choice() == old(self).choice(),
    {
        self.hand.push(card)
    }

    /// Looks for the stack with the fewest bulls: starting from the stack
    /// that it preferred before, the player goes through the stacks in
    /// order and prefers each that has fewer bulls than the one preferred
    /// so far.
    fn look_at_board(&mut self, board: &Board)
        ensures
            final(self).choice() == preferred(board@, old(self).choice(), 4),
    {
        proof {
            use_type_invariant(&self.mind);
        }
        let ids = StackId::all();
        let mut best = self.mind.choice;
        let mut i: usize = 0;
        while i < 4
            invariant
                i <= 4,
                forall|k: int| 0 <= k < 4 ==> #[trigger] ids[k] == StackId::at(k),
                best == preferred(board@, self.mind.choice, i as nat),
            decreases 4 - i,
        {
            let id = ids[i];
            assert(id == StackId::at(i as int));
            if board.stack(id).fewer_bulls_than(board.stack(best)) {
                best = id;
            }
            i += 1;
        }
        let ghost seen = self.mind.seen@.push(Sight::Board(board@));
        proof {
            assert(seen.drop_last() =~= self.mind.seen@);
            assert(seen.last() == Sight::Board(board@));
        }
        self.mind = Mind { choice: best, seen: Ghost(seen) };
    }

    fn look_at_played(&mut self, played: &[(Card, Id)])
        ensures
            final(self).choice() == old(self).choice(),
    {
        proof {
            use_type_invariant(&self.mind);
        }
        let ghost seen = self.mind.seen@.push(Sight::Played(played@));
        proof {
            assert(seen.drop_last() =~= self.mind.seen@);
            assert(seen.last() == Sight::Played(played@));
        }
        self.mind = Mind { choice: self.mind.choice, seen: Ghost(seen) };
    }

    fn look_at_taken(&mut self, taken: (&[Card], Id))
        ensures
            final(self).choice() == old(self).choice(),
    {
        proof {
            use_type_invariant(&self.mind);
        }
        let ghost seen = self.mind.seen@.push(Sight::Taken(taken.0@, taken.1));
        proof {
            assert(seen.drop_last() =~= self.mind.seen@);
            assert(seen.last() == Sight::Taken(taken.0@, taken.1));
        }
        self.mind = Mind { choice: self.mind.choice, seen: Ghost(seen) };
    }

    /// Plays the lowest card of the hand, and keeps the others by falling
    /// value.
    fn play(&mut self) -> (card: Card)
        ensures
            old(self).holding().contains(card),
            forall|i: int|
                0 <= i < old(self).holding().len() ==> card.not_above(
                    #[trigger] old(self).holding()[i],
                ),
            card == old(self).holding().sort_by(descending()).last(),
            final(self).holding() == old(self).holding().sort_by(descending()).drop_last(),
            final(self).choice() == old(self).choice(),
    {
        let ghost sorted = self.hand@.sort_by(descending());
        proof {
            crate::card::lemma_card_orders();
            self.hand@.lemma_sort_by_ensures(descending());
            vstd::seq_lib::to_multiset_len(self.hand@);
            vstd::seq_lib::to_multiset_len(sorted);
            vstd::seq_lib::to_multiset_build(sorted.drop_last(), sorted.last());
            assert(sorted.drop_last().push(sorted.last()) == sorted);
            let lowest = sorted.last();
            vstd::seq_lib::to_multiset_contains(sorted, lowest);
            vstd::seq_lib::to_multiset_contains(self.hand@, lowest);
            assert(sorted.contains(lowest));
            assert forall|i: int| 0 <= i < self.hand@.len() implies lowest.not_above(
                #[trigger] self.hand@[i],
            ) by {
                let other = self.hand@[i];
                vstd::seq_lib::to_multiset_contains(sorted, other);
                vstd::seq_lib::to_multiset_contains(self.hand@, other);
                assert(self.hand@.contains(other));
                let j = choose|j: int| 0 <= j < sorted.len() && sorted[j] == other;
                if j < sorted.len() - 1 {
                    assert(descending()(sorted[j], sorted[sorted.len() - 1]));
                }
            }
        }
        self.hand = sort_descending(&self.hand);
        self.hand.pop().unwrap()
    }

    /// Names the stack that the player prefers after all that it has seen.
    fn choose_stack(&self) -> (id: StackId)
        ensures
            id == self.choice(),
            id == prefers(self.seen()),
    {
        proof {
            use_type_invariant(&self.mind);
        }
        self.mind.choice
    }

    fn take(&mut self, cards: Vec<Card>)
        ensures
            final(self).choice() == old(self).choice(),
    {
        let mut cards = cards;
        self.pile.append(&mut cards);
    }

    /// The player is called `AI Player` and its id.
    fn name(&self) -> (name: String)
        ensures
            name@ == "AI Player "@ + decimal_chars(self.ident()),
    {
        titled("AI Player ", self.id)
    }
}

} // verus!
