use crate::card::Card;
use crate::configuration::Configuration;
use crate::stack::{stack_views, Stack};
use crate::validation::StructureError;
use vstd::prelude::*;

verus! {

/// Names one of the four stacks of the board.
#[derive(Copy, Clone, Debug, PartialEq, Eq, Structural)]
pub enum StackId {
    A,
    B,
    C,
    D,
}

impl StackId {
    /// The position of the stack on the board, from 0 for `A` to 3 for `D`.
    pub open spec fn index(self) -> int {
        match self {
            StackId::A => 0,
            StackId::B => 1,
            StackId::C => 2,
            StackId::D => 3,
        }
    }

    /// The name of the stack at a position.
    pub open spec fn at(index: int) -> StackId {
        if index == 0 {
            StackId::A
        } else if index == 1 {
            StackId::B
        } else if index == 2 {
            StackId::C
        } else {
            StackId::D
        }
    }

    /// Returns the four names, in the order of the stacks on the board.
    pub fn all() -> (ids: [StackId; 4])
        ensures
            forall|i: int| 0 <= i < 4 ==> #[trigger] ids[i] == StackId::at(i),
    {
        [StackId::A, StackId::B, StackId::C, StackId::D]
    }
}

/// The playing field: four stacks of cards, named `A` to `D`.
#[derive(Debug)]
pub struct Board {
    stacks: [Stack; 4],
}

impl View for Board {
    type V = Seq<Seq<Card>>;

    /// The four stacks in order, each with its cards bottom first.
    closed spec fn view(&self) -> Seq<Seq<Card>> {
        Seq::new(4, |i: int| self.stacks[i]@)
    }
}

/// The face value of the card on top of a stack that holds one.
pub open spec fn top_face(stack: Seq<Card>) -> int {
    stack.last().face as int
}

/// Whether a card of the given face value may go on top of a stack.
pub open spec fn fits(stack: Seq<Card>, face: u8) -> bool {
    top_face(stack) < face
}

/// Where a card of the given face value goes: on the stack whose top card is
/// the largest of those below the card; of several such stacks, on the last.
pub open spec fn is_closest_smaller(stacks: Seq<Seq<Card>>, face: u8, index: int) -> bool {
    &&& 0 <= index < 4
    &&& fits(stacks[index], face)
    &&& forall|j: int|
        0 <= j < 4 && fits(#[trigger] stacks[j], face) ==> top_face(stacks[j]) <= top_face(
            stacks[index],
        )
    &&& forall|j: int|
        index < j < 4 && fits(#[trigger] stacks[j], face) ==> top_face(stacks[j]) < top_face(
            stacks[index],
        )
}

impl Board {
    /// A board holds four stacks.
    pub proof fn lemma_four_stacks(&self)
        ensures
            self@.len() == 4,
    {
    }

    /// Whether every stack holds a card, as it does once the dealer has
    /// flipped the first cards and in every board of a message.
    pub open spec fn ready(&self) -> bool {
        forall|i: int| 0 <= i < 4 ==> (#[trigger] self@[i]).len() > 0
    }

    /// Builds the board from its four stacks.
    pub fn new(stacks: [Stack; 4]) -> (board: Board)
        ensures
            board@ == Seq::new(4, |i: int| stacks[i]@),
    {
        Board { stacks }
    }

    /// Builds the board of a message from the stacks that were decoded:
    /// there must be four of them.
    pub fn checked(stacks: Vec<Stack>) -> (result: Result<Board, StructureError>)
        ensures
            match result {
                Ok(board) => stacks@.len() == 4 && board@ == stack_views(stacks@),
                Err(e) => stacks@.len() != 4 && e == StructureError::StackCount(stacks.len()),
            },
    {
        let mut stacks = stacks;
        if stacks.len() != 4 {
            return Err(StructureError::StackCount(stacks.len()));
        }
        let ghost given = stacks@;
        let d = stacks.pop().unwrap();
        let c = stacks.pop().unwrap();
        let b = stacks.pop().unwrap();
        let a = stacks.pop().unwrap();
        let board = Board { stacks: [a, b, c, d] };
        assert(board@ =~= stack_views(given));
        Ok(board)
    }

    /// Returns the stack of the given name.
    pub fn stack(&self, id: StackId) -> (stack: &Stack)
        ensures
            stack@ == self@[id.index()],
    {
        match id {
            StackId::A => &self.stacks[0],
            StackId::B => &self.stacks[1],
            StackId::C => &self.stacks[2],
            StackId::D => &self.stacks[3],
        }
    }

    /// Gives up the board for one of its stacks.
    pub fn take(self, id: StackId) -> (stack: Stack)
        ensures
            stack@ == self@[id.index()],
    {
        let mut board = self;
        let mut stack = Stack::default();
        match id {
            StackId::A => core::mem::swap(&mut stack, &mut board.stacks[0]),
            StackId::B => core::mem::swap(&mut stack, &mut board.stacks[1]),
            StackId::C => core::mem::swap(&mut stack, &mut board.stacks[2]),
            StackId::D => core::mem::swap(&mut stack, &mut board.stacks[3]),
        }
        stack
    }

    /// Returns the name of the stack on which the card goes: the one whose
    /// top card has the largest face value below that of the card. Where
    /// the card is below every stack there is no such stack.
    pub fn closest_smaller(&self, card: &Card) -> (id: Option<StackId>)
        requires
            self.ready(),
        ensures
            match id {
                Some(id) => is_closest_smaller(self@, card.face, id.index()),
                None => forall|j: int| 0 <= j < 4 ==> !fits(#[trigger] self@[j], card.face),
            },
    {
        let ids = StackId::all();
        let mut best: Option<(StackId, u8)> = None;
        let mut i: usize = 0;
        while i < 4
            invariant
                i <= 4,
                self.ready(),
                forall|k: int| 0 <= k < 4 ==> #[trigger] ids[k] == StackId::at(k),
                match best {
                    Some((id, face)) => {
                        &&& id.index() < i
                        &&& face == top_face(self@[id.index()])
                        &&& fits(self@[id.index()], card.face)
                        &&& forall|j: int|
                            0 <= j < i && fits(#[trigger] self@[j], card.face) ==> top_face(
                                self@[j],
                            ) <= face
                        &&& forall|j: int|
                            id.index() < j < i && fits(#[trigger] self@[j], card.face) ==> top_face(
                                self@[j],
                            ) < face
                    },
                    None => forall|j: int| 0 <= j < i ==> !fits(#[trigger] self@[j], card.face),
                },
            decreases 4 - i,
        {
            let id = ids[i];
            assert(id == StackId::at(i as int));
            assert(self@[i as int].len() > 0);
            let top = self.stack(id).last().unwrap();
            if card.face > top.face {
                let better = match best {
                    Some((_, face)) => top.face >= face,
                    None => true,
                };
                if better {
                    best = Some((id, top.face));
                }
            }
            i += 1;
        }
        match best {
            Some((id, _)) => Some(id),
            None => None,
        }
    }

    /// Puts a card on top of the stack of the given name, which must not be
    /// full.
    pub fn push(&mut self, id: StackId, card: Card, config: &Configuration)
        requires
            old(self)@[id.index()].len() != config.stack_size,
        ensures
            final(self)@ == old(self)@.update(id.index(), old(self)@[id.index()].push(card)),
    {
        match id {
            StackId::A => self.stacks[0].push(card, config),
            StackId::B => self.stacks[1].push(card, config),
            StackId::C => self.stacks[2].push(card, config),
            StackId::D => self.stacks[3].push(card, config),
        }
        assert(self@ =~= old(self)@.update(id.index(), old(self)@[id.index()].push(card)));
    }

    /// Hands out the cards of the stack of the given name, bottom first, and
    /// leaves that stack empty.
    pub fn give(&mut self, id: StackId) -> (cards: Vec<Card>)
        ensures
            cards@ == old(self)@[id.index()],
            final(self)@ == old(self)@.update(id.index(), Seq::<Card>::empty()),
    {
        let cards = match id {
            StackId::A => self.stacks[0].give(),
            StackId::B => self.stacks[1].give(),
            StackId::C => self.stacks[2].give(),
            StackId::D => self.stacks[3].give(),
        };
        assert(self@ =~= old(self)@.update(id.index(), Seq::<Card>::empty()));
        cards
    }

    /// Clears the board, removing all cards from all stacks.
    pub fn clear(&mut self)
        ensures
            final(self)@ == Seq::new(4, |i: int| Seq::<Card>::empty()),
    {
        self.stacks[0].clear();
        self.stacks[1].clear();
        self.stacks[2].clear();
        self.stacks[3].clear();
        assert(self@ =~= Seq::new(4, |i: int| Seq::<Card>::empty()));
    }
}

impl Default for Board {
    /// The board with four empty stacks.
    fn default() -> (board: Board)
        ensures
            board@ == Seq::new(4, |i: int| Seq::<Card>::empty()),
    {
        let board = Board {
            stacks: [Stack::default(), Stack::default(), Stack::default(), Stack::default()],
        };
        assert(board@ =~= Seq::new(4, |i: int| Seq::<Card>::empty()));
        board
    }
}

impl core::ops::Index<StackId> for Board {
    type Output = Stack;

    /// Returns the stack of the given name.
    fn index(&self, index: StackId) -> (stack: &Stack)
        ensures
            stack@ == self@[index.index()],
    {
        self.stack(index)
    }
}

impl vstd::std_specs::core::IndexSpecImpl<StackId> for Board {
    /// Every name is that of a stack of the board.
    open spec fn index_req(&self, index: &StackId) -> bool {
        true
    }
}

} // verus!
