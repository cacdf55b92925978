use crate::board::{Board, StackId};
use crate::card::Card;
use crate::message::{RequestMessage, RequestView, ResponseMessage, ResponseView};
use crate::player::{Player, Sight};
use crate::stack::Stack;
use crate::starting_hand::StartingHand;
use vstd::prelude::*;

verus! {

/// Stands between the messages of a server and a player: it hands what a
/// request holds to the player and wraps what the player decides into the
/// response.
pub struct PlayerProxy<P: Player> {
    pub player: P,
}

/// Whether a player can be asked what a request asks: every stack of a
/// board holds a card, and a player who is to play a card holds one.
pub open spec fn askable(request: RequestView, holding: Seq<Card>) -> bool {
    match request {
        RequestView::StartRound(_) => true,
        RequestView::TakeTurn(stacks) => {
            &&& holding.len() > 0
            &&& stacks.len() == 4
            &&& forall|i: int| 0 <= i < 4 ==> (#[trigger] stacks[i]).len() > 0
        },
        RequestView::Choose(stacks) => {
            &&& stacks.len() == 4
            &&& forall|i: int| 0 <= i < 4 ==> (#[trigger] stacks[i]).len() > 0
        },
    }
}

/// Whether a response answers a request, given the cards that the player
/// held before and holds now: a round's start is acknowledged and its cards
/// are in the hand, behind those held before; a turn is answered with a
/// card that left the hand; a choice is answered with the cards of one of
/// the stacks of the board.
pub open spec fn answers(
    request: RequestView,
    response: ResponseView,
    before: Seq<Card>,
    after: Seq<Card>,
) -> bool {
    match request {
        RequestView::StartRound(cards) => response == ResponseView::StartRound && after == before
            + cards,
        RequestView::TakeTurn(_) => {
            &&& response is TakeTurn
            &&& before.to_multiset() == after.to_multiset().insert(response->TakeTurn_0)
            &&& after.len() == before.len() - 1
        },
        RequestView::Choose(stacks) => {
            &&& response is Choose
            &&& exists|id: StackId| response->Choose_0 == #[trigger] stacks[id.index()]
            &&& after == before
        },
    }
}

/// What a player has seen once a request was passed on: the board of a
/// turn or of a choice, and no more than before at the start of a round.
pub open spec fn shown(request: RequestView, before: Seq<Sight>) -> Seq<Sight> {
    match request {
        RequestView::StartRound(_) => before,
        RequestView::TakeTurn(stacks) => before.push(Sight::Board(stacks)),
        RequestView::Choose(stacks) => before.push(Sight::Board(stacks)),
    }
}

impl<P: Player> PlayerProxy<P> {
    /// Passes a request on to the player and returns the player's answer.
    pub fn process_message(&mut self, msg: RequestMessage) -> (response: ResponseMessage)
        requires
            askable(msg@, old(self).player.holding()),
        ensures
            answers(msg@, response@, old(self).player.holding(), final(self).player.holding()),
            final(self).player.seen() == shown(msg@, old(self).player.seen()),
            final(self).player.taken() == old(self).player.taken(),
            final(self).player.ident() == old(self).player.ident(),
            match msg {
                RequestMessage::StartRound(_) => true,
                RequestMessage::TakeTurn(board) => exists|looking: &mut P, playing: &mut P|
                    {
                        &&& *looking == old(self).player
                        &&& #[trigger] call_ensures(P::look_at_board, (looking, &board), ())
                        &&& *playing == *final(looking)
                        &&& #[trigger] call_ensures(P::play, (playing,), response@->TakeTurn_0)
                        &&& *final(playing) == final(self).player
                    },
                RequestMessage::Choose(board) => {
                    &&& exists|looking: &mut P|
                        {
                            &&& *looking == old(self).player
                            &&& #[trigger] call_ensures(P::look_at_board, (looking, &board), ())
                            &&& *final(looking) == final(self).player
                        }
                    &&& exists|id: StackId|
                        {
                            &&& #[trigger] call_ensures(
                                P::choose_stack,
                                (&final(self).player,),
                                id,
                            )
                            &&& response@->Choose_0 == board@[id.index()]
                        }
                },
            },
    {
        match msg {
            RequestMessage::StartRound(hand) => {
                self.start_round(hand);
                ResponseMessage::StartRound
            },
            RequestMessage::TakeTurn(board) => ResponseMessage::TakeTurn(self.take_turn(board)),
            RequestMessage::Choose(board) => ResponseMessage::Choose(self.choose_stack(board)),
        }
    }

    /// Deals the cards of a starting hand to the player, in their order.
    pub fn start_round(&mut self, hand: StartingHand)
        ensures
            final(self).player.holding() == old(self).player.holding() + hand@,
            final(self).player.seen() == old(self).player.seen(),
            final(self).player.taken() == old(self).player.taken(),
            final(self).player.ident() == old(self).player.ident(),
    {
        let cards = hand.take();
        let mut i: usize = 0;
        assert(cards@.take(0) == Seq::<Card>::empty());
        assert(self.player.holding() + Seq::<Card>::empty() == self.player.holding());
        while i < cards.len()
            invariant
                i <= cards@.len(),
                self.player.holding() == old(self).player.holding() + cards@.take(i as int),
                self.player.seen() == old(self).player.seen(),
                self.player.taken() == old(self).player.taken(),
                self.player.ident() == old(self).player.ident(),
            decreases cards.len() - i,
        {
            self.player.draw(cards[i]);
            assert(cards@.take(i + 1) == cards@.take(i as int).push(cards@[i as int]));
            assert((old(self).player.holding() + cards@.take(i as int)).push(cards@[i as int])
                == old(self).player.holding() + cards@.take(i + 1));
            i += 1;
        }
        assert(cards@.take(i as int) == cards@);
    }

    /// Shows the board to the player and returns the card that the player
    /// plays.
    pub fn take_turn(&mut self, board: Board) -> (card: Card)
        requires
            board.ready(),
            old(self).player.holding().len() > 0,
        ensures
            old(self).player.holding().to_multiset()
                == final(self).player.holding().to_multiset().insert(card),
            final(self).player.holding().len() == old(self).player.holding().len() - 1,
            final(self).player.seen() == old(self).player.seen().push(Sight::Board(board@)),
            final(self).player.taken() == old(self).player.taken(),
            final(self).player.ident() == old(self).player.ident(),
            exists|looking: &mut P, playing: &mut P|
                {
                    &&& *looking == old(self).player
                    &&& #[trigger] call_ensures(P::look_at_board, (looking, &board), ())
                    &&& *playing == *final(looking)
                    &&& #[trigger] call_ensures(P::play, (playing,), card)
                    &&& *final(playing) == final(self).player
                },
    {
        self.player.look_at_board(&board);
        self.player.play()
    }

    /// Shows the board to the player and returns the stack that the player
    /// chooses, with its cards.
    pub fn choose_stack(&mut self, board: Board) -> (stack: Stack)
        requires
            board.ready(),
        ensures
            exists|id: StackId|
                {
                    &&& #[trigger] call_ensures(P::choose_stack, (&final(self).player,), id)
                    &&& stack@ == board@[id.index()]
                },
            exists|looking: &mut P|
                {
                    &&& *looking == old(self).player
                    &&& #[trigger] call_ensures(P::look_at_board, (looking, &board), ())
                    &&& *final(looking) == final(self).player
                },
            final(self).player.holding() == old(self).player.holding(),
            final(self).player.seen() == old(self).player.seen().push(Sight::Board(board@)),
            final(self).player.taken() == old(self).player.taken(),
            final(self).player.ident() == old(self).player.ident(),
    {
        self.player.look_at_board(&board);
        let id = self.player.choose_stack();
        let stack = board.take(id);
        assert(stack@ == board@[id.index()]);
        stack
    }
}

} // verus!
