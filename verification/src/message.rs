use crate::board::Board;
use crate::card::Card;
use crate::configuration::Configuration;
use crate::validation::{is_board, is_hand};
use crate::stack::Stack;
use crate::starting_hand::StartingHand;
use vstd::prelude::*;

verus! {

/// The kind of a request, which is what the sequencing of a game goes by.
#[derive(Debug, PartialEq, Eq, Clone, Copy, Structural)]
pub enum Tag {
    StartRound,
    TakeTurn,
    Choose,
}

/// A request message is sent from the server to the client, indicating an
/// action for the client to pass to the underlying player.
#[derive(Debug)]
pub enum RequestMessage {
    /// The first message of every round, containing the cards for a player's
    /// hand.
    StartRound(StartingHand),
    /// Requests the client to play a card. The server passes the state of
    /// the board in this message.
    TakeTurn(Board),
    /// May be sent after a `TakeTurn` and before a new round has started.
    /// The server passes the state of the board, and the client must send
    /// back the stack the player chooses.
    Choose(Board),
}

/// What a request says, as plain sequences.
pub enum RequestView {
    StartRound(Seq<Card>),
    TakeTurn(Seq<Seq<Card>>),
    Choose(Seq<Seq<Card>>),
}

impl RequestView {
    /// The kind of the request.
    pub open spec fn tag(self) -> Tag {
        match self {
            RequestView::StartRound(_) => Tag::StartRound,
            RequestView::TakeTurn(_) => Tag::TakeTurn,
            RequestView::Choose(_) => Tag::Choose,
        }
    }

    /// Whether the request keeps to the structure that a configuration
    /// asks for.
    pub open spec fn valid(self, config: Configuration) -> bool {
        match self {
            RequestView::StartRound(cards) => is_hand(cards, config),
            RequestView::TakeTurn(stacks) => is_board(stacks, config),
            RequestView::Choose(stacks) => is_board(stacks, config),
        }
    }
}

impl View for RequestMessage {
    type V = RequestView;

    /// What the request says.
    open spec fn view(&self) -> RequestView {
        match self {
            RequestMessage::StartRound(hand) => RequestView::StartRound(hand@),
            RequestMessage::TakeTurn(board) => RequestView::TakeTurn(board@),
            RequestMessage::Choose(board) => RequestView::Choose(board@),
        }
    }
}

impl RequestMessage {
    /// Returns the kind of the request.
    pub fn tag(&self) -> (tag: Tag)
        ensures
            tag == self@.tag(),
    {
        match self {
            RequestMessage::StartRound(_) => Tag::StartRound,
            RequestMessage::TakeTurn(_) => Tag::TakeTurn,
            RequestMessage::Choose(_) => Tag::Choose,
        }
    }
}

/// A message that is sent from the client in response to a valid request:
/// one that is a request, and that came at a valid time.
#[derive(Debug)]
pub enum ResponseMessage {
    /// The response to a new round starting: the client accepted its hand.
    StartRound,
    /// A message containing the card a player wishes to play.
    TakeTurn(Card),
    /// A message containing the stack a player wishes to choose.
    Choose(Stack),
}

/// What a response says, as plain sequences.
pub enum ResponseView {
    StartRound,
    TakeTurn(Card),
    Choose(Seq<Card>),
}

impl ResponseView {
    /// The kind of the request that the response answers.
    pub open spec fn tag(self) -> Tag {
        match self {
            ResponseView::StartRound => Tag::StartRound,
            ResponseView::TakeTurn(_) => Tag::TakeTurn,
            ResponseView::Choose(_) => Tag::Choose,
        }
    }
}

impl View for ResponseMessage {
    type V = ResponseView;

    /// What the response says.
    open spec fn view(&self) -> ResponseView {
        match self {
            ResponseMessage::StartRound => ResponseView::StartRound,
            ResponseMessage::TakeTurn(card) => ResponseView::TakeTurn(*card),
            ResponseMessage::Choose(stack) => ResponseView::Choose(stack@),
        }
    }
}

} // verus!
