use crate::board::Board;
use crate::card::Card;
use crate::grammar::{
    card_tokens, cards_tail_tokens, cards_tokens, request_tokens, stacks_tail_tokens,
    stacks_tokens,
};
use crate::message::{RequestMessage, RequestView, ResponseMessage, ResponseView, Tag};
use crate::stack::Stack;
use crate::starting_hand::StartingHand;
use crate::token::{
    lemma_tokens_text_concat, lemma_tokens_text_single, push_token, tokens_text, Token,
};
use vstd::prelude::*;

verus! {

/// The text of a card: `[face,bull]`.
pub open spec fn card_text(card: Card) -> Seq<u8> {
    tokens_text(card_tokens(card))
}

/// The text of some cards, be they a hand or a stack: an array of cards.
pub open spec fn cards_text(cards: Seq<Card>) -> Seq<u8> {
    tokens_text(cards_tokens(cards))
}

/// The text of a board: an array of its stacks.
pub open spec fn stacks_text(stacks: Seq<Seq<Card>>) -> Seq<u8> {
    tokens_text(stacks_tokens(stacks))
}

/// The text of a request: an array of the word for its kind and its
/// payload.
pub open spec fn request_text(request: RequestView) -> Seq<u8> {
    tokens_text(request_tokens(request))
}

/// The text `true`.
pub open spec fn true_text() -> Seq<u8> {
    seq![116u8, 114, 117, 101]
}

/// The text `false`.
pub open spec fn false_text() -> Seq<u8> {
    seq![102u8, 97, 108, 115, 101]
}

/// The text of a response. It names no kind: a round's start is answered
/// with `true`, a turn with the card played, a choice with the cards of the
/// stack chosen.
pub open spec fn response_text(response: ResponseView) -> Seq<u8> {
    match response {
        ResponseView::StartRound => true_text(),
        ResponseView::TakeTurn(card) => card_text(card),
        ResponseView::Choose(cards) => cards_text(cards),
    }
}

/// The tokens that are still to be written of an array of cards when the
/// first `done` of them are written.
pub open spec fn cards_left(cards: Seq<Card>, done: int) -> Seq<Token> {
    if 0 < done < cards.len() {
        seq![Token::Comma] + cards_tail_tokens(cards.skip(done))
    } else {
        cards_tail_tokens(cards.skip(done))
    }
}

/// The tokens that are still to be written of an array of stacks when the
/// first `done` of them are written.
pub open spec fn stacks_left(stacks: Seq<Seq<Card>>, done: int) -> Seq<Token> {
    if 0 < done < stacks.len() {
        seq![Token::Comma] + stacks_tail_tokens(stacks.skip(done))
    } else {
        stacks_tail_tokens(stacks.skip(done))
    }
}

/// Appends the text of a card to a text.
pub fn write_card(text: &mut Vec<u8>, card: Card)
    ensures
        final(text)@ == old(text)@ + card_text(card),
{
    push_token(text, Token::Open);
    push_token(text, Token::Number(card.face));
    push_token(text, Token::Comma);
    push_token(text, Token::Number(card.bull));
    push_token(text, Token::Close);
    proof {
        let tokens = card_tokens(card);
        reveal_with_fuel(tokens_text, 6);
        assert(tokens.skip(1).skip(1).skip(1).skip(1).skip(1).len() == 0);
        assert(text@ =~= old(text)@ + card_text(card));
    }
}

/// Appends the text of some cards to a text.
pub fn write_cards(text: &mut Vec<u8>, cards: &Vec<Card>)
    ensures
        final(text)@ == old(text)@ + cards_text(cards@),
{
    push_token(text, Token::Open);
    let mut i: usize = 0;
    proof {
        assert(cards@.skip(0) == cards@);
        lemma_tokens_text_single(Token::Open);
        lemma_tokens_text_concat(seq![Token::Open], cards_tail_tokens(cards@));
    }
    while i < cards.len()
        invariant
            i <= cards@.len(),
            old(text)@ + cards_text(cards@) == text@ + tokens_text(cards_left(cards@, i as int)),
        decreases cards.len() - i,
    {
        let ghost before = text@;
        let ghost left = cards@.skip(i as int);
        if i > 0 {
            push_token(text, Token::Comma);
        }
        write_card(text, cards[i]);
        proof {
            assert(left[0] == cards@[i as int]);
            assert(left.skip(1) == cards@.skip(i + 1));
            let card = card_tokens(cards@[i as int]);
            let after = cards_left(cards@, i + 1);
            assert(cards_tail_tokens(left) == card + after) by {
                if left.len() > 1 {
                    assert(card + seq![Token::Comma] + cards_tail_tokens(left.skip(1)) == card + (
                    seq![Token::Comma] + cards_tail_tokens(left.skip(1))));
                }
            }
            lemma_tokens_text_concat(card, after);
            lemma_tokens_text_single(Token::Comma);
            lemma_tokens_text_concat(seq![Token::Comma], cards_tail_tokens(left));
            assert(text@ + tokens_text(after) =~= before + tokens_text(
                cards_left(cards@, i as int),
            ));
        }
        i += 1;
    }
    push_token(text, Token::Close);
    proof {
        assert(cards@.skip(i as int).len() == 0);
        lemma_tokens_text_single(Token::Close);
    }
}

/// Appends the text of some stacks to a text.
pub fn write_stacks(text: &mut Vec<u8>, board: &Board)
    ensures
        final(text)@ == old(text)@ + stacks_text(board@),
{
    push_token(text, Token::Open);
    let ids = crate::board::StackId::all();
    let mut i: usize = 0;
    proof {
        board.lemma_four_stacks();
        assert(board@.skip(0) == board@);
        lemma_tokens_text_single(Token::Open);
        lemma_tokens_text_concat(seq![Token::Open], stacks_tail_tokens(board@));
    }
    while i < 4
        invariant
            i <= 4,
            board@.len() == 4,
            forall|k: int| 0 <= k < 4 ==> #[trigger] ids[k] == crate::board::StackId::at(k),
            old(text)@ + stacks_text(board@) == text@ + tokens_text(stacks_left(board@, i as int)),
        decreases 4 - i,
    {
        let ghost before = text@;
        let ghost left = board@.skip(i as int);
        if i > 0 {
            push_token(text, Token::Comma);
        }
        let id = ids[i];
        assert(id == crate::board::StackId::at(i as int));
        write_cards(text, board.stack(id).cards());
        proof {
            assert(left[0] == board@[i as int]);
            assert(left.skip(1) == board@.skip(i + 1));
            let stack = cards_tokens(board@[i as int]);
            let after = stacks_left(board@, i + 1);
            assert(stacks_tail_tokens(left) == stack + after) by {
                if left.len() > 1 {
                    assert(stack + seq![Token::Comma] + stacks_tail_tokens(left.skip(1)) == stack
                        + (seq![Token::Comma] + stacks_tail_tokens(left.skip(1))));
                }
            }
            lemma_tokens_text_concat(stack, after);
            lemma_tokens_text_single(Token::Comma);
            lemma_tokens_text_concat(seq![Token::Comma], stacks_tail_tokens(left));
            assert(text@ + tokens_text(after) =~= before + tokens_text(
                stacks_left(board@, i as int),
            ));
        }
        i += 1;
    }
    push_token(text, Token::Close);
    proof {
        assert(board@.skip(i as int).len() == 0);
        lemma_tokens_text_single(Token::Close);
    }
}

/// Returns the text of a card.
pub fn encode_card(card: &Card) -> (text: Vec<u8>)
    ensures
        text@ == card_text(*card),
{
    let mut text: Vec<u8> = Vec::new();
    write_card(&mut text, *card);
    text
}

/// Returns the text of a stack: the array of its cards, bottom first.
pub fn encode_stack(stack: &Stack) -> (text: Vec<u8>)
    ensures
        text@ == cards_text(stack@),
{
    let mut text: Vec<u8> = Vec::new();
    write_cards(&mut text, stack.cards());
    text
}

/// Returns the text of a starting hand: the array of its cards.
pub fn encode_hand(hand: &StartingHand) -> (text: Vec<u8>)
    ensures
        text@ == cards_text(hand@),
{
    let mut text: Vec<u8> = Vec::new();
    write_cards(&mut text, hand.cards());
    text
}

/// Returns the text of a board: the array of its four stacks.
pub fn encode_board(board: &Board) -> (text: Vec<u8>)
    ensures
        text@ == stacks_text(board@),
{
    let mut text: Vec<u8> = Vec::new();
    write_stacks(&mut text, board);
    text
}

/// Returns the text of a request.
pub fn encode_request(request: &RequestMessage) -> (text: Vec<u8>)
    ensures
        text@ == request_text(request@),
{
    let mut text: Vec<u8> = Vec::new();
    push_token(&mut text, Token::Open);
    push_token(&mut text, Token::Tag(request.tag()));
    push_token(&mut text, Token::Comma);
    let ghost head = seq![Token::Open, Token::Tag(request@.tag()), Token::Comma];
    proof {
        reveal_with_fuel(tokens_text, 4);
        assert(head.skip(1).skip(1).skip(1).len() == 0);
        assert(text@ =~= tokens_text(head));
    }
    match request {
        RequestMessage::StartRound(hand) => {
            write_cards(&mut text, hand.cards());
            proof {
                lemma_tokens_text_concat(head, cards_tokens(hand@));
                lemma_tokens_text_concat(head + cards_tokens(hand@), seq![Token::Close]);
            }
        },
        RequestMessage::TakeTurn(board) => {
            write_stacks(&mut text, board);
            proof {
                lemma_tokens_text_concat(head, stacks_tokens(board@));
                lemma_tokens_text_concat(head + stacks_tokens(board@), seq![Token::Close]);
            }
        },
        RequestMessage::Choose(board) => {
            write_stacks(&mut text, board);
            proof {
                lemma_tokens_text_concat(head, stacks_tokens(board@));
                lemma_tokens_text_concat(head + stacks_tokens(board@), seq![Token::Close]);
            }
        },
    }
    push_token(&mut text, Token::Close);
    proof {
        lemma_tokens_text_single(Token::Close);
    }
    text
}

/// Returns the text of a response.
pub fn encode_response(response: &ResponseMessage) -> (text: Vec<u8>)
    ensures
        text@ == response_text(response@),
{
    match response {
        ResponseMessage::StartRound => {
            let text = vec![116u8, 114, 117, 101];
            assert(text@ =~= true_text());
            text
        },
        ResponseMessage::TakeTurn(card) => encode_card(card),
        ResponseMessage::Choose(stack) => encode_stack(stack),
    }
}

} // verus!
