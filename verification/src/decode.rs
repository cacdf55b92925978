use crate::board::Board;
use crate::card::Card;
use crate::configuration::Configuration;
use crate::grammar::{
    closes, parse_card, parse_cards, parse_request, parse_stacks, read_card, read_cards,
    read_stacks, DecodeError,
};
use crate::lexer::{lex, tokenize};
use crate::message::{RequestMessage, RequestView, Tag};
use crate::stack::Stack;
use crate::starting_hand::StartingHand;
use crate::token::Token;
use crate::validation::{
    board_error, card_error, hand_error, lemma_board_error, lemma_hand_error, stack_error,
    StructureError,
};
use vstd::prelude::*;

verus! {

/// A value, unless something is wrong with what it holds.
pub open spec fn examined<T>(value: T, error: Option<StructureError>) -> Result<T, DecodeError> {
    match error {
        Some(e) => Err(DecodeError::Structure(e)),
        None => Ok(value),
    }
}

/// What is wrong with what a request holds, if anything.
pub open spec fn request_error(request: RequestView, config: Configuration) -> Option<
    StructureError,
> {
    match request {
        RequestView::StartRound(cards) => hand_error(cards, config),
        RequestView::TakeTurn(stacks) => board_error(stacks, config),
        RequestView::Choose(stacks) => board_error(stacks, config),
    }
}

/// The card that a text holds. The text is tokens and white space; its
/// tokens are those of one card, which belongs to the deck.
pub open spec fn decode_card_spec(text: Seq<u8>, config: Configuration) -> Result<
    Card,
    DecodeError,
> {
    match lex(text) {
        Some(tokens) => match parse_card(tokens) {
            Some(card) if tokens.len() == 5 => examined(card, card_error(card, config)),
            _ => Err(DecodeError::Malformed),
        },
        None => Err(DecodeError::Malformed),
    }
}

/// The cards that a text holds as an array, before they are examined.
pub open spec fn decode_cards_spec(text: Seq<u8>) -> Option<Seq<Card>> {
    match lex(text) {
        Some(tokens) => match parse_cards(tokens) {
            Some((cards, n)) if tokens.len() == n => Some(cards),
            _ => None,
        },
        None => None,
    }
}

/// The stack that a text holds: an array of cards of the deck, with one
/// card at least.
pub open spec fn decode_stack_spec(text: Seq<u8>, config: Configuration) -> Result<
    Seq<Card>,
    DecodeError,
> {
    match decode_cards_spec(text) {
        Some(cards) => examined(cards, stack_error(cards, config)),
        None => Err(DecodeError::Malformed),
    }
}

/// The starting hand that a text holds: an array of cards of the deck, one
/// for each turn of a round.
pub open spec fn decode_hand_spec(text: Seq<u8>, config: Configuration) -> Result<
    Seq<Card>,
    DecodeError,
> {
    match decode_cards_spec(text) {
        Some(cards) => examined(cards, hand_error(cards, config)),
        None => Err(DecodeError::Malformed),
    }
}

/// The board that a text holds: an array of four stacks.
pub open spec fn decode_board_spec(text: Seq<u8>, config: Configuration) -> Result<
    Seq<Seq<Card>>,
    DecodeError,
> {
    match lex(text) {
        Some(tokens) => match parse_stacks(tokens) {
            Some((stacks, n)) if tokens.len() == n => examined(
                stacks,
                board_error(stacks, config),
            ),
            _ => Err(DecodeError::Malformed),
        },
        None => Err(DecodeError::Malformed),
    }
}

/// The request that a text holds. The text is tokens and white space; its
/// tokens are an array of a word and a payload; the word is known; the
/// payload has the shape that goes with the word; and what the payload
/// holds is a starting hand or a board of the configuration. Of several
/// faults the first in this order is reported.
pub open spec fn decode_request_spec(text: Seq<u8>, config: Configuration) -> Result<
    RequestView,
    DecodeError,
> {
    match lex(text) {
        Some(tokens) => match parse_request(tokens) {
            Ok(request) => examined(request, request_error(request, config)),
            Err(e) => Err(e),
        },
        None => Err(DecodeError::Malformed),
    }
}

/// Reads the cards that some tokens are, all of them.
fn all_cards(tokens: &Vec<Token>) -> (cards: Option<Vec<Card>>)
    ensures
        match cards {
            Some(cards) => parse_cards(tokens@) == Some((cards@, tokens@.len())),
            None => match parse_cards(tokens@) {
                Some((_, n)) => n != tokens@.len(),
                None => true,
            },
        },
{
    assert(tokens@.skip(0) == tokens@);
    match read_cards(tokens, 0) {
        Some((cards, n)) => if n == tokens.len() {
            Some(cards)
        } else {
            None
        },
        None => None,
    }
}

/// Decodes a card.
pub fn decode_card(text: &[u8], config: &Configuration) -> (result: Result<Card, DecodeError>)
    ensures
        result == decode_card_spec(text@, *config),
        result is Ok ==> result->Ok_0.valid(*config),
{
    let tokens = match tokenize(text) {
        Some(tokens) => tokens,
        None => {
            return Err(DecodeError::Malformed);
        },
    };
    assert(tokens@.skip(0) == tokens@);
    match read_card(&tokens, 0) {
        Some(card) => {
            if tokens.len() != 5 {
                return Err(DecodeError::Malformed);
            }
            match Card::new(card.face, card.bull, config) {
                Ok(card) => Ok(card),
                Err(e) => Err(DecodeError::Structure(e)),
            }
        },
        None => Err(DecodeError::Malformed),
    }
}

/// Decodes a stack of a message.
pub fn decode_stack(text: &[u8], config: &Configuration) -> (result: Result<Stack, DecodeError>)
    ensures
        match result {
            Ok(stack) => decode_stack_spec(text@, *config) == Ok::<Seq<Card>, DecodeError>(stack@),
            Err(e) => decode_stack_spec(text@, *config) == Err::<Seq<Card>, DecodeError>(e),
        },
{
    let tokens = match tokenize(text) {
        Some(tokens) => tokens,
        None => {
            return Err(DecodeError::Malformed);
        },
    };
    match all_cards(&tokens) {
        Some(cards) => match crate::validation::stack(cards, config) {
            Ok(stack) => Ok(stack),
            Err(e) => Err(DecodeError::Structure(e)),
        },
        None => Err(DecodeError::Malformed),
    }
}

/// Decodes a starting hand.
pub fn decode_hand(text: &[u8], config: &Configuration) -> (result: Result<
    StartingHand,
    DecodeError,
>)
    ensures
        match result {
            Ok(hand) => decode_hand_spec(text@, *config) == Ok::<Seq<Card>, DecodeError>(hand@),
            Err(e) => decode_hand_spec(text@, *config) == Err::<Seq<Card>, DecodeError>(e),
        },
{
    let tokens = match tokenize(text) {
        Some(tokens) => tokens,
        None => {
            return Err(DecodeError::Malformed);
        },
    };
    match all_cards(&tokens) {
        Some(cards) => match crate::validation::hand(cards, config) {
            Ok(hand) => Ok(hand),
            Err(e) => Err(DecodeError::Structure(e)),
        },
        None => Err(DecodeError::Malformed),
    }
}

/// Decodes the board of a message.
pub fn decode_board(text: &[u8], config: &Configuration) -> (result: Result<Board, DecodeError>)
    ensures
        match result {
            Ok(board) => decode_board_spec(text@, *config) == Ok::<Seq<Seq<Card>>, DecodeError>(
                board@,
            ),
            Err(e) => decode_board_spec(text@, *config) == Err::<Seq<Seq<Card>>, DecodeError>(e),
        },
{
    let tokens = match tokenize(text) {
        Some(tokens) => tokens,
        None => {
            return Err(DecodeError::Malformed);
        },
    };
    assert(tokens@.skip(0) == tokens@);
    match read_stacks(&tokens, 0) {
        Some((stacks, n)) => {
            if n != tokens.len() {
                return Err(DecodeError::Malformed);
            }
            match crate::validation::board(stacks, config) {
                Ok(board) => Ok(board),
                Err(e) => Err(DecodeError::Structure(e)),
            }
        },
        None => Err(DecodeError::Malformed),
    }
}

/// Reads the payload of a request of the given kind from the tokens behind
/// the comma, and builds the request.
fn read_payload(tokens: &Vec<Token>, tag: Tag, config: &Configuration) -> (result: Result<
    RequestMessage,
    DecodeError,
>)
    requires
        tokens@.len() >= 3,
        tokens@[0] == Token::Open,
        tokens@[1] == Token::Tag(tag),
        tokens@[2] == Token::Comma,
    ensures
        match result {
            Ok(request) => Ok::<RequestView, DecodeError>(request@) == match parse_request(
                tokens@,
            ) {
                Ok(request) => examined(request, request_error(request, *config)),
                Err(e) => Err(e),
            },
            Err(e) => Err::<RequestView, DecodeError>(e) == match parse_request(tokens@) {
                Ok(request) => examined(request, request_error(request, *config)),
                Err(e) => Err(e),
            },
        },
{
    let ghost payload = tokens@.skip(3);
    match tag {
        Tag::StartRound => match read_cards(tokens, 3) {
            Some((cards, n)) => {
                assert(payload.skip(n as int) == tokens@.skip(3 + n));
                if tokens.len() - 3 - n != 1 {
                    return Err(DecodeError::Malformed);
                }
                match tokens[3 + n] {
                    Token::Close => {},
                    _ => {
                        return Err(DecodeError::Malformed);
                    },
                }
                match crate::validation::hand(cards, config) {
                    Ok(hand) => Ok(RequestMessage::StartRound(hand)),
                    Err(e) => Err(DecodeError::Structure(e)),
                }
            },
            None => Err(DecodeError::Malformed),
        },
        Tag::TakeTurn => match read_stacks(tokens, 3) {
            Some((stacks, n)) => {
                assert(payload.skip(n as int) == tokens@.skip(3 + n));
                if tokens.len() - 3 - n != 1 {
                    return Err(DecodeError::Malformed);
                }
                match tokens[3 + n] {
                    Token::Close => {},
                    _ => {
                        return Err(DecodeError::Malformed);
                    },
                }
                match crate::validation::board(stacks, config) {
                    Ok(board) => Ok(RequestMessage::TakeTurn(board)),
                    Err(e) => Err(DecodeError::Structure(e)),
                }
            },
            None => Err(DecodeError::Malformed),
        },
        Tag::Choose => match read_stacks(tokens, 3) {
            Some((stacks, n)) => {
                assert(payload.skip(n as int) == tokens@.skip(3 + n));
                if tokens.len() - 3 - n != 1 {
                    return Err(DecodeError::Malformed);
                }
                match tokens[3 + n] {
                    Token::Close => {},
                    _ => {
                        return Err(DecodeError::Malformed);
                    },
                }
                match crate::validation::board(stacks, config) {
                    Ok(board) => Ok(RequestMessage::Choose(board)),
                    Err(e) => Err(DecodeError::Structure(e)),
                }
            },
            None => Err(DecodeError::Malformed),
        },
    }
}

/// Decodes a request. A request that comes out keeps to the structure that
/// the configuration asks for.
pub fn decode_request(text: &[u8], config: &Configuration) -> (result: Result<
    RequestMessage,
    DecodeError,
>)
    ensures
        match result {
            Ok(request) => decode_request_spec(text@, *config) == Ok::<RequestView, DecodeError>(
                request@,
            ),
            Err(e) => decode_request_spec(text@, *config) == Err::<RequestView, DecodeError>(e),
        },
        result is Ok ==> result->Ok_0@.valid(*config),
{
    let tokens = match tokenize(text) {
        Some(tokens) => tokens,
        None => {
            return Err(DecodeError::Malformed);
        },
    };
    if tokens.len() < 2 {
        return Err(DecodeError::Malformed);
    }
    match tokens[0] {
        Token::Open => {},
        _ => {
            return Err(DecodeError::Malformed);
        },
    }
    let tag = match tokens[1] {
        Token::Word => {
            return Err(DecodeError::UnknownTag);
        },
        Token::Tag(tag) => tag,
        _ => {
            return Err(DecodeError::Malformed);
        },
    };
    if tokens.len() < 3 {
        return Err(DecodeError::Malformed);
    }
    match tokens[2] {
        Token::Comma => {},
        _ => {
            return Err(DecodeError::Malformed);
        },
    }
    let result = read_payload(&tokens, tag, config);
    proof {
        if result is Ok {
            match result->Ok_0@ {
                RequestView::StartRound(cards) => lemma_hand_error(cards, *config),
                RequestView::TakeTurn(stacks) => lemma_board_error(stacks, *config),
                RequestView::Choose(stacks) => lemma_board_error(stacks, *config),
            }
        }
    }
    result
}

} // verus!
