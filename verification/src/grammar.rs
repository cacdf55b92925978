use crate::card::Card;
use crate::message::{RequestView, Tag};
use crate::stack::rows;
use crate::token::Token;
use crate::validation::StructureError;
use vstd::prelude::*;

verus! {

/// Why a text is not the value that was asked for.
#[derive(Debug, PartialEq, Eq, Clone, Copy, Structural)]
pub enum DecodeError {
    /// The text does not have the shape of the value: for a request, an
    /// array of a known word and a payload of the shape that goes with the
    /// word.
    Malformed,
    /// The text is an array whose first element is a word that names no
    /// request.
    UnknownTag,
    /// The text has the shape of the value, and what it holds is refused.
    Structure(StructureError),
}

/// The tokens of a card: its face and its bull value, as an array.
pub open spec fn card_tokens(card: Card) -> Seq<Token> {
    seq![
        Token::Open,
        Token::Number(card.face),
        Token::Comma,
        Token::Number(card.bull),
        Token::Close,
    ]
}

/// The tokens of some cards behind the bracket that opens their array: the
/// cards with commas between them, and the closing bracket.
pub open spec fn cards_tail_tokens(cards: Seq<Card>) -> Seq<Token>
    decreases cards.len(),
{
    if cards.len() == 0 {
        seq![Token::Close]
    } else if cards.len() == 1 {
        card_tokens(cards[0]) + seq![Token::Close]
    } else {
        card_tokens(cards[0]) + seq![Token::Comma] + cards_tail_tokens(cards.skip(1))
    }
}

/// The tokens of some cards: an array of cards.
pub open spec fn cards_tokens(cards: Seq<Card>) -> Seq<Token> {
    seq![Token::Open] + cards_tail_tokens(cards)
}

/// The tokens of some stacks behind the bracket that opens their array.
pub open spec fn stacks_tail_tokens(stacks: Seq<Seq<Card>>) -> Seq<Token>
    decreases stacks.len(),
{
    if stacks.len() == 0 {
        seq![Token::Close]
    } else if stacks.len() == 1 {
        cards_tokens(stacks[0]) + seq![Token::Close]
    } else {
        cards_tokens(stacks[0]) + seq![Token::Comma] + stacks_tail_tokens(stacks.skip(1))
    }
}

/// The tokens of some stacks: an array of arrays of cards.
pub open spec fn stacks_tokens(stacks: Seq<Seq<Card>>) -> Seq<Token> {
    seq![Token::Open] + stacks_tail_tokens(stacks)
}

/// The tokens of a request: an array of the word for its kind and its
/// payload.
pub open spec fn request_tokens(request: RequestView) -> Seq<Token> {
    seq![Token::Open, Token::Tag(request.tag()), Token::Comma] + (match request {
        RequestView::StartRound(cards) => cards_tokens(cards),
        RequestView::TakeTurn(stacks) => stacks_tokens(stacks),
        RequestView::Choose(stacks) => stacks_tokens(stacks),
    }) + seq![Token::Close]
}

/// The card that some tokens start with. A card takes five tokens.
pub open spec fn parse_card(tokens: Seq<Token>) -> Option<Card> {
    if tokens.len() >= 5 && tokens[0] == Token::Open && tokens[1] is Number && tokens[2]
        == Token::Comma && tokens[3] is Number && tokens[4] == Token::Close {
        Some(Card { face: tokens[1]->Number_0, bull: tokens[3]->Number_0 })
    } else {
        None
    }
}

/// The cards that some tokens start with, behind the bracket that opened
/// their array and with one card at least, and the number of tokens that
/// they take, the closing bracket included.
pub open spec fn parse_cards_tail(tokens: Seq<Token>) -> Option<(Seq<Card>, nat)>
    decreases tokens.len(),
{
    match parse_card(tokens) {
        None => None,
        Some(card) => if tokens.len() > 5 && tokens[5] == Token::Close {
            Some((seq![card], 6))
        } else if tokens.len() > 5 && tokens[5] == Token::Comma {
            match parse_cards_tail(tokens.skip(6)) {
                Some((cards, n)) => Some((seq![card] + cards, n + 6)),
                None => None,
            }
        } else {
            None
        },
    }
}

/// The array of cards that some tokens start with, and the number of tokens
/// that it takes.
pub open spec fn parse_cards(tokens: Seq<Token>) -> Option<(Seq<Card>, nat)> {
    if tokens.len() >= 2 && tokens[0] == Token::Open {
        if tokens[1] == Token::Close {
            Some((Seq::empty(), 2))
        } else {
            match parse_cards_tail(tokens.skip(1)) {
                Some((cards, n)) => Some((cards, n + 1)),
                None => None,
            }
        }
    } else {
        None
    }
}

/// The stacks that some tokens start with, behind the bracket that opened
/// their array and with one stack at least, and the number of tokens that
/// they take, the closing bracket included.
pub open spec fn parse_stacks_tail(tokens: Seq<Token>) -> Option<(Seq<Seq<Card>>, nat)>
    decreases tokens.len(),
{
    match parse_cards(tokens) {
        None => None,
        Some((cards, n)) => if n < tokens.len() && tokens[n as int] == Token::Close {
            Some((seq![cards], n + 1))
        } else if n < tokens.len() && tokens[n as int] == Token::Comma {
            match parse_stacks_tail(tokens.skip(n + 1 as int)) {
                Some((stacks, m)) => Some((seq![cards] + stacks, n + 1 + m)),
                None => None,
            }
        } else {
            None
        },
    }
}

/// The array of stacks that some tokens start with, and the number of
/// tokens that it takes.
pub open spec fn parse_stacks(tokens: Seq<Token>) -> Option<(Seq<Seq<Card>>, nat)> {
    if tokens.len() >= 2 && tokens[0] == Token::Open {
        if tokens[1] == Token::Close {
            Some((Seq::empty(), 2))
        } else {
            match parse_stacks_tail(tokens.skip(1)) {
                Some((stacks, n)) => Some((stacks, n + 1)),
                None => None,
            }
        }
    } else {
        None
    }
}

/// Whether some tokens are a closing bracket and nothing else.
pub open spec fn closes(tokens: Seq<Token>) -> bool {
    tokens.len() == 1 && tokens[0] == Token::Close
}

/// The request that some tokens are: an array of a known word and, behind
/// a comma, the payload that goes with the word. What the request holds is
/// not examined here.
pub open spec fn parse_request(tokens: Seq<Token>) -> Result<RequestView, DecodeError> {
    if tokens.len() >= 2 && tokens[0] == Token::Open && tokens[1] == Token::Word {
        Err(DecodeError::UnknownTag)
    } else if tokens.len() >= 3 && tokens[0] == Token::Open && tokens[1] is Tag && tokens[2]
        == Token::Comma {
        let payload = tokens.skip(3);
        match tokens[1]->Tag_0 {
            Tag::StartRound => match parse_cards(payload) {
                Some((cards, n)) if closes(payload.skip(n as int)) => Ok(
                    RequestView::StartRound(cards),
                ),
                _ => Err(DecodeError::Malformed),
            },
            Tag::TakeTurn => match parse_stacks(payload) {
                Some((stacks, n)) if closes(payload.skip(n as int)) => Ok(
                    RequestView::TakeTurn(stacks),
                ),
                _ => Err(DecodeError::Malformed),
            },
            Tag::Choose => match parse_stacks(payload) {
                Some((stacks, n)) if closes(payload.skip(n as int)) => Ok(
                    RequestView::Choose(stacks),
                ),
                _ => Err(DecodeError::Malformed),
            },
        }
    } else {
        Err(DecodeError::Malformed)
    }
}

/// Reads the card that starts at `from`.
pub fn read_card(tokens: &Vec<Token>, from: usize) -> (card: Option<Card>)
    requires
        from <= tokens@.len(),
    ensures
        card == parse_card(tokens@.skip(from as int)),
        card is Some ==> from + 5 <= tokens@.len(),
{
    let ghost rest = tokens@.skip(from as int);
    assert(forall|k: int| 0 <= k < rest.len() ==> rest[k] == tokens@[from + k]);
    if tokens.len() - from < 5 {
        return None;
    }
    match (tokens[from], tokens[from + 1], tokens[from + 2], tokens[from + 3], tokens[from + 4]) {
        (Token::Open, Token::Number(face), Token::Comma, Token::Number(bull), Token::Close) => Some(
            Card { face, bull },
        ),
        _ => None,
    }
}

/// What was read of an array and what the rest of the tokens holds, put
/// together.
pub open spec fn joined<T>(read: Seq<T>, taken: nat, rest: Option<(Seq<T>, nat)>) -> Option<
    (Seq<T>, nat),
> {
    match rest {
        Some((items, n)) => Some((read + items, taken + n)),
        None => None,
    }
}

/// Reads the array of cards that starts at `from`, and returns it with the
/// number of tokens that it takes.
pub fn read_cards(tokens: &Vec<Token>, from: usize) -> (found: Option<(Vec<Card>, usize)>)
    requires
        from <= tokens@.len(),
    ensures
        match found {
            Some((cards, n)) => parse_cards(tokens@.skip(from as int)) == Some((cards@, n as nat))
                && 2 <= n && from + n <= tokens@.len(),
            None => parse_cards(tokens@.skip(from as int)) is None,
        },
{
    let ghost rest = tokens@.skip(from as int);
    assert(forall|k: int| 0 <= k < rest.len() ==> rest[k] == tokens@[from + k]);
    if tokens.len() - from < 2 {
        return None;
    }
    match tokens[from] {
        Token::Open => {},
        _ => {
            return None;
        },
    }
    let mut cards: Vec<Card> = Vec::new();
    match tokens[from + 1] {
        Token::Close => {
            return Some((cards, 2));
        },
        _ => {},
    }
    let mut i: usize = from + 1;
    assert(rest.skip(1) == tokens@.skip(i as int));
    assert(cards@ + Seq::<Card>::empty() == Seq::<Card>::empty());
    loop
        invariant
            from < i <= tokens@.len(),
            tokens@.len() - from >= 2,
            tokens@[from as int] == Token::Open,
            tokens@[from + 1] != Token::Close,
            parse_cards_tail(tokens@.skip(from + 1)) == joined(
                cards@,
                (i - from - 1) as nat,
                parse_cards_tail(tokens@.skip(i as int)),
            ),
        decreases tokens@.len() - i,
    {
        let ghost rest = tokens@.skip(from as int);
        let ghost here = tokens@.skip(i as int);
        assert(forall|k: int| 0 <= k < rest.len() ==> rest[k] == tokens@[from + k]);
        assert(forall|k: int| 0 <= k < here.len() ==> here[k] == tokens@[i + k]);
        assert(rest.skip(1) == tokens@.skip(from + 1));
        match read_card(tokens, i) {
            None => {
                return None;
            },
            Some(card) => {
                if tokens.len() - i <= 5 {
                    return None;
                }
                match tokens[i + 5] {
                    Token::Close => {
                        cards.push(card);
                        return Some((cards, i + 6 - from));
                    },
                    Token::Comma => {
                        proof {
                            assert(here.skip(6) == tokens@.skip(i + 6));
                            let after = parse_cards_tail(tokens@.skip(i + 6));
                            if let Some((more, _)) = after {
                                assert(cards@ + (seq![card] + more) == cards@.push(card) + more);
                            }
                        }
                        cards.push(card);
                        i += 6;
                    },
                    _ => {
                        return None;
                    },
                }
            },
        }
    }
}

/// Reads the array of stacks that starts at `from`, and returns it with the
/// number of tokens that it takes.
pub fn read_stacks(tokens: &Vec<Token>, from: usize) -> (found: Option<(Vec<Vec<Card>>, usize)>)
    requires
        from <= tokens@.len(),
    ensures
        match found {
            Some((stacks, n)) => parse_stacks(tokens@.skip(from as int)) == Some(
                (rows(stacks@), n as nat),
            ) && 2 <= n && from + n <= tokens@.len(),
            None => parse_stacks(tokens@.skip(from as int)) is None,
        },
{
    let ghost rest = tokens@.skip(from as int);
    assert(forall|k: int| 0 <= k < rest.len() ==> rest[k] == tokens@[from + k]);
    if tokens.len() - from < 2 {
        return None;
    }
    match tokens[from] {
        Token::Open => {},
        _ => {
            return None;
        },
    }
    let mut stacks: Vec<Vec<Card>> = Vec::new();
    match tokens[from + 1] {
        Token::Close => {
            assert(rows(stacks@) == Seq::<Seq<Card>>::empty());
            return Some((stacks, 2));
        },
        _ => {},
    }
    let mut i: usize = from + 1;
    assert(rest.skip(1) == tokens@.skip(i as int));
    assert(rows(stacks@) + Seq::<Seq<Card>>::empty() == Seq::<Seq<Card>>::empty());
    loop
        invariant
            from < i <= tokens@.len(),
            tokens@.len() - from >= 2,
            tokens@[from as int] == Token::Open,
            tokens@[from + 1] != Token::Close,
            parse_stacks_tail(tokens@.skip(from + 1)) == joined(
                rows(stacks@),
                (i - from - 1) as nat,
                parse_stacks_tail(tokens@.skip(i as int)),
            ),
        decreases tokens@.len() - i,
    {
        let ghost rest = tokens@.skip(from as int);
        let ghost here = tokens@.skip(i as int);
        assert(forall|k: int| 0 <= k < rest.len() ==> rest[k] == tokens@[from + k]);
        assert(forall|k: int| 0 <= k < here.len() ==> here[k] == tokens@[i + k]);
        assert(rest.skip(1) == tokens@.skip(from + 1));
        match read_cards(tokens, i) {
            None => {
                return None;
            },
            Some((cards, n)) => {
                if tokens.len() - i <= n {
                    return None;
                }
                let ghost before = rows(stacks@);
                let ghost row = cards@;
                match tokens[i + n] {
                    Token::Close => {
                        stacks.push(cards);
                        assert(rows(stacks@) == before + seq![row]);
                        return Some((stacks, i + n + 1 - from));
                    },
                    Token::Comma => {
                        stacks.push(cards);
                        proof {
                            assert(rows(stacks@) == before.push(row));
                            assert(here.skip(n + 1) == tokens@.skip(i + n + 1));
                            let after = parse_stacks_tail(tokens@.skip(i + n + 1));
                            if let Some((more, _)) = after {
                                assert(before + (seq![row] + more) == before.push(row)
                                    + more);
                            }
                        }
                        i += n + 1;
                    },
                    _ => {
                        return None;
                    },
                }
            },
        }
    }
}

} // verus!
