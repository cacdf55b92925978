use crate::board::Board;
use crate::card::Card;
use crate::configuration::Configuration;
use crate::stack::{rows, Stack};
use crate::starting_hand::StartingHand;
use vstd::prelude::*;

verus! {

/// Why decoded numbers and sequences do not make up the value that was asked
/// for.
#[derive(Debug, PartialEq, Eq, Clone, Copy, Structural)]
pub enum StructureError {
    /// A card's face value lies outside `1..=deck_size`.
    Face(u8),
    /// A card's bull value lies outside the configured bull range.
    Bull(u8),
    /// A stack holds no card.
    EmptyStack,
    /// A board was given this number of stacks, which is not four.
    StackCount(usize),
    /// A starting hand was given this number of cards, which is not the
    /// number of turns in a round.
    CardLength(usize),
}

/// Whether all the cards belong to a deck of the configuration.
pub open spec fn all_valid(cards: Seq<Card>, config: Configuration) -> bool {
    forall|i: int| 0 <= i < cards.len() ==> (#[trigger] cards[i]).valid(config)
}

/// Whether some cards are a starting hand of the configuration.
pub open spec fn is_hand(cards: Seq<Card>, config: Configuration) -> bool {
    &&& all_valid(cards, config)
    &&& cards.len() == config.turn_count
}

/// Whether some cards are a stack of a message of the configuration.
pub open spec fn is_stack(cards: Seq<Card>, config: Configuration) -> bool {
    &&& all_valid(cards, config)
    &&& cards.len() > 0
}

/// Whether some stacks are the board of a message of the configuration:
/// four stacks, a card on each.
pub open spec fn is_board(stacks: Seq<Seq<Card>>, config: Configuration) -> bool {
    &&& stacks.len() == 4
    &&& forall|i: int| 0 <= i < stacks.len() ==> is_stack(#[trigger] stacks[i], config)
}

/// What is wrong with a card, if anything. The face is examined first.
pub open spec fn card_error(card: Card, config: Configuration) -> Option<StructureError> {
    match Card::checked_spec(card.face, card.bull, config) {
        Ok(_) => None,
        Err(e) => Some(e),
    }
}

/// What is wrong with the first card that does not belong to the deck, if
/// there is such a card.
pub open spec fn cards_error(cards: Seq<Card>, config: Configuration) -> Option<StructureError>
    decreases cards.len(),
{
    if cards.len() == 0 {
        None
    } else {
        match card_error(cards[0], config) {
            Some(e) => Some(e),
            None => cards_error(cards.skip(1), config),
        }
    }
}

/// What is wrong with some cards as a starting hand: a card of them, or
/// else their number.
pub open spec fn hand_error(cards: Seq<Card>, config: Configuration) -> Option<StructureError> {
    match cards_error(cards, config) {
        Some(e) => Some(e),
        None => if cards.len() != config.turn_count {
            Some(StructureError::CardLength(cards.len() as usize))
        } else {
            None
        },
    }
}

/// What is wrong with some cards as a stack: a card of them, or else that
/// there is none.
pub open spec fn stack_error(cards: Seq<Card>, config: Configuration) -> Option<StructureError> {
    match cards_error(cards, config) {
        Some(e) => Some(e),
        None => if cards.len() == 0 {
            Some(StructureError::EmptyStack)
        } else {
            None
        },
    }
}

/// What is wrong with the first stack that is none, if there is such a
/// stack.
pub open spec fn stacks_error(stacks: Seq<Seq<Card>>, config: Configuration) -> Option<
    StructureError,
>
    decreases stacks.len(),
{
    if stacks.len() == 0 {
        None
    } else {
        match stack_error(stacks[0], config) {
            Some(e) => Some(e),
            None => stacks_error(stacks.skip(1), config),
        }
    }
}

/// What is wrong with some stacks as a board: a stack of them, or else
/// their number.
pub open spec fn board_error(stacks: Seq<Seq<Card>>, config: Configuration) -> Option<
    StructureError,
> {
    match stacks_error(stacks, config) {
        Some(e) => Some(e),
        None => if stacks.len() != 4 {
            Some(StructureError::StackCount(stacks.len() as usize))
        } else {
            None
        },
    }
}

/// Nothing is wrong with the cards exactly when each of them belongs to
/// the deck.
pub proof fn lemma_cards_error(cards: Seq<Card>, config: Configuration)
    ensures
        cards_error(cards, config) is None <==> all_valid(cards, config),
    decreases cards.len(),
{
    if cards.len() > 0 {
        lemma_cards_error(cards.skip(1), config);
        let rest = cards.skip(1);
        if all_valid(cards, config) {
            assert(cards[0].valid(config));
            assert forall|i: int| 0 <= i < rest.len() implies (#[trigger] rest[i]).valid(
                config,
            ) by {
                assert(rest[i] == cards[i + 1]);
            }
        }
        if cards_error(cards, config) is None {
            assert forall|i: int| 0 <= i < cards.len() implies (#[trigger] cards[i]).valid(
                config,
            ) by {
                if i > 0 {
                    assert(cards[i] == rest[i - 1]);
                }
            }
        }
    }
}

/// Nothing is wrong with the stacks exactly when each of them is a stack of
/// a message.
pub proof fn lemma_stacks_error(stacks: Seq<Seq<Card>>, config: Configuration)
    ensures
        stacks_error(stacks, config) is None <==> forall|i: int|
            0 <= i < stacks.len() ==> is_stack(#[trigger] stacks[i], config),
    decreases stacks.len(),
{
    if stacks.len() > 0 {
        lemma_stacks_error(stacks.skip(1), config);
        lemma_cards_error(stacks[0], config);
        let rest = stacks.skip(1);
        if forall|i: int| 0 <= i < stacks.len() ==> is_stack(#[trigger] stacks[i], config) {
            assert(is_stack(stacks[0], config));
            assert forall|i: int| 0 <= i < rest.len() implies is_stack(
                #[trigger] rest[i],
                config,
            ) by {
                assert(rest[i] == stacks[i + 1]);
            }
        }
        if stacks_error(stacks, config) is None {
            assert forall|i: int| 0 <= i < stacks.len() implies is_stack(
                #[trigger] stacks[i],
                config,
            ) by {
                if i > 0 {
                    assert(stacks[i] == rest[i - 1]);
                }
            }
        }
    }
}

/// Some cards are a starting hand exactly when nothing is wrong with them
/// as one.
pub proof fn lemma_hand_error(cards: Seq<Card>, config: Configuration)
    ensures
        hand_error(cards, config) is None <==> is_hand(cards, config),
{
    lemma_cards_error(cards, config);
}

/// Some stacks are a board exactly when nothing is wrong with them as one.
pub proof fn lemma_board_error(stacks: Seq<Seq<Card>>, config: Configuration)
    ensures
        board_error(stacks, config) is None <==> is_board(stacks, config),
{
    lemma_stacks_error(stacks, config);
}

/// Looks for a card that does not belong to the deck, and says what is
/// wrong with the first one.
pub fn check_cards(cards: &Vec<Card>, config: &Configuration) -> (error: Option<StructureError>)
    ensures
        error == cards_error(cards@, *config),
{
    let mut i: usize = 0;
    assert(cards@.skip(0) == cards@);
    while i < cards.len()
        invariant
            i <= cards@.len(),
            cards_error(cards@, *config) == cards_error(cards@.skip(i as int), *config),
        decreases cards.len() - i,
    {
        let card = cards[i];
        assert(cards@.skip(i as int)[0] == card);
        assert(cards@.skip(i as int).skip(1) == cards@.skip(i + 1));
        match Card::new(card.face, card.bull, config) {
            Ok(_) => {},
            Err(e) => {
                return Some(e);
            },
        }
        i += 1;
    }
    None
}

/// Builds a starting hand from decoded cards: each must belong to the deck,
/// and there must be one for each turn of a round.
pub fn hand(cards: Vec<Card>, config: &Configuration) -> (result: Result<
    StartingHand,
    StructureError,
>)
    ensures
        match result {
            Ok(hand) => hand_error(cards@, *config) is None && hand@ == cards@,
            Err(e) => hand_error(cards@, *config) == Some(e),
        },
        result is Ok <==> is_hand(cards@, *config),
{
    proof {
        lemma_hand_error(cards@, *config);
    }
    match check_cards(&cards, config) {
        Some(e) => Err(e),
        None => match StartingHand::new(cards, config) {
            Ok(hand) => Ok(hand),
            Err(e) => Err(StructureError::CardLength(e.card_count())),
        },
    }
}

/// Builds a stack of a message from decoded cards: each must belong to the
/// deck, and there must be one at least.
pub fn stack(cards: Vec<Card>, config: &Configuration) -> (result: Result<Stack, StructureError>)
    ensures
        match result {
            Ok(stack) => stack_error(cards@, *config) is None && stack@ == cards@,
            Err(e) => stack_error(cards@, *config) == Some(e),
        },
        result is Ok <==> is_stack(cards@, *config),
{
    proof {
        lemma_cards_error(cards@, *config);
    }
    match check_cards(&cards, config) {
        Some(e) => Err(e),
        None => Stack::new(cards),
    }
}

/// Looks for a row of cards that is no stack of a message, and says what
/// is wrong with the first one.
pub fn check_stacks(stacks: &Vec<Vec<Card>>, config: &Configuration) -> (error: Option<
    StructureError,
>)
    ensures
        error == stacks_error(rows(stacks@), *config),
{
    let ghost views = rows(stacks@);
    let mut i: usize = 0;
    assert(views.skip(0) == views);
    while i < stacks.len()
        invariant
            i <= stacks@.len(),
            views == rows(stacks@),
            stacks_error(views, *config) == stacks_error(views.skip(i as int), *config),
        decreases stacks.len() - i,
    {
        assert(views.skip(i as int)[0] == stacks@[i as int]@);
        assert(views.skip(i as int).skip(1) == views.skip(i + 1));
        match check_cards(&stacks[i], config) {
            Some(e) => {
                return Some(e);
            },
            None => {},
        }
        if stacks[i].len() == 0 {
            return Some(StructureError::EmptyStack);
        }
        i += 1;
    }
    None
}

/// Builds the board of a message from decoded rows of cards: each must hold
/// a card and only cards of the deck, and there must be four of them.
pub fn board(stacks: Vec<Vec<Card>>, config: &Configuration) -> (result: Result<
    Board,
    StructureError,
>)
    ensures
        match result {
            Ok(board) => board_error(rows(stacks@), *config) is None && board@ == rows(stacks@),
            Err(e) => board_error(rows(stacks@), *config) == Some(e),
        },
        result is Ok <==> is_board(rows(stacks@), *config),
{
    let ghost given = rows(stacks@);
    proof {
        lemma_board_error(given, *config);
        lemma_stacks_error(given, *config);
    }
    match check_stacks(&stacks, config) {
        Some(e) => {
            return Err(e);
        },
        None => {},
    }
    if stacks.len() != 4 {
        return Err(StructureError::StackCount(stacks.len()));
    }
    let mut stacks = stacks;
    assert(is_stack(given[0], *config) && is_stack(given[1], *config));
    assert(is_stack(given[2], *config) && is_stack(given[3], *config));
    let d = stacks.pop().unwrap();
    let c = stacks.pop().unwrap();
    let b = stacks.pop().unwrap();
    let a = stacks.pop().unwrap();
    assert(a@ == given[0] && b@ == given[1] && c@ == given[2] && d@ == given[3]);
    match (Stack::new(a), Stack::new(b), Stack::new(c), Stack::new(d)) {
        (Ok(a), Ok(b), Ok(c), Ok(d)) => {
            let board = Board::new([a, b, c, d]);
            assert(board@ =~= given);
            Ok(board)
        },
        _ => Err(StructureError::EmptyStack),
    }
}

} // verus!
