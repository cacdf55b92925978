use take5::board::Board;
use take5::card::Card;
use take5::configuration::Configuration;
use take5::error::Error;
use take5::game_state::GameState;
use take5::message::{RequestMessage, Tag};
use take5::stack::Stack;
use take5::starting_hand::StartingHand;

fn deck() -> Vec<Card> {
    Card::deck(|_| 2, &Configuration::default())
}

fn start_round_msg() -> RequestMessage {
    let mut deck = deck();
    deck.split_off(10);
    let hand = StartingHand::new(deck, &Configuration::default()).unwrap();
    RequestMessage::StartRound(hand)
}

fn four_stacks() -> [Stack; 4] {
    let mut deck = deck();
    [
        Stack::new(vec![deck.remove(0)]).unwrap(),
        Stack::new(vec![deck.remove(0)]).unwrap(),
        Stack::new(vec![deck.remove(0)]).unwrap(),
        Stack::new(vec![deck.remove(0)]).unwrap(),
    ]
}

fn take_turn_msg() -> RequestMessage {
    RequestMessage::TakeTurn(Board::new(four_stacks()))
}

fn choose_msg() -> RequestMessage {
    RequestMessage::Choose(Board::new(four_stacks()))
}

#[test]
fn test_transition_from_start_to_first() {
    let state = GameState::StartingRound;
    assert_eq!(
        GameState::FirstTurn,
        state.next_state(&start_round_msg()).unwrap()
    );
}

#[test]
fn test_transition_from_first_to_turns() {
    let state = GameState::FirstTurn;
    assert_eq!(
        GameState::Turns(1, false),
        state.next_state(&take_turn_msg()).unwrap()
    );
}

#[test]
fn test_transition_from_turns_with_choice_to_turns() {
    let state = GameState::Turns(8, false);
    assert_eq!(
        GameState::Turns(8, true),
        state.next_state(&choose_msg()).unwrap()
    );
}

#[test]
fn test_transition_from_turns_with_take_turn_to_turns() {
    let state = GameState::Turns(8, false);
    assert_eq!(
        GameState::Turns(9, false),
        state.next_state(&take_turn_msg()).unwrap()
    );
}

#[test]
fn test_transition_from_last_turn_to_first_turn_new_round() {
    let state = GameState::TookLastTurn;
    assert_eq!(
        GameState::FirstTurn,
        state.next_state(&start_round_msg()).unwrap()
    );
}

#[test]
fn test_10_transitions_from_first_turn_to_starting_round() {
    let ref mut state = GameState::FirstTurn;
    // 9 transitions into turns.
    for i in 0..9 {
        *state = state.next_state(&take_turn_msg()).unwrap();
        assert_eq!(GameState::Turns(1 + i, false), *state);
    }
    *state = state.next_state(&take_turn_msg()).unwrap();
    assert_eq!(GameState::TookLastTurn, *state);

    // 1 transition to starting round.
    let state = state.next_state(&choose_msg()).unwrap();
    assert_eq!(GameState::StartingRound, state);
}

#[test]
fn test_bad_transition_from_starting_round() {
    let state = GameState::StartingRound;
    assert!(state.next_state(&take_turn_msg()).is_err());
    assert!(state.next_state(&choose_msg()).is_err());
}

#[test]
fn test_bad_transition_from_first_turn() {
    let state = GameState::FirstTurn;
    assert!(state.next_state(&choose_msg()).is_err());
    assert!(state.next_state(&start_round_msg()).is_err());
}

#[test]
fn test_bad_transition_from_turns_with_remaining() {
    let state = GameState::Turns(8, false);
    assert!(state.next_state(&start_round_msg()).is_err());
}

#[test]
fn test_choose_on_last_turn() {
    let ref mut state = GameState::Turns(9, false);
    *state = state.next_state(&take_turn_msg()).unwrap();
    assert!(state.next_state(&choose_msg()).is_ok());
}

#[test]
fn test_double_choose() {
    let ref mut state = GameState::Turns(5, false);
    *state = state.next_state(&choose_msg()).unwrap();
    assert!(state.next_state(&choose_msg()).is_err())
}

#[test]
fn a_round_is_one_start_and_ten_turns() {
    let mut state = GameState::StartingRound;
    state = state.accept(Tag::StartRound).unwrap();
    assert_eq!(GameState::FirstTurn, state);
    for turn in 1..10 {
        state = state.accept(Tag::TakeTurn).unwrap();
        assert_eq!(GameState::Turns(turn, false), state);
    }
    state = state.accept(Tag::TakeTurn).unwrap();
    assert_eq!(GameState::TookLastTurn, state);
    // One more turn is out of turn, and the state stays.
    assert_eq!(
        Err(Error::GameState(GameState::TookLastTurn, Tag::TakeTurn)),
        state.accept(Tag::TakeTurn)
    );
    // A choice ends the round.
    assert_eq!(Ok(GameState::StartingRound), state.accept(Tag::Choose));
    // So does the start of the next one.
    assert_eq!(Ok(GameState::FirstTurn), state.accept(Tag::StartRound));
}

#[test]
fn a_second_choice_in_one_turn_is_refused() {
    for n in 1..10 {
        let state = GameState::Turns(n, false);
        let chosen = state.accept(Tag::Choose).unwrap();
        assert_eq!(GameState::Turns(n, true), chosen);
        assert_eq!(
            Err(Error::GameState(chosen, Tag::Choose)),
            chosen.accept(Tag::Choose)
        );
        // The next turn is still accepted, and a choice after it.
        let next = chosen.accept(Tag::TakeTurn).unwrap();
        assert_eq!(GameState::take_turn(n), next);
        assert!(next.accept(Tag::Choose).is_ok());
    }
}

#[test]
fn every_state_refuses_what_the_table_leaves_out() {
    assert!(GameState::StartingRound.accept(Tag::TakeTurn).is_err());
    assert!(GameState::StartingRound.accept(Tag::Choose).is_err());
    assert!(GameState::FirstTurn.accept(Tag::StartRound).is_err());
    assert!(GameState::FirstTurn.accept(Tag::Choose).is_err());
    assert!(GameState::Turns(3, false).accept(Tag::StartRound).is_err());
    assert!(GameState::Turns(3, true).accept(Tag::StartRound).is_err());
    assert!(GameState::Turns(3, true).accept(Tag::Choose).is_err());
    assert!(GameState::TookLastTurn.accept(Tag::TakeTurn).is_err());
}

#[test]
fn the_ninth_turn_is_followed_by_the_last() {
    assert_eq!(GameState::Turns(9, false), GameState::take_turn(8));
    assert_eq!(GameState::TookLastTurn, GameState::take_turn(9));
    assert_eq!(
        Ok(GameState::TookLastTurn),
        GameState::Turns(9, true).accept(Tag::TakeTurn)
    );
}
