use take5::ai_player::AiPlayer;
use take5::board::Board;
use take5::card::Card;
use take5::client::{reply, Client};
use take5::configuration::Configuration;
use take5::game_state::GameState;
use take5::message::{RequestMessage, ResponseMessage};
use take5::player::Player;
use take5::player_proxy::PlayerProxy;
use take5::stack::Stack;
use take5::starting_hand::StartingHand;

/// A card of a deck that has every face from 1 to 255 and every bull value.
fn make_card(face: u8, bull: u8) -> Card {
    Card::new(face, bull, &Configuration::new(10, 5, 66, 255, (0, 255))).unwrap()
}

fn config() -> Configuration {
    Configuration::default()
}

fn client(newline: bool) -> Client<AiPlayer> {
    Client::new(AiPlayer::new(1), newline, config())
}

fn hand(first: u8) -> RequestMessage {
    let cards = (first..first + 10).map(|face| make_card(face, 2)).collect();
    RequestMessage::StartRound(StartingHand::new(cards, &config()).unwrap())
}

fn stacks() -> [Stack; 4] {
    [
        Stack::new(vec![make_card(20, 3), make_card(21, 1)]).unwrap(),
        Stack::new(vec![make_card(30, 2)]).unwrap(),
        Stack::new(vec![make_card(40, 1), make_card(41, 1)]).unwrap(),
        Stack::new(vec![make_card(50, 1)]).unwrap(),
    ]
}

fn turn() -> RequestMessage {
    RequestMessage::TakeTurn(Board::new(stacks()))
}

fn choice() -> RequestMessage {
    RequestMessage::Choose(Board::new(stacks()))
}

fn text(bytes: Vec<u8>) -> String {
    String::from_utf8(bytes).unwrap()
}

const HAND: &str = "[\"start-round\",[[1,2],[2,2],[3,2],[4,2],[5,2],[6,2],[7,2],[8,2],[9,2],[10,2]]]";
const TURN: &str = "[\"take-turn\",[[[20,3],[21,1]],[[30,2]],[[40,1],[41,1]],[[50,1]]]]";
const CHOICE: &str = "[\"choose\",[[[20,3],[21,1]],[[30,2]],[[40,1],[41,1]],[[50,1]]]]";

#[test]
fn a_round_is_answered_message_by_message() {
    let mut client = client(false);
    assert_eq!(&GameState::StartingRound, client.current_state());
    assert_eq!("true", text(client.handle_message(hand(1))));
    assert_eq!(&GameState::FirstTurn, client.current_state());
    assert_eq!(10, client.player().hand().len());
    // The player plays its lowest card.
    assert_eq!("[1,2]", text(client.handle_message(turn())));
    assert_eq!(&GameState::Turns(1, false), client.current_state());
    // The player takes the stack with the fewest bulls; of those, the last
    // that it saw.
    assert_eq!("[[50,1]]", text(client.handle_message(choice())));
    assert_eq!(&GameState::Turns(1, true), client.current_state());
    for n in 2..10 {
        let played = format!("[{},2]", n);
        assert_eq!(played, text(client.handle_message(turn())));
        assert_eq!(&GameState::Turns(n as usize, false), client.current_state());
    }
    assert_eq!("[10,2]", text(client.handle_message(turn())));
    assert_eq!(&GameState::TookLastTurn, client.current_state());
    assert_eq!(0, client.player().hand().len());
    assert_eq!("[[50,1]]", text(client.handle_message(choice())));
    assert_eq!(&GameState::StartingRound, client.current_state());
}

#[test]
fn a_message_out_of_turn_is_answered_with_false() {
    let mut client = client(false);
    assert_eq!("false", text(client.handle_message(turn())));
    assert_eq!("false", text(client.handle_message(choice())));
    assert_eq!(&GameState::StartingRound, client.current_state());
    assert_eq!(0, client.player().hand().len());
    assert_eq!("true", text(client.handle_message(hand(1))));
    // A second hand is out of turn: the state stays and no card is dealt.
    assert_eq!("false", text(client.handle_message(hand(11))));
    assert_eq!("false", text(client.handle_message(choice())));
    assert_eq!(&GameState::FirstTurn, client.current_state());
    assert_eq!(10, client.player().hand().len());
    assert_eq!("[1,2]", text(client.handle_message(turn())));
    assert_eq!("[[50,1]]", text(client.handle_message(choice())));
    // A second choice in the same turn is out of turn.
    assert_eq!("false", text(client.handle_message(choice())));
    assert_eq!(&GameState::Turns(1, true), client.current_state());
    assert_eq!(9, client.player().hand().len());
    assert!(client.respond(choice()).is_none());
    match client.respond(turn()) {
        Some(ResponseMessage::TakeTurn(card)) => assert_eq!(make_card(2, 2), card),
        _ => panic!("a turn is in turn"),
    }
}

#[test]
fn a_line_feed_goes_behind_each_answer_where_it_is_asked_for() {
    let mut client = client(true);
    assert_eq!("false\n", text(client.handle_message(turn())));
    assert_eq!("true\n", text(client.handle_message(hand(1))));
    assert_eq!("[1,2]\n", text(client.handle_message(turn())));
    assert_eq!("[[50,1]]\n", text(client.handle_message(choice())));
    assert_eq!("false\n", text(reply(None, true)));
    assert_eq!("false", text(reply(None, false)));
    assert_eq!("true\n", text(reply(Some(&ResponseMessage::StartRound), true)));
    assert_eq!(
        "[7,3]",
        text(reply(Some(&ResponseMessage::TakeTurn(make_card(7, 3))), false))
    );
    let stack = Stack::new(vec![make_card(7, 3)]).unwrap();
    assert_eq!(
        "[[7,3]]\n",
        text(reply(Some(&ResponseMessage::Choose(stack)), true))
    );
}

#[test]
fn bytes_are_answered_unit_by_unit() {
    let mut client = client(true);
    let bad = "[\"take-turn\",[[2,2],[2,2],[2,2]]]";
    let input = format!("{}{}\n{}{}{}{} junk", TURN, HAND, bad, TURN, CHOICE, CHOICE);
    let answers: Vec<String> = client.receive(input.as_bytes()).into_iter().map(text).collect();
    // The first turn comes out of turn; the unit that is no request gets no
    // answer; nor does what is no array.
    assert_eq!(
        vec!["false\n", "true\n", "[1,2]\n", "[[50,1]]\n", "false\n"],
        answers
    );
    assert_eq!(&GameState::Turns(1, true), client.current_state());
}

#[test]
fn a_unit_may_come_in_pieces() {
    let mut whole = client(false);
    let input = format!("{} {}\n{}", HAND, TURN, CHOICE);
    let expected: Vec<String> = whole.receive(input.as_bytes()).into_iter().map(text).collect();
    assert_eq!(vec!["true", "[1,2]", "[[50,1]]"], expected);

    for size in 1..20 {
        let mut client = client(false);
        let mut answers = Vec::new();
        for piece in input.as_bytes().chunks(size) {
            answers.extend(client.receive(piece).into_iter().map(text));
        }
        assert_eq!(expected, answers);
        assert_eq!(whole.current_state(), client.current_state());
    }

    let mut client = client(false);
    let cut = HAND.len() - 1;
    assert!(client.receive(&HAND.as_bytes()[..cut]).is_empty());
    assert_eq!(&GameState::StartingRound, client.current_state());
    let answers = client.receive(&HAND.as_bytes()[cut..]);
    assert_eq!(vec![b"true".to_vec()], answers);
    assert_eq!(&GameState::FirstTurn, client.current_state());
}

#[test]
fn a_connection_that_closes_in_a_unit_drops_it() {
    let mut client = client(false);
    let input = format!("{}{}", HAND, &TURN[..TURN.len() - 2]);
    let answers = client.start(input.as_bytes());
    assert_eq!(vec![b"true".to_vec()], answers);
    assert_eq!(&GameState::FirstTurn, client.current_state());
    // Nothing of the unit is left over.
    let answers = client.receive(format!("]]{}", TURN).as_bytes());
    assert_eq!(vec![b"[1,2]".to_vec()], answers);
}

#[test]
fn the_proxy_hands_the_hand_to_the_player_card_by_card() {
    let mut proxy = PlayerProxy { player: AiPlayer::new(7) };
    match proxy.process_message(hand(11)) {
        ResponseMessage::StartRound => {}
        _ => panic!("the start of a round is acknowledged"),
    }
    let dealt: Vec<Card> = (11..21).map(|face| make_card(face, 2)).collect();
    assert_eq!(&dealt[..], proxy.player.hand());
    match proxy.process_message(turn()) {
        ResponseMessage::TakeTurn(card) => assert_eq!(make_card(11, 2), card),
        _ => panic!("a turn is answered with a card"),
    }
    assert_eq!(9, proxy.player.hand().len());
    match proxy.process_message(choice()) {
        ResponseMessage::Choose(stack) => assert_eq!(&vec![make_card(50, 1)], stack.cards()),
        _ => panic!("a choice is answered with a stack"),
    }
    assert_eq!(9, proxy.player.hand().len());
    assert_eq!(7, proxy.player.id());
    assert!(proxy.player.pile().is_empty());
}

#[test]
fn the_ai_answers_a_choice_with_the_first_stack_of_fewest_bulls() {
    let mut proxy = PlayerProxy { player: AiPlayer::new(1) };
    let board = Board::new([
        Stack::new(vec![make_card(1, 3)]).unwrap(),
        Stack::new(vec![make_card(2, 2)]).unwrap(),
        Stack::new(vec![make_card(3, 4)]).unwrap(),
        Stack::new(vec![make_card(4, 2)]).unwrap(),
    ]);
    match proxy.process_message(RequestMessage::Choose(board)) {
        ResponseMessage::Choose(stack) => {
            assert_eq!(&vec![make_card(2, 2)], stack.cards());
            assert_eq!(
                "[[2,2]]",
                text(take5::encode::encode_response(&ResponseMessage::Choose(stack)))
            );
        }
        _ => panic!("a choice is answered with a stack"),
    }
}
