use take5::board::{Board, StackId};
use take5::card::Card;
use take5::configuration::Configuration;
use take5::decode::{decode_board, decode_card, decode_request, decode_stack};
use take5::encode::{encode_board, encode_card, encode_request, encode_response, encode_stack};
use take5::grammar::DecodeError;
use take5::message::{RequestMessage, ResponseMessage, Tag};
use take5::stack::Stack;
use take5::starting_hand::StartingHand;
use take5::validation::StructureError;

/// A card of a deck that has every face from 1 to 255 and every bull value.
fn make_card(face: u8, bull: u8) -> Card {
    Card::new(face, bull, &Configuration::new(10, 5, 66, 255, (0, 255))).unwrap()
}

fn config() -> Configuration {
    Configuration::default()
}

/// The bounds that the wire tests go by: faces up to 104, bulls from 2 to 7.
fn strict() -> Configuration {
    Configuration::new(10, 5, 66, 104, (2, 7))
}

fn deck() -> Vec<Card> {
    Card::deck(|_| 2, &config())
}

fn text(bytes: Vec<u8>) -> String {
    String::from_utf8(bytes).unwrap()
}

fn board() -> Board {
    let mut deck = deck();
    let stacks = [
        Stack::new(vec![deck.remove(0)]).unwrap(),
        Stack::new(vec![deck.remove(0)]).unwrap(),
        Stack::new(vec![deck.remove(0)]).unwrap(),
        Stack::new(vec![deck.remove(0)]).unwrap(),
    ];
    Board::new(stacks)
}

#[test]
fn test_card_decode_bad_values() {
    let json = "[0,2]";
    assert!(decode_card(json.as_bytes(), &strict()).is_err());
    let json = "[105,2]";
    assert!(decode_card(json.as_bytes(), &strict()).is_err());
    let json = "[1,1]";
    assert!(decode_card(json.as_bytes(), &strict()).is_err());
    let json = "[1,8]";
    assert!(decode_card(json.as_bytes(), &strict()).is_err());
}

#[test]
fn test_stack_decode_empty() {
    let json = "[]";
    assert!(decode_stack(json.as_bytes(), &config()).is_err());
}

#[test]
fn test_request_decode_start_round() {
    let json = "[\"start-round\",[[1,2],[2,2],[3,2],[4,2],[5,2],[6,2],[7,2],[8,2],[9,2],[10,2]]]";
    let msg = decode_request(json.as_bytes(), &config()).unwrap();
    match msg {
        RequestMessage::StartRound(cards) => {
            assert_eq!(cards.take().len(), 10);
        }
        _ => assert!(false),
    }
}

#[test]
fn test_request_decode_start_round_wrong_number_of_cards() {
    let json = "[\"start-round\",[[1,2],[2,2]]]";
    assert!(decode_request(json.as_bytes(), &config()).is_err());
}

#[test]
fn test_request_decode_take_turn() {
    let json = "[\"take-turn\",[[[2,2]],[[2,2]],[[2,2]],[[2,2]]]]";
    let msg = decode_request(json.as_bytes(), &config()).unwrap();
    match msg {
        RequestMessage::TakeTurn(board) => {
            assert_eq!(board[StackId::A].len(), 1);
        }
        _ => assert!(false),
    }
}

#[test]
fn test_request_decode_take_turn_wrong_number_of_stacks() {
    let json1 = "[\"take-turn\",[[2,2],[2,2],[2,2]]";
    let json2 = "[\"take-turn\",[[2,2],[2,2],[2,2],[2,2],[2,2]]";
    assert!(decode_request(json1.as_bytes(), &config()).is_err());
    assert!(decode_request(json2.as_bytes(), &config()).is_err());
}

#[test]
fn test_request_decode_choose() {
    let json = "[\"choose\",[[[2,2]],[[2,2]],[[2,2]],[[2,2]]]]";
    let msg = decode_request(json.as_bytes(), &config()).unwrap();
    match msg {
        RequestMessage::Choose(board) => {
            assert_eq!(board[StackId::A].len(), 1);
        }
        _ => assert!(false),
    }
}

#[test]
fn test_request_decode_choose_wrong_number_of_stacks() {
    let json1 = "[\"choose\",[[[2,2]],[[2,2]],[[2,2]]]";
    let json2 = "[\"choose\",[[[2,2]],[[2,2]],[[2,2]],[[2,2]],[[2,2]]]";
    assert!(decode_request(json1.as_bytes(), &config()).is_err());
    assert!(decode_request(json2.as_bytes(), &config()).is_err());
}

#[test]
fn test_request_encode_start_round() {
    let mut cards = deck();
    cards.split_off(10);
    let msg = RequestMessage::StartRound(StartingHand::new(cards, &config()).unwrap());
    let json = text(encode_request(&msg));
    assert_eq!(
        "[\"start-round\",[[1,2],[2,2],[3,2],[4,2],[5,2],[6,2],[7,2],[8,2],[9,2],[10,2]]]",
        json
    );
}

#[test]
fn test_response_encode_start_round() {
    let msg = ResponseMessage::StartRound;
    assert_eq!("true", text(encode_response(&msg)));
}

#[test]
fn test_response_encode_take_turn() {
    let card = deck().remove(0);
    let msg = ResponseMessage::TakeTurn(card);
    assert_eq!("[1,2]", text(encode_response(&msg)));
}

#[test]
fn test_response_encode_choose() {
    let card = deck().remove(0);
    let stack = Stack::new(vec![card]).unwrap();
    let msg = ResponseMessage::Choose(stack);
    assert_eq!("[[1,2]]", text(encode_response(&msg)));
}

#[test]
fn board_test_encode() {
    let json = text(encode_board(&board()));
    assert_eq!("[[[1,2]],[[2,2]],[[3,2]],[[4,2]]]", json);
}

#[test]
fn card_test_encode() {
    let card: Card = Card::new(4, 2, &config()).unwrap();
    let json = text(encode_card(&card));
    assert_eq!("[4,2]", json);
}

#[test]
fn stack_test_encode() {
    let mut deck = deck();
    let stack = Stack::new(vec![deck.remove(0), deck.remove(0)]).unwrap();
    let json = text(encode_stack(&stack));
    assert_eq!("[[1,2],[2,2]]", json);
}

#[test]
fn a_decoded_board_holds_the_cards_of_the_text() {
    let json = "[\"take-turn\",[[[2,2]],[[2,2]],[[2,2]],[[2,2]]]]";
    match decode_request(json.as_bytes(), &config()).unwrap() {
        RequestMessage::TakeTurn(board) => {
            for id in StackId::all().iter() {
                assert_eq!(&vec![make_card(2, 2)], board[*id].cards());
            }
        }
        _ => panic!("a turn was sent"),
    }
    let json = "[[[4,2],[5,2]],[[9,2],[7,2]],[[10,2],[11,2]],[[12,2],[13,2]]]";
    let board = decode_board(json.as_bytes(), &config()).unwrap();
    assert_eq!(4, board[StackId::A].bulls());
    assert_eq!(
        &vec![make_card(9, 2), make_card(7, 2)],
        board[StackId::B].cards()
    );
    assert_eq!(Some(make_card(13, 2)), board[StackId::D].last());
}

#[test]
fn a_card_is_decoded_with_both_values() {
    let card = decode_card("[4,2]".as_bytes(), &strict()).unwrap();
    assert_eq!(4, card.face());
    assert_eq!(2, card.bull());
    assert_eq!(Ok(make_card(104, 7)), decode_card(b"[104,7]", &strict()));
    assert_eq!(Ok(make_card(1, 1)), decode_card(b"[1,1]", &config()));
}

#[test]
fn a_card_out_of_range_says_which_value_is_wrong() {
    let face = |n| Err(DecodeError::Structure(StructureError::Face(n)));
    let bull = |n| Err(DecodeError::Structure(StructureError::Bull(n)));
    assert_eq!(face(0), decode_card(b"[0,2]", &strict()));
    assert_eq!(face(105), decode_card(b"[105,2]", &strict()));
    assert_eq!(bull(1), decode_card(b"[1,1]", &strict()));
    assert_eq!(bull(8), decode_card(b"[1,8]", &strict()));
    // The face is examined first.
    assert_eq!(face(0), decode_card(b"[0,0]", &strict()));
    // The bounds are those of the configuration.
    let small = Configuration::new(10, 5, 66, 20, (3, 4));
    assert_eq!(face(21), decode_card(b"[21,3]", &small));
    assert_eq!(bull(2), decode_card(b"[20,2]", &small));
    assert_eq!(Ok(make_card(20, 4)), decode_card(b"[20,4]", &small));
    assert_eq!(Ok(make_card(1, 1)), Card::new(1, 1, &config()));
    assert_eq!(Err(StructureError::Face(0)), Card::new(0, 1, &config()));
    assert_eq!(Err(StructureError::Bull(0)), Card::new(5, 0, &config()));
}

#[test]
fn a_text_of_another_shape_is_no_card() {
    let bad = Err(DecodeError::Malformed);
    assert_eq!(bad, decode_card(b"[4,2,3]", &config()));
    assert_eq!(bad, decode_card(b"[4]", &config()));
    assert_eq!(bad, decode_card(b"{\"face\": 3, \"bull\": 2}", &config()));
    assert_eq!(bad, decode_card(b"[4,2]]", &config()));
    assert_eq!(bad, decode_card(b"[4,2", &config()));
    assert_eq!(bad, decode_card(b"", &config()));
    assert_eq!(bad, decode_card(b"[4,,2]", &config()));
    assert_eq!(bad, decode_card(b"[4 2]", &config()));
    assert_eq!(bad, decode_card(b"[-4,2]", &config()));
    assert_eq!(bad, decode_card(b"[4.0,2]", &config()));
    assert_eq!(bad, decode_card(b"[4e0,2]", &config()));
    assert_eq!(bad, decode_card(b"[\"4\",2]", &config()));
    assert_eq!(bad, decode_card(b"[true,2]", &config()));
}

#[test]
fn a_number_has_no_leading_zero_and_fits_a_byte() {
    let bad = Err(DecodeError::Malformed);
    assert_eq!(bad, decode_card(b"[04,2]", &config()));
    assert_eq!(bad, decode_card(b"[4,02]", &config()));
    assert_eq!(bad, decode_card(b"[00,2]", &config()));
    assert_eq!(bad, decode_card(b"[256,2]", &config()));
    assert_eq!(bad, decode_card(b"[1000,2]", &config()));
    assert_eq!(bad, decode_card(b"[99999999999999999999999,2]", &config()));
    let wide = Configuration::new(10, 5, 66, 255, (0, 255));
    assert_eq!(Ok(make_card(255, 0)), decode_card(b"[255,0]", &wide));
    assert_eq!(Ok(make_card(249, 255)), decode_card(b"[249,255]", &wide));
    assert_eq!(Ok(make_card(100, 199)), decode_card(b"[100,199]", &wide));
    assert_eq!(Ok(make_card(10, 99)), decode_card(b"[10,99]", &wide));
    assert_eq!(bad, decode_card(b"[260,0]", &wide));
    assert_eq!(bad, decode_card(b"[300,0]", &wide));
}

#[test]
fn white_space_may_stand_between_the_tokens() {
    let spaced = b" [ 4 ,\t2\r\n] \n";
    assert_eq!(Ok(make_card(4, 2)), decode_card(spaced, &config()));
    let json = "\n[ \"choose\" , [ [[2,2]] , [[3,2]],[[4,2]],[ [5,2] , [6,3] ] ] ]\n";
    match decode_request(json.as_bytes(), &config()).unwrap() {
        RequestMessage::Choose(board) => {
            assert_eq!(
                &vec![make_card(5, 2), make_card(6, 3)],
                board[StackId::D].cards()
            );
        }
        _ => panic!("a choice was sent"),
    }
    // Not inside a number or a word.
    assert!(decode_card(b"[1 0,2]", &config()).is_err());
    let json = "[\"take -turn\",[[[2,2]],[[2,2]],[[2,2]],[[2,2]]]]";
    assert!(decode_request(json.as_bytes(), &config()).is_err());
}

#[test]
fn a_stack_is_decoded_card_by_card() {
    let stack = decode_stack(b"[[4,2],[5,4]]", &config()).unwrap();
    assert!(!stack.full(&config()));
    assert_eq!(6, stack.bulls());
    assert_eq!(2, stack.len());
    assert_eq!(
        Err(DecodeError::Structure(StructureError::EmptyStack)),
        decode_stack(b"[]", &config()).map(|_| ())
    );
    assert_eq!(
        Err(DecodeError::Structure(StructureError::EmptyStack)),
        decode_stack(b" [ ] ", &config()).map(|_| ())
    );
    assert!(decode_stack(b"[[4,2],[5,4,6]]", &config()).is_err());
    assert!(decode_stack(b"[[4,2],[5,4],'hello world']", &config()).is_err());
    assert!(decode_stack(b"[[4,2],]", &config()).is_err());
    assert!(decode_stack(b"[,[4,2]]", &config()).is_err());
    assert_eq!(
        Err(DecodeError::Structure(StructureError::Face(0))),
        decode_stack(b"[[4,2],[0,4]]", &config()).map(|_| ())
    );
    // A stack on the wire may hold more cards than a stack of the game.
    let long = decode_stack(b"[[1,2],[2,2],[3,2],[4,2],[5,2],[6,2],[7,2]]", &config()).unwrap();
    assert_eq!(7, long.len());
}

#[test]
fn a_board_has_four_stacks() {
    let count = |n| Err(DecodeError::Structure(StructureError::StackCount(n)));
    let ok = |text: &[u8]| decode_board(text, &config()).map(|_| ());
    assert_eq!(count(2), ok(b"[[[4,2],[5,2]],[[9,2],[7,2]]]"));
    assert_eq!(
        count(6),
        ok(b"[[[4,2],[5,2]],[[9,2],[7,2]],[[4,2],[5,2]],[[4,2],[5,2]],[[4,2],[5,2]],[[4,2],[5,2]]]")
    );
    assert_eq!(count(0), ok(b"[]"));
    assert_eq!(count(3), ok(b"[[[1,2]],[[2,2]],[[3,2]]]"));
    assert_eq!(count(5), ok(b"[[[1,2]],[[2,2]],[[3,2]],[[4,2]],[[5,2]]]"));
    assert_eq!(Ok(()), ok(b"[[[1,2]],[[2,2]],[[3,2]],[[4,2]]]"));
    // A stack that is none is reported before the number of stacks.
    assert_eq!(
        Err(DecodeError::Structure(StructureError::EmptyStack)),
        ok(b"[[[1,2]],[],[[3,2]]]")
    );
    assert_eq!(
        Err(DecodeError::Structure(StructureError::Bull(9))),
        ok(b"[[[1,2]],[[2,9]],[]]")
    );
    assert!(ok(b"[[[4,2],[5,2],[6,4]],[[9,2],[4,'5'][7,2]],[[10,2],[11,2]],[[12,2],[13,2]]]").is_err());
    assert_eq!(
        Err(StructureError::StackCount(1)),
        Board::checked(vec![Stack::new(vec![make_card(1, 1)]).unwrap()]).map(|_| ())
    );
    assert_eq!(
        Err(StructureError::EmptyStack),
        Stack::new(Vec::new()).map(|_| ())
    );
}

#[test]
fn a_request_is_an_array_of_a_known_word_and_its_payload() {
    let ok = |text: &str| decode_request(text.as_bytes(), &config()).map(|r| r.tag());
    let bad = Err(DecodeError::Malformed);
    let board = "[[[2,2]],[[2,2]],[[2,2]],[[2,2]]]";
    let hand = "[[1,2],[2,2],[3,2],[4,2],[5,2],[6,2],[7,2],[8,2],[9,2],[10,2]]";
    assert_eq!(Ok(Tag::TakeTurn), ok(&format!("[\"take-turn\",{}]", board)));
    assert_eq!(Ok(Tag::Choose), ok(&format!("[\"choose\",{}]", board)));
    assert_eq!(Ok(Tag::StartRound), ok(&format!("[\"start-round\",{}]", hand)));
    assert_eq!(Err(DecodeError::UnknownTag), ok(&format!("[\"end-round\",{}]", hand)));
    assert_eq!(Err(DecodeError::UnknownTag), ok(&format!("[\"\",{}]", hand)));
    assert_eq!(Err(DecodeError::UnknownTag), ok(&format!("[\"Choose\",{}]", board)));
    // The payload goes with the word.
    assert_eq!(bad, ok(&format!("[\"start-round\",{}]", board)));
    assert_eq!(bad, ok(&format!("[\"take-turn\",{}]", hand)));
    // The array has two elements.
    assert_eq!(bad, ok(&format!("[\"take-turn\",{},{}]", board, board)));
    assert_eq!(bad, ok("[\"take-turn\"]"));
    assert_eq!(bad, ok(&format!("[{},\"take-turn\"]", board)));
    assert_eq!(bad, ok(&format!("\"take-turn\",{}", board)));
    assert_eq!(bad, ok(&format!("[\"take-turn\",{}]]", board)));
    assert_eq!(bad, ok(&format!("[\"take-turn\" {}]", board)));
    assert_eq!(bad, ok(&format!("[take-turn,{}]", board)));
    // A word may be written with escapes.
    assert_eq!(Ok(Tag::TakeTurn), ok(&format!("[\"take\\u002dturn\",{}]", board)));
    assert_eq!(Ok(Tag::Choose), ok(&format!("[\"\\u0063hoos\\u0065\",{}]", board)));
    assert_eq!(Ok(Tag::TakeTurn), ok(&format!("[\"take\\u002Dturn\",{}]", board)));
    assert_eq!(Err(DecodeError::UnknownTag), ok(&format!("[\"take\\/turn\",{}]", board)));
    assert_eq!(Err(DecodeError::UnknownTag), ok(&format!("[\"take\\nturn\",{}]", board)));
    assert_eq!(Err(DecodeError::UnknownTag), ok(&format!("[\"choos\\u00e9\",{}]", board)));
    assert_eq!(bad, ok(&format!("[\"take\\-turn\",{}]", board)));
    assert_eq!(bad, ok(&format!("[\"take\\u00-dturn\",{}]", board)));
    assert_eq!(bad, ok(&format!("[\"take\\u02dturn\",{}]", board).replace("02dturn", "02d")));
    assert_eq!(bad, ok(&format!("[\"take-turn\\\",{}]", board)));
    assert_eq!(bad, ok(&format!("[\"take\tturn\",{}]", board)));
    assert_eq!(bad, ok(""));
    assert_eq!(bad, ok("true"));
    // What the payload holds is examined last.
    assert_eq!(
        Err(DecodeError::Structure(StructureError::StackCount(3))),
        ok("[\"choose\",[[[2,2]],[[2,2]],[[2,2]]]]")
    );
    assert_eq!(
        Err(DecodeError::Structure(StructureError::CardLength(0))),
        ok("[\"start-round\",[]]")
    );
    assert_eq!(
        Err(DecodeError::Structure(StructureError::Face(0))),
        ok("[\"start-round\",[[0,2]]]")
    );
}

#[test]
fn requests_are_written_without_white_space() {
    let turn = RequestMessage::TakeTurn(board());
    assert_eq!(
        "[\"take-turn\",[[[1,2]],[[2,2]],[[3,2]],[[4,2]]]]",
        text(encode_request(&turn))
    );
    let choice = RequestMessage::Choose(Board::new([
        Stack::new(vec![make_card(104, 7), make_card(10, 3)]).unwrap(),
        Stack::default(),
        Stack::new(vec![make_card(9, 1)]).unwrap(),
        Stack::new(vec![make_card(100, 3), make_card(99, 5), make_card(255, 255)]).unwrap(),
    ]));
    assert_eq!(
        "[\"choose\",[[[104,7],[10,3]],[],[[9,1]],[[100,3],[99,5],[255,255]]]]",
        text(encode_request(&choice))
    );
    let empty = ResponseMessage::Choose(Stack::default());
    assert_eq!("[]", text(encode_response(&empty)));
    assert_eq!("[1,0]", text(encode_card(&make_card(1, 0))));
    assert_eq!("[9,10]", text(encode_card(&make_card(9, 10))));
    assert_eq!("[99,100]", text(encode_card(&make_card(99, 100))));
    assert_eq!("[200,109]", text(encode_card(&make_card(200, 109))));
}

#[test]
fn a_request_comes_back_from_its_text() {
    let config = config();
    let stacks = || {
        [
            Stack::new(vec![make_card(104, 7), make_card(10, 3)]).unwrap(),
            Stack::new(vec![make_card(1, 1)]).unwrap(),
            Stack::new(vec![make_card(9, 1)]).unwrap(),
            Stack::new(vec![make_card(100, 3), make_card(99, 5), make_card(55, 7)]).unwrap(),
        ]
    };
    let sent = RequestMessage::Choose(Board::new(stacks()));
    match decode_request(&encode_request(&sent), &config).unwrap() {
        RequestMessage::Choose(board) => {
            let expected = stacks();
            for (id, stack) in StackId::all().iter().zip(expected.iter()) {
                assert_eq!(stack.cards(), board[*id].cards());
            }
        }
        _ => panic!("a choice was sent"),
    }
    let sent = RequestMessage::TakeTurn(Board::new(stacks()));
    match decode_request(&encode_request(&sent), &config).unwrap() {
        RequestMessage::TakeTurn(board) => {
            assert_eq!(stacks()[3].cards(), board.take(StackId::D).cards());
        }
        _ => panic!("a turn was sent"),
    }
    let mut cards = deck();
    cards.split_off(10);
    let sent = RequestMessage::StartRound(StartingHand::new(cards.clone(), &config).unwrap());
    match decode_request(&encode_request(&sent), &config).unwrap() {
        RequestMessage::StartRound(hand) => assert_eq!(cards, hand.take()),
        _ => panic!("a round was started"),
    }
}

#[test]
fn every_card_comes_back_from_its_text() {
    let wide = Configuration::new(10, 5, 66, 255, (0, 255));
    for face in 1..=255u8 {
        for bull in [0u8, 1, 9, 10, 11, 99, 100, 101, 199, 200, 249, 250, 255] {
            let card = make_card(face, bull);
            assert_eq!(Ok(card), decode_card(&encode_card(&card), &wide));
        }
    }
}

#[test]
fn a_card_out_of_range_is_not_built() {
    assert_eq!(Err(StructureError::Face(0)), Card::new(0, 2, &strict()));
    assert_eq!(Err(StructureError::Face(105)), Card::new(105, 2, &strict()));
    assert_eq!(Err(StructureError::Bull(1)), Card::new(1, 1, &strict()));
    assert_eq!(Err(StructureError::Bull(8)), Card::new(1, 8, &strict()));
    assert_eq!(Err(StructureError::Bull(8)), Card::new(1, 8, &config()));
    assert_eq!(Err(StructureError::Bull(0)), Card::new(1, 0, &config()));
    let card = Card::new(104, 7, &strict()).unwrap();
    assert_eq!((104, 7), (card.face(), card.bull()));
    let card = Card::new(1, 2, &strict()).unwrap();
    assert_eq!((1, 2), (card.face(), card.bull()));
}

#[test]
fn a_stack_without_a_card_is_not_built() {
    assert_eq!(
        Err(StructureError::EmptyStack),
        Stack::new(Vec::new()).map(|_| ())
    );
    let stack = Stack::new(vec![make_card(4, 2)]).unwrap();
    assert_eq!(&vec![make_card(4, 2)], stack.cards());
    assert!(Stack::default().is_empty());
}
