use take5::board::Board;
use take5::card::Card;
use take5::configuration::Configuration;
use take5::decode::{decode_board, decode_hand, decode_request};
use take5::grammar::DecodeError;
use take5::encode::{encode_board, encode_hand, encode_request, encode_response};
use take5::message::{RequestMessage, ResponseMessage, Tag};
use take5::stack::Stack;
use take5::starting_hand::StartingHand;

/// A card of a deck that has every face from 1 to 255 and every bull value.
fn make_card(face: u8, bull: u8) -> Card {
    Card::new(face, bull, &Configuration::new(10, 5, 66, 255, (0, 255))).unwrap()
}

fn pairs(cards: &[Card]) -> Vec<(u8, u8)> {
    cards.iter().map(|card| (card.face(), card.bull())).collect()
}

fn cards(pairs: &[(u8, u8)]) -> Vec<Card> {
    pairs.iter().map(|&(face, bull)| make_card(face, bull)).collect()
}

#[test]
fn the_text_of_a_hand_is_the_json_of_its_pairs() {
    let config = Configuration::default();
    let hand: Vec<(u8, u8)> = (1..=10).map(|i| (i * 10, 1 + i % 7)).collect();
    let text = encode_hand(&StartingHand::new(cards(&hand), &config).unwrap());
    assert_eq!(serde_json::to_vec(&hand).unwrap(), text);
    let read: Vec<(u8, u8)> = serde_json::from_slice(&text).unwrap();
    assert_eq!(hand, read);
}

#[test]
fn the_text_of_a_board_is_the_json_of_its_stacks() {
    let stacks: Vec<Vec<(u8, u8)>> = vec![
        vec![(1, 1)],
        vec![(104, 7), (55, 7), (2, 1)],
        vec![(9, 1), (10, 3)],
        vec![(100, 3)],
    ];
    let board = Board::checked(stacks.iter().map(|s| Stack::new(cards(s)).unwrap()).collect()).unwrap();
    let text = encode_board(&board);
    assert_eq!(serde_json::to_vec(&stacks).unwrap(), text);
    let read: Vec<Vec<(u8, u8)>> = serde_json::from_slice(&text).unwrap();
    assert_eq!(stacks, read);
}

#[test]
fn the_text_of_a_request_is_the_json_of_its_tag_and_payload() {
    let config = Configuration::default();
    let hand: Vec<(u8, u8)> = (1..=10).map(|i| (i, 2)).collect();
    let request = RequestMessage::StartRound(StartingHand::new(cards(&hand), &config).unwrap());
    let text = encode_request(&request);
    assert_eq!(serde_json::to_vec(&("start-round", &hand)).unwrap(), text);
    let (tag, read): (String, Vec<(u8, u8)>) = serde_json::from_slice(&text).unwrap();
    assert_eq!("start-round", tag);
    assert_eq!(hand, read);

    let stacks: Vec<Vec<(u8, u8)>> = vec![vec![(1, 1)], vec![(2, 1)], vec![(3, 1)], vec![(4, 1)]];
    let board = || Board::checked(stacks.iter().map(|s| Stack::new(cards(s)).unwrap()).collect()).unwrap();
    let text = encode_request(&RequestMessage::TakeTurn(board()));
    assert_eq!(serde_json::to_vec(&("take-turn", &stacks)).unwrap(), text);
    let text = encode_request(&RequestMessage::Choose(board()));
    assert_eq!(serde_json::to_vec(&("choose", &stacks)).unwrap(), text);
}

#[test]
fn the_text_of_a_response_is_json() {
    assert_eq!(
        serde_json::to_vec(&true).unwrap(),
        encode_response(&ResponseMessage::StartRound)
    );
    assert_eq!(
        serde_json::to_vec(&(7u8, 3u8)).unwrap(),
        encode_response(&ResponseMessage::TakeTurn(make_card(7, 3)))
    );
    let stack = vec![(7u8, 3u8), (8, 1)];
    assert_eq!(
        serde_json::to_vec(&stack).unwrap(),
        encode_response(&ResponseMessage::Choose(Stack::new(cards(&stack)).unwrap()))
    );
}

#[test]
fn json_with_white_space_is_read_as_the_same_values() {
    let config = Configuration::default();
    let hand: Vec<(u8, u8)> = (1..=10).map(|i| (i + 20, 3)).collect();
    let pretty = serde_json::to_string_pretty(&hand).unwrap();
    let read = decode_hand(pretty.as_bytes(), &config).unwrap();
    assert_eq!(hand, pairs(&read.take()));

    let stacks: Vec<Vec<(u8, u8)>> = vec![vec![(1, 1), (5, 2)], vec![(2, 1)], vec![(3, 1)], vec![(4, 1)]];
    let pretty = serde_json::to_string_pretty(&stacks).unwrap();
    let read = decode_board(pretty.as_bytes(), &config).unwrap();
    assert_eq!(stacks[0], pairs(read[take5::board::StackId::A].cards()));
}

#[test]
fn a_word_with_escapes_is_read_as_json_reads_it() {
    let config = Configuration::default();
    let board = "[[[1,1]],[[2,1]],[[3,1]],[[4,1]]]";
    let words = [
        "take-turn",
        "take\\u002dturn",
        "take\\u002Dturn",
        "\\u0074\\u0061\\u006b\\u0065-turn",
        "choose",
        "cho\\u006fse",
        "c\\u0068oose",
        "choose\\u0000",
        "choose\\n",
        "take\\/turn",
        "take\\\\turn",
        "take\\\"turn",
        "take\\bturn",
        "take\\fturn",
        "take\\rturn",
        "take\\tturn",
        "take\\u00e9turn",
        "take\\u20acturn",
        "\u{e9}",
        "",
        "take\\xturn",
        "take\\u12turn",
        "take\\u12g4turn",
        "take\\",
        "take\nturn",
        "take\u{1}turn",
    ];
    for word in words.iter() {
        let text = format!("[\"{}\",{}]", word, board);
        let ours = decode_request(text.as_bytes(), &config).map(|request| request.tag());
        let json: Result<(String, Vec<Vec<(u8, u8)>>), _> = serde_json::from_str(&text);
        match json {
            Ok((tag, _)) if tag == "take-turn" => assert_eq!(Ok(Tag::TakeTurn), ours, "{}", text),
            Ok((tag, _)) if tag == "choose" => assert_eq!(Ok(Tag::Choose), ours, "{}", text),
            Ok(_) => assert_eq!(Err(DecodeError::UnknownTag), ours, "{}", text),
            Err(_) => assert_eq!(Err(DecodeError::Malformed), ours, "{}", text),
        }
    }
    // Half of a pair of surrogates is no character: JSON refuses the text,
    // and here the word names no request.
    let text = format!("[\"take\\ud83dturn\",{}]", board);
    assert!(serde_json::from_str::<(String, Vec<Vec<(u8, u8)>>)>(&text).is_err());
    assert_eq!(
        Err(DecodeError::UnknownTag),
        decode_request(text.as_bytes(), &config).map(|request| request.tag())
    );
}
