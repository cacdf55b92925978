use take5::card::Card;
use take5::configuration::Configuration;
use take5::decode::decode_hand;
use take5::encode::encode_hand;
use take5::grammar::DecodeError;
use take5::starting_hand::{Error, StartingHand};
use take5::validation::StructureError;

/// A card of a deck that has every face from 1 to 255 and every bull value.
fn make_card(face: u8, bull: u8) -> Card {
    Card::new(face, bull, &Configuration::new(10, 5, 66, 255, (0, 255))).unwrap()
}

fn deck(bull: u8) -> Vec<Card> {
    Card::deck(move |_| bull, &Configuration::default())
}

#[test]
fn test_new() {
    let mut cards = deck(3);
    cards.split_off(10);
    let hand = StartingHand::new(cards, &Configuration::default());
    assert!(hand.is_ok());
}

#[test]
fn test_new_too_few() {
    let mut cards = deck(3);
    cards.split_off(9);
    let hand = StartingHand::new(cards, &Configuration::default());
    assert!(hand.is_err());
}

#[test]
fn test_new_too_many() {
    let mut cards = deck(3);
    cards.split_off(11);
    let hand = StartingHand::new(cards, &Configuration::default());
    assert!(hand.is_err());
}

#[test]
fn test_encode_starting_hand() {
    let mut cards = deck(2);
    cards.split_off(10);
    let hand = StartingHand::new(cards, &Configuration::default()).unwrap();
    let json = String::from_utf8(encode_hand(&hand)).unwrap();
    assert_eq!(
        "[[1,2],[2,2],[3,2],[4,2],[5,2],[6,2],[7,2],[8,2],[9,2],[10,2]]",
        json
    );
}

#[test]
fn test_decode_starting_hand() {
    let json = "[[1,2],[2,2],[3,2],[4,2],[5,2],[6,2],[7,2],[8,2],[9,2],[10,2]]";
    let hand = decode_hand(json.as_bytes(), &Configuration::default()).unwrap();
    assert_eq!(10, hand.take().len());
}

#[test]
fn test_decode_starting_hand_too_few() {
    let json = "[[1,2],[2,2],[3,2],[4,2],[5,2],[6,2],[7,2],[8,2],[9,2]]";
    let result = decode_hand(json.as_bytes(), &Configuration::default());
    assert!(result.is_err());
}

#[test]
fn test_decode_starting_hand_too_many() {
    let json = "[[1,2],[2,2],[3,2],[4,2],[5,2],[6,2],[7,2],[8,2],[9,2],[10,2],[11,2]]";
    let result = decode_hand(json.as_bytes(), &Configuration::default());
    assert!(result.is_err());
}

#[test]
fn a_hand_of_the_wrong_length_says_how_many_cards_came() {
    let mut cards = deck(3);
    cards.split_off(9);
    let error = StartingHand::new(cards, &Configuration::default()).unwrap_err();
    assert_eq!(Error::CardLength(9), error);
    assert_eq!(9, error.card_count());
    assert_eq!("invalid number of cards in starting hand", error.description());

    let json = "[[1,2],[2,2]]";
    assert_eq!(
        DecodeError::Structure(StructureError::CardLength(2)),
        decode_hand(json.as_bytes(), &Configuration::default()).unwrap_err()
    );
}

#[test]
fn the_number_of_turns_is_that_of_the_configuration() {
    let config = Configuration::new(3, 5, 66, 104, (1, 7));
    let mut cards = deck(3);
    cards.split_off(3);
    let hand = StartingHand::new(cards.clone(), &config).unwrap();
    assert_eq!(&cards, hand.cards());
    assert_eq!(
        Error::CardLength(3),
        StartingHand::new(cards, &Configuration::default()).unwrap_err()
    );
    assert!(StartingHand::new(Vec::new(), &config).is_err());
}

#[test]
fn a_hand_comes_back_from_its_text_card_by_card() {
    let config = Configuration::default();
    let cards: Vec<Card> = (0..10u8)
        .map(|i| make_card(104 - 7 * i, 1 + i % 7))
        .collect();
    let hand = StartingHand::new(cards.clone(), &config).unwrap();
    let text = encode_hand(&hand);
    let back = decode_hand(&text, &config).unwrap();
    assert_eq!(cards, back.take());
}

#[test]
fn a_card_of_another_deck_spoils_the_hand() {
    let json = "[[1,2],[2,2],[3,2],[4,2],[5,2],[6,2],[7,2],[8,2],[9,2],[105,2]]";
    assert_eq!(
        DecodeError::Structure(StructureError::Face(105)),
        decode_hand(json.as_bytes(), &Configuration::default()).unwrap_err()
    );
    // The first fault is reported: the card, before the length.
    let json = "[[1,9],[2,2]]";
    assert_eq!(
        DecodeError::Structure(StructureError::Bull(9)),
        decode_hand(json.as_bytes(), &Configuration::default()).unwrap_err()
    );
}
