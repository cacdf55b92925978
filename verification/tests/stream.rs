use take5::board::StackId;
use take5::configuration::Configuration;
use take5::grammar::DecodeError;
use take5::message::{RequestMessage, Tag};
use take5::stream::{find_unit, next_unit, DeserializeJsonIter};
use take5::validation::StructureError;

fn config() -> Configuration {
    Configuration::default()
}

fn tags(text: &str) -> Vec<Result<Tag, DecodeError>> {
    let mut iter = DeserializeJsonIter::new(text.as_bytes().to_vec(), config());
    let mut seen = Vec::new();
    while let Some(item) = iter.next() {
        seen.push(item.map(|request| request.tag()));
    }
    // Once at the end, the decoder stays there.
    assert!(iter.next().is_none());
    seen
}

const TURN: &str = "[\"take-turn\",[[[1,2]],[[2,2]],[[3,2]],[[4,2]]]]";
const CHOICE: &str = "[\"choose\",[[[1,2]],[[2,2]],[[3,2]],[[4,2]]]]";
const HAND: &str = "[\"start-round\",[[1,2],[2,2],[3,2],[4,2],[5,2],[6,2],[7,2],[8,2],[9,2],[10,2]]]";

#[test]
fn test_iterate_message() {
    let json = "[\"take-turn\",[[[1,2]],[[2,2]],[[3,2]],[[4,2]]]][\"take-turn\",[[[1,2]],[[2,2]],[[3,2]],[[4,2]]]]";
    let mut stream = DeserializeJsonIter::new(json.as_bytes().to_vec(), config());
    let mut count = 0;
    while let Some(result) = stream.next() {
        match result {
            Ok(RequestMessage::TakeTurn(board)) => {
                assert_eq!(1, board[StackId::A].len());
            }
            _ => assert!(false),
        }
        count += 1;
    }
    assert_eq!(2, count);
}

#[test]
fn a_malformed_unit_does_not_end_the_sequence() {
    let three = "[\"take-turn\",[[2,2],[2,2],[2,2]]]";
    let text = format!("{}{}", three, TURN);
    assert_eq!(
        vec![Err(DecodeError::Malformed), Ok(Tag::TakeTurn)],
        tags(&text)
    );
    let three = "[\"take-turn\",[[[2,2]],[[2,2]],[[2,2]]]]";
    let text = format!("{}\n{}\n{}\n{}", HAND, three, CHOICE, TURN);
    assert_eq!(
        vec![
            Ok(Tag::StartRound),
            Err(DecodeError::Structure(StructureError::StackCount(3))),
            Ok(Tag::Choose),
            Ok(Tag::TakeTurn),
        ],
        tags(&text)
    );
}

#[test]
fn units_need_nothing_between_them() {
    assert_eq!(
        vec![Ok(Tag::TakeTurn), Ok(Tag::Choose), Ok(Tag::StartRound)],
        tags(&format!("{}{}{}", TURN, CHOICE, HAND))
    );
    assert_eq!(
        vec![Ok(Tag::TakeTurn), Ok(Tag::Choose), Ok(Tag::StartRound)],
        tags(&format!("  {}\r\n\t{} {}\n\n", TURN, CHOICE, HAND))
    );
    assert_eq!(Vec::<Result<Tag, DecodeError>>::new(), tags(""));
    assert_eq!(Vec::<Result<Tag, DecodeError>>::new(), tags(" \n\t\r "));
}

#[test]
fn a_unit_ends_with_the_bracket_that_closes_it() {
    let bad = Err(DecodeError::Malformed);
    // Arrays of other things are units, and no requests.
    assert_eq!(
        vec![bad, Ok(Tag::Choose)],
        tags(&format!("[[1,[2]],{{\"a\":[3]}}]{}", CHOICE))
    );
    // A bracket in a quoted string does not count, nor does a quote behind
    // a backslash end the string.
    assert_eq!(
        vec![Err(DecodeError::UnknownTag), Ok(Tag::Choose)],
        tags(&format!("[\"]\",\"a\\\"]\",\"\\\\\"]{}", CHOICE))
    );
    assert_eq!(
        vec![Err(DecodeError::UnknownTag), Ok(Tag::Choose)],
        tags(&format!("[\"[[\",1]{}", CHOICE))
    );
    // Where no array begins, one byte is dropped at a time.
    assert_eq!(
        vec![bad, bad, bad, bad, Ok(Tag::TakeTurn), bad],
        tags(&format!("true{}]", TURN))
    );
}

#[test]
fn an_array_that_the_source_ends_in_is_no_request() {
    assert_eq!(
        vec![Ok(Tag::TakeTurn), Err(DecodeError::Malformed)],
        tags(&format!("{}{}", TURN, &CHOICE[..CHOICE.len() - 1]))
    );
    assert_eq!(vec![Err(DecodeError::Malformed)], tags("["));
    assert_eq!(vec![Err(DecodeError::Malformed)], tags("  [\"choose\",[\"]"));
}

#[test]
fn a_unit_is_found_once_it_is_there_as_a_whole() {
    let text = format!(" {}{}", TURN, CHOICE);
    let bytes = text.as_bytes();
    let end = 1 + TURN.len();
    for cut in 0..end {
        assert_eq!(None, find_unit(&bytes[..cut], 0));
        assert!(next_unit(&bytes[..cut], 0, &config()).is_none());
    }
    for cut in end..bytes.len() {
        assert_eq!(Some(end), find_unit(&bytes[..cut], 0));
        assert_eq!(None, find_unit(&bytes[..cut], end));
    }
    assert_eq!(Some(bytes.len()), find_unit(bytes, end));
    let unit = next_unit(bytes, 0, &config()).unwrap();
    assert_eq!(end, unit.end);
    assert_eq!(Tag::TakeTurn, unit.request.unwrap().tag());
    let unit = next_unit(bytes, end, &config()).unwrap();
    assert_eq!(bytes.len(), unit.end);
    assert_eq!(Tag::Choose, unit.request.unwrap().tag());
    assert!(next_unit(bytes, bytes.len(), &config()).is_none());
    // One byte that begins no array is a unit.
    assert_eq!(Some(3), find_unit(b"  x[1]", 0));
    assert_eq!(Some(6), find_unit(b"  x[1]", 3));
    assert_eq!(Some(1), find_unit(b"]", 0));
    // A backslash at the end of what is there waits for the next byte.
    assert_eq!(None, find_unit(b"[\"\\", 0));
    assert_eq!(None, find_unit(b"[\"\\\"]", 0));
    assert_eq!(Some(6), find_unit(b"[\"\\\"\"]", 0));
}
