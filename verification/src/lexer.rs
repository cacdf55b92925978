use crate::message::Tag;
use crate::token::{
    tag_bytes, tag_name, word_token, Token, BACKSLASH, CLOSE, COMMA, OPEN, QUOTE, ZERO,
};
use vstd::prelude::*;

verus! {

/// Whether a byte is white space between tokens: a space, a tab, a line
/// feed or a carriage return.
pub open spec fn is_space(byte: u8) -> bool {
    byte == 32 || byte == 9 || byte == 10 || byte == 13
}

/// Whether a byte is a decimal digit.
pub open spec fn is_digit(byte: u8) -> bool {
    ZERO <= byte <= ZERO + 9
}

/// Whether a byte stands for itself inside a quoted word: anything but the
/// quote, the backslash and the control characters.
pub open spec fn is_plain(byte: u8) -> bool {
    byte != QUOTE && byte != BACKSLASH && byte >= 32
}

/// Whether the text goes on with a digit at the given place.
pub open spec fn digit_at(text: Seq<u8>, at: int) -> bool {
    at < text.len() && is_digit(text[at])
}

/// Whether a byte is a digit to the base of sixteen.
pub open spec fn is_hex(byte: u8) -> bool {
    (48 <= byte <= 57) || (65 <= byte <= 70) || (97 <= byte <= 102)
}

/// The value of a digit to the base of sixteen.
pub open spec fn hex_value(byte: u8) -> int {
    if byte <= 57 {
        byte - 48
    } else if byte <= 70 {
        byte - 55
    } else {
        byte - 87
    }
}

/// The byte that an escape stands for, and the number of bytes that it
/// takes behind its backslash. The text begins behind the backslash. A
/// quote, a backslash and a slash stand for themselves; `b`, `f`, `n`, `r`
/// and `t` stand for the control characters of those names; `u` and four
/// digits to the base of sixteen stand for the character of that number,
/// which is written here as the byte 255 where it lies beyond ASCII.
pub open spec fn escaped(text: Seq<u8>) -> Option<(u8, nat)> {
    if text.len() == 0 {
        None
    } else if text[0] == QUOTE || text[0] == BACKSLASH || text[0] == 47 {
        Some((text[0], 1))
    } else if text[0] == 98 {
        Some((8, 1))
    } else if text[0] == 102 {
        Some((12, 1))
    } else if text[0] == 110 {
        Some((10, 1))
    } else if text[0] == 114 {
        Some((13, 1))
    } else if text[0] == 116 {
        Some((9, 1))
    } else if text[0] == 117 && text.len() >= 5 && is_hex(text[1]) && is_hex(text[2]) && is_hex(
        text[3],
    ) && is_hex(text[4]) {
        let value = 4096 * hex_value(text[1]) + 256 * hex_value(text[2]) + 16 * hex_value(text[3])
            + hex_value(text[4]);
        Some((
            if value < 128 {
                value as u8
            } else {
                255
            },
            5,
        ))
    } else {
        None
    }
}

/// A word with some bytes more in front of it.
pub open spec fn longer(front: Seq<u8>, taken: nat, word: Option<(Seq<u8>, nat)>) -> Option<
    (Seq<u8>, nat),
> {
    match word {
        Some((bytes, n)) => Some((front + bytes, n + taken)),
        None => None,
    }
}

/// The quoted word that a text begins with, behind its opening quote: the
/// bytes that it stands for, and the number of bytes that it takes before
/// the quote that closes it. A plain byte stands for itself, and an escape
/// for what it names. There is no word where a control character or a
/// broken escape comes before the closing quote, or no closing quote
/// comes.
pub open spec fn word_of(text: Seq<u8>) -> Option<(Seq<u8>, nat)>
    decreases text.len(),
{
    if text.len() == 0 {
        None
    } else if text[0] == QUOTE {
        Some((Seq::empty(), 0))
    } else if text[0] == BACKSLASH {
        match escaped(text.skip(1)) {
            Some((byte, n)) => if 1 + n <= text.len() {
                longer(seq![byte], 1 + n, word_of(text.skip(1 + n as int)))
            } else {
                None
            },
            None => None,
        }
    } else if text[0] < 32 {
        None
    } else {
        longer(seq![text[0]], 1, word_of(text.skip(1)))
    }
}

/// The number that a text starts with, and the number of its digits. The
/// text starts with a digit. A number has no leading zero, at most three
/// digits and a value up to 255.
pub open spec fn first_number(text: Seq<u8>) -> Option<(Token, nat)> {
    let a = text[0] - ZERO;
    let b = text[1] - ZERO;
    let c = text[2] - ZERO;
    if !digit_at(text, 1) {
        Some((Token::Number(a as u8), 1))
    } else if a == 0 {
        None
    } else if !digit_at(text, 2) {
        Some((Token::Number((10 * a + b) as u8), 2))
    } else if digit_at(text, 3) || 100 * a + 10 * b + c > 255 {
        None
    } else {
        Some((Token::Number((100 * a + 10 * b + c) as u8), 3))
    }
}

/// The token that a text starts with, and the number of its bytes.
pub open spec fn first_token(text: Seq<u8>) -> Option<(Token, nat)> {
    if text.len() == 0 {
        None
    } else if text[0] == OPEN {
        Some((Token::Open, 1))
    } else if text[0] == CLOSE {
        Some((Token::Close, 1))
    } else if text[0] == COMMA {
        Some((Token::Comma, 1))
    } else if text[0] == QUOTE {
        match word_of(text.skip(1)) {
            Some((word, n)) => Some((word_token(word), n + 2)),
            None => None,
        }
    } else if is_digit(text[0]) {
        first_number(text)
    } else {
        None
    }
}

/// The tokens of a text, where all of it is tokens and white space.
pub open spec fn lex(text: Seq<u8>) -> Option<Seq<Token>>
    decreases text.len(),
{
    if text.len() == 0 {
        Some(Seq::empty())
    } else if is_space(text[0]) {
        lex(text.skip(1))
    } else {
        match first_token(text) {
            Some((token, n)) if 0 < n <= text.len() => match lex(text.skip(n as int)) {
                Some(rest) => Some(seq![token] + rest),
                None => None,
            },
            _ => None,
        }
    }
}

/// Some tokens followed by the tokens of a rest of the text, if the rest
/// has any.
pub open spec fn followed_by(tokens: Seq<Token>, rest: Option<Seq<Token>>) -> Option<Seq<Token>> {
    match rest {
        Some(rest) => Some(tokens + rest),
        None => None,
    }
}

/// Returns whether two words are the same.
fn same_word(word: &Vec<u8>, other: &Vec<u8>) -> (same: bool)
    ensures
        same == (word@ == other@),
{
    if word.len() != other.len() {
        return false;
    }
    let mut i: usize = 0;
    while i < word.len()
        invariant
            word@.len() == other@.len(),
            i <= word@.len(),
            forall|k: int| 0 <= k < i ==> word@[k] == other@[k],
        decreases word.len() - i,
    {
        if word[i] != other[i] {
            return false;
        }
        i += 1;
    }
    assert(word@ =~= other@);
    true
}

/// Returns the value of a digit to the base of sixteen, if the byte is
/// one.
fn read_hex(byte: u8) -> (value: Option<u16>)
    ensures
        match value {
            Some(value) => is_hex(byte) && value == hex_value(byte) && value < 16,
            None => !is_hex(byte),
        },
{
    if 48 <= byte && byte <= 57 {
        Some((byte - 48) as u16)
    } else if 65 <= byte && byte <= 70 {
        Some((byte - 55) as u16)
    } else if 97 <= byte && byte <= 102 {
        Some((byte - 87) as u16)
    } else {
        None
    }
}

/// Returns the byte that the escape behind the backslash before `from`
/// stands for, and the number of bytes that it takes.
fn read_escape(text: &[u8], from: usize) -> (found: Option<(u8, usize)>)
    requires
        from <= text@.len(),
    ensures
        match found {
            Some((byte, n)) => escaped(text@.skip(from as int)) == Some((byte, n as nat)) && 1 <= n
                && from + n <= text@.len(),
            None => escaped(text@.skip(from as int)) is None,
        },
{
    let ghost rest = text@.skip(from as int);
    assert(forall|k: int| 0 <= k < rest.len() ==> rest[k] == text@[from + k]);
    if from >= text.len() {
        return None;
    }
    let byte = text[from];
    if byte == QUOTE || byte == BACKSLASH || byte == 47 {
        Some((byte, 1))
    } else if byte == 98 {
        Some((8, 1))
    } else if byte == 102 {
        Some((12, 1))
    } else if byte == 110 {
        Some((10, 1))
    } else if byte == 114 {
        Some((13, 1))
    } else if byte == 116 {
        Some((9, 1))
    } else if byte == 117 && text.len() - from >= 5 {
        let a = match read_hex(text[from + 1]) {
            Some(a) => a,
            None => {
                return None;
            },
        };
        let b = match read_hex(text[from + 2]) {
            Some(b) => b,
            None => {
                return None;
            },
        };
        let c = match read_hex(text[from + 3]) {
            Some(c) => c,
            None => {
                return None;
            },
        };
        let d = match read_hex(text[from + 4]) {
            Some(d) => d,
            None => {
                return None;
            },
        };
        let value: u16 = 4096 * a + 256 * b + 16 * c + d;
        if value < 128 {
            Some((value as u8, 5))
        } else {
            Some((255, 5))
        }
    } else {
        None
    }
}

/// Returns the token that the quoted word behind the quote before `from`
/// stands for, and the number of bytes that the word takes before the
/// quote that closes it.
fn read_word(text: &[u8], from: usize) -> (found: Option<(Token, usize)>)
    requires
        from <= text@.len(),
    ensures
        match found {
            Some((token, n)) => from + n < text@.len() && match word_of(text@.skip(from as int)) {
                Some((word, m)) => token == word_token(word) && n == m,
                None => false,
            },
            None => word_of(text@.skip(from as int)) is None,
        },
{
    let mut word: Vec<u8> = Vec::new();
    let mut i: usize = from;
    proof {
        let all = word_of(text@.skip(from as int));
        if let Some((bytes, n)) = all {
            assert(word@ + bytes == bytes);
        }
    }
    while i < text.len()
        invariant
            from <= i <= text@.len(),
            word_of(text@.skip(from as int)) == longer(
                word@,
                (i - from) as nat,
                word_of(text@.skip(i as int)),
            ),
        decreases text.len() - i,
    {
        let byte = text[i];
        let ghost here = text@.skip(i as int);
        assert(here[0] == byte);
        assert(here.skip(1) == text@.skip(i + 1));
        if byte == QUOTE {
            assert(word@ + Seq::<u8>::empty() == word@);
            let token = if same_word(&word, &tag_bytes(Tag::StartRound)) {
                Token::Tag(Tag::StartRound)
            } else if same_word(&word, &tag_bytes(Tag::TakeTurn)) {
                Token::Tag(Tag::TakeTurn)
            } else if same_word(&word, &tag_bytes(Tag::Choose)) {
                Token::Tag(Tag::Choose)
            } else {
                Token::Word
            };
            return Some((token, i - from));
        }
        if byte < 32 {
            return None;
        }
        if byte == BACKSLASH {
            match read_escape(text, i + 1) {
                Some((stands, n)) => {
                    proof {
                        assert(here.skip(1 + n as int) == text@.skip(i + 1 + n));
                        let behind = word_of(text@.skip(i + 1 + n));
                        if let Some((bytes, m)) = behind {
                            assert(word@ + (seq![stands] + bytes) == word@.push(stands) + bytes);
                        }
                    }
                    word.push(stands);
                    i += 1 + n;
                },
                None => {
                    return None;
                },
            }
        } else {
            proof {
                let behind = word_of(text@.skip(i + 1));
                if let Some((bytes, m)) = behind {
                    assert(word@ + (seq![byte] + bytes) == word@.push(byte) + bytes);
                }
            }
            word.push(byte);
            i += 1;
        }
    }
    None
}

/// Returns whether the text goes on with a digit at the given place.
fn has_digit_at(text: &[u8], at: usize) -> (digit: bool)
    ensures
        digit == digit_at(text@, at as int),
{
    at < text.len() && ZERO <= text[at] && text[at] <= ZERO + 9
}

/// Returns the number that starts at `from`, where a digit stands, and the
/// number of its digits.
fn read_number(text: &[u8], from: usize) -> (found: Option<(Token, usize)>)
    requires
        from < text@.len(),
        is_digit(text@[from as int]),
    ensures
        match found {
            Some((token, n)) => first_number(text@.skip(from as int)) == Some((token, n as nat))
                && from + n <= text@.len(),
            None => first_number(text@.skip(from as int)) is None,
        },
{
    let ghost rest = text@.skip(from as int);
    assert(forall|k: int| 0 <= k < rest.len() ==> rest[k] == text@[from + k]);
    let a = text[from] - ZERO;
    if from == usize::MAX || !has_digit_at(text, from + 1) {
        return Some((Token::Number(a), 1));
    }
    if a == 0 {
        return None;
    }
    let b = text[from + 1] - ZERO;
    if from + 1 == usize::MAX || !has_digit_at(text, from + 2) {
        return Some((Token::Number(10 * a + b), 2));
    }
    let c = text[from + 2] - ZERO;
    if from + 2 < usize::MAX && has_digit_at(text, from + 3) {
        return None;
    }
    if a > 2 || (a == 2 && (b > 5 || (b == 5 && c > 5))) {
        return None;
    }
    Some((Token::Number(100 * a + 10 * b + c), 3))
}

/// Returns the token that starts at `from`, and the number of its bytes.
fn read_token(text: &[u8], from: usize) -> (found: Option<(Token, usize)>)
    requires
        from < text@.len(),
    ensures
        match found {
            Some((token, n)) => first_token(text@.skip(from as int)) == Some((token, n as nat))
                && 0 < n && from + n <= text@.len(),
            None => first_token(text@.skip(from as int)) is None,
        },
{
    let ghost rest = text@.skip(from as int);
    let byte = text[from];
    assert(rest[0] == byte);
    if byte == OPEN {
        Some((Token::Open, 1))
    } else if byte == CLOSE {
        Some((Token::Close, 1))
    } else if byte == COMMA {
        Some((Token::Comma, 1))
    } else if byte == QUOTE {
        assert(rest.skip(1) == text@.skip(from + 1));
        match read_word(text, from + 1) {
            Some((token, n)) => Some((token, n + 2)),
            None => None,
        }
    } else if ZERO <= byte && byte <= ZERO + 9 {
        read_number(text, from)
    } else {
        None
    }
}

/// Splits a text into its tokens. Returns `None` where the text holds
/// anything but tokens and white space.
pub fn tokenize(text: &[u8]) -> (tokens: Option<Vec<Token>>)
    ensures
        match tokens {
            Some(tokens) => lex(text@) == Some(tokens@),
            None => lex(text@) is None,
        },
{
    let mut tokens: Vec<Token> = Vec::new();
    let mut i: usize = 0;
    assert(text@.skip(0) == text@);
    while i < text.len()
        invariant
            i <= text@.len(),
            lex(text@) == followed_by(tokens@, lex(text@.skip(i as int))),
        decreases text.len() - i,
    {
        let ghost rest = text@.skip(i as int);
        let byte = text[i];
        assert(rest[0] == byte);
        if byte == 32 || byte == 9 || byte == 10 || byte == 13 {
            assert(rest.skip(1) == text@.skip(i + 1));
            i += 1;
        } else {
            match read_token(text, i) {
                Some((token, n)) => {
                    assert(rest.skip(n as int) == text@.skip(i + n));
                    proof {
                        let after = lex(text@.skip(i + n));
                        if after is Some {
                            assert(tokens@ + (seq![token] + after->0) == tokens@.push(token)
                                + after->0);
                        }
                    }
                    tokens.push(token);
                    i += n;
                },
                None => {
                    return None;
                },
            }
        }
    }
    assert(tokens@ + Seq::<Token>::empty() == tokens@);
    Some(tokens)
}

} // verus!
