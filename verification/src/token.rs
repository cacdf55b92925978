use crate::message::Tag;
use vstd::prelude::*;

verus! {

/// The pieces that the text of a message is made of.
#[derive(Debug, PartialEq, Eq, Clone, Copy, Structural)]
pub enum Token {
    /// An opening square bracket.
    Open,
    /// A closing square bracket.
    Close,
    /// A comma.
    Comma,
    /// A whole number in decimal digits, from 0 to 255.
    Number(u8),
    /// A quoted word that names a kind of request.
    Tag(Tag),
    /// Any other quoted word.
    Word,
}

/// The byte `[`.
pub const OPEN: u8 = 91;

/// The byte `]`.
pub const CLOSE: u8 = 93;

/// The byte `,`.
pub const COMMA: u8 = 44;

/// The byte `"`.
pub const QUOTE: u8 = 34;

/// The byte `\`.
pub const BACKSLASH: u8 = 92;

/// The byte `0`; the other digits follow it.
pub const ZERO: u8 = 48;

/// The word that names a kind of request on the wire, in ASCII:
/// `start-round`, `take-turn` or `choose`.
pub open spec fn tag_name(tag: Tag) -> Seq<u8> {
    match tag {
        Tag::StartRound => seq![115u8, 116, 97, 114, 116, 45, 114, 111, 117, 110, 100],
        Tag::TakeTurn => seq![116u8, 97, 107, 101, 45, 116, 117, 114, 110],
        Tag::Choose => seq![99u8, 104, 111, 111, 115, 101],
    }
}

/// The token that a quoted word stands for.
pub open spec fn word_token(word: Seq<u8>) -> Token {
    if word == tag_name(Tag::StartRound) {
        Token::Tag(Tag::StartRound)
    } else if word == tag_name(Tag::TakeTurn) {
        Token::Tag(Tag::TakeTurn)
    } else if word == tag_name(Tag::Choose) {
        Token::Tag(Tag::Choose)
    } else {
        Token::Word
    }
}

/// The decimal digit for a value below ten.
pub open spec fn digit(value: u8) -> u8 {
    (ZERO + value) as u8
}

/// A number in decimal digits, without leading zeros.
pub open spec fn decimal(n: u8) -> Seq<u8> {
    if n < 10 {
        seq![digit(n)]
    } else if n < 100 {
        seq![digit(n / 10), digit(n % 10)]
    } else {
        seq![digit(n / 100), digit((n / 10) % 10), digit(n % 10)]
    }
}

/// The text of one token. Of the quoted words that name no request, the
/// empty one is written.
pub open spec fn token_text(token: Token) -> Seq<u8> {
    match token {
        Token::Open => seq![OPEN],
        Token::Close => seq![CLOSE],
        Token::Comma => seq![COMMA],
        Token::Number(n) => decimal(n),
        Token::Tag(tag) => seq![QUOTE] + tag_name(tag) + seq![QUOTE],
        Token::Word => seq![QUOTE, QUOTE],
    }
}

/// The text of some tokens, written one behind the other.
pub open spec fn tokens_text(tokens: Seq<Token>) -> Seq<u8>
    decreases tokens.len(),
{
    if tokens.len() == 0 {
        Seq::empty()
    } else {
        token_text(tokens[0]) + tokens_text(tokens.skip(1))
    }
}

/// The text of tokens that follow each other is the text of the first
/// followed by the text of the others.
pub proof fn lemma_tokens_text_concat(a: Seq<Token>, b: Seq<Token>)
    ensures
        tokens_text(a + b) == tokens_text(a) + tokens_text(b),
    decreases a.len(),
{
    if a.len() == 0 {
        assert(a + b == b);
    } else {
        assert((a + b).skip(1) == a.skip(1) + b);
        lemma_tokens_text_concat(a.skip(1), b);
    }
}

/// The text of a single token.
pub proof fn lemma_tokens_text_single(token: Token)
    ensures
        tokens_text(seq![token]) == token_text(token),
{
    assert(seq![token].skip(1) == Seq::<Token>::empty());
    assert(tokens_text(seq![token].skip(1)) == Seq::<u8>::empty());
}

/// Returns the word that names a kind of request on the wire.
pub fn tag_bytes(tag: Tag) -> (name: Vec<u8>)
    ensures
        name@ == tag_name(tag),
{
    match tag {
        Tag::StartRound => vec![115u8, 116, 97, 114, 116, 45, 114, 111, 117, 110, 100],
        Tag::TakeTurn => vec![116u8, 97, 107, 101, 45, 116, 117, 114, 110],
        Tag::Choose => vec![99u8, 104, 111, 111, 115, 101],
    }
}

/// Appends a number in decimal digits to a text.
pub fn push_decimal(text: &mut Vec<u8>, n: u8)
    ensures
        final(text)@ == old(text)@ + decimal(n),
{
    if n >= 100 {
        text.push(ZERO + n / 100);
    }
    if n >= 10 {
        text.push(ZERO + (n / 10) % 10);
    }
    text.push(ZERO + n % 10);
    assert(text@ =~= old(text)@ + decimal(n));
}

/// Appends the text of a token to a text.
pub fn push_token(text: &mut Vec<u8>, token: Token)
    ensures
        final(text)@ == old(text)@ + token_text(token),
{
    match token {
        Token::Open => text.push(OPEN),
        Token::Close => text.push(CLOSE),
        Token::Comma => text.push(COMMA),
        Token::Number(n) => push_decimal(text, n),
        Token::Tag(tag) => {
            text.push(QUOTE);
            let mut name = tag_bytes(tag);
            text.append(&mut name);
            text.push(QUOTE);
        },
        Token::Word => {
            text.push(QUOTE);
            text.push(QUOTE);
        },
    }
    assert(text@ =~= old(text)@ + token_text(token));
}

} // verus!
