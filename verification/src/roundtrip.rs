use crate::card::Card;
use crate::configuration::Configuration;
use crate::decode::{
    decode_board_spec, decode_card_spec, decode_cards_spec, decode_hand_spec,
    decode_request_spec, decode_stack_spec,
};
use crate::encode::{card_text, cards_text, request_text, stacks_text};
use crate::grammar::{
    card_tokens, cards_tail_tokens, cards_tokens, parse_card, parse_cards, parse_cards_tail,
    parse_request, parse_stacks, parse_stacks_tail, request_tokens, stacks_tail_tokens,
    stacks_tokens,
};
use crate::lexer::{
    digit_at, first_number, first_token, is_digit, is_plain, is_space, lex, word_of,
};
use crate::message::{RequestView, Tag};
use crate::stream::{
    array_rest, arrived, further, leading_space, lemma_arrived_continue,
    lemma_requests_continue, requests, unit_length,
};
use crate::token::{
    decimal, lemma_tokens_text_concat, lemma_tokens_text_single, tag_name, token_text,
    tokens_text, word_token, Token, CLOSE, OPEN, QUOTE,
};
use crate::validation::{
    is_board, is_hand, is_stack, lemma_board_error, lemma_cards_error, lemma_hand_error,
};
use vstd::prelude::*;

verus! {

/// Whether no number is followed by a number at once. The texts of two such
/// numbers would run into one.
pub open spec fn separated(tokens: Seq<Token>) -> bool {
    forall|i: int|
        0 <= i < tokens.len() - 1 ==> !((#[trigger] tokens[i]) is Number && tokens[i + 1] is Number)
}

/// Whether some tokens are separated and have a bracket, a comma or a word
/// at either end, so that they stay separated whatever such tokens stand
/// beside them.
pub open spec fn tight(tokens: Seq<Token>) -> bool {
    &&& tokens.len() > 0
    &&& !(tokens.first() is Number)
    &&& !(tokens.last() is Number)
    &&& separated(tokens)
}

/// Tight tokens one behind the other are tight.
pub proof fn lemma_tight_concat(a: Seq<Token>, b: Seq<Token>)
    requires
        tight(a),
        tight(b),
    ensures
        tight(a + b),
{
    let c = a + b;
    assert forall|i: int| 0 <= i < c.len() - 1 implies !((#[trigger] c[i]) is Number && c[i
        + 1] is Number) by {
        if i < a.len() - 1 {
            assert(c[i] == a[i] && c[i + 1] == a[i + 1]);
        } else if i == a.len() - 1 {
            assert(c[i] == a.last());
        } else {
            assert(c[i] == b[i - a.len()] && c[i + 1] == b[i - a.len() + 1]);
        }
    }
}

/// The tokens of a card are tight.
pub proof fn lemma_card_tight(card: Card)
    ensures
        tight(card_tokens(card)),
{
}

/// The tokens of some cards behind their opening bracket are tight.
pub proof fn lemma_cards_tail_tight(cards: Seq<Card>)
    ensures
        tight(cards_tail_tokens(cards)),
    decreases cards.len(),
{
    if cards.len() == 1 {
        lemma_card_tight(cards[0]);
        lemma_tight_concat(card_tokens(cards[0]), seq![Token::Close]);
    } else if cards.len() > 1 {
        lemma_card_tight(cards[0]);
        lemma_cards_tail_tight(cards.skip(1));
        lemma_tight_concat(card_tokens(cards[0]), seq![Token::Comma]);
        lemma_tight_concat(
            card_tokens(cards[0]) + seq![Token::Comma],
            cards_tail_tokens(cards.skip(1)),
        );
    }
}

/// The tokens of an array of cards are tight.
pub proof fn lemma_cards_tight(cards: Seq<Card>)
    ensures
        tight(cards_tokens(cards)),
{
    lemma_cards_tail_tight(cards);
    lemma_tight_concat(seq![Token::Open], cards_tail_tokens(cards));
}

/// The tokens of some stacks behind their opening bracket are tight.
pub proof fn lemma_stacks_tail_tight(stacks: Seq<Seq<Card>>)
    ensures
        tight(stacks_tail_tokens(stacks)),
    decreases stacks.len(),
{
    if stacks.len() == 1 {
        lemma_cards_tight(stacks[0]);
        lemma_tight_concat(cards_tokens(stacks[0]), seq![Token::Close]);
    } else if stacks.len() > 1 {
        lemma_cards_tight(stacks[0]);
        lemma_stacks_tail_tight(stacks.skip(1));
        lemma_tight_concat(cards_tokens(stacks[0]), seq![Token::Comma]);
        lemma_tight_concat(
            cards_tokens(stacks[0]) + seq![Token::Comma],
            stacks_tail_tokens(stacks.skip(1)),
        );
    }
}

/// The tokens of an array of stacks are tight.
pub proof fn lemma_stacks_tight(stacks: Seq<Seq<Card>>)
    ensures
        tight(stacks_tokens(stacks)),
{
    lemma_stacks_tail_tight(stacks);
    lemma_tight_concat(seq![Token::Open], stacks_tail_tokens(stacks));
}

/// The tokens of a request are tight.
pub proof fn lemma_request_tight(request: RequestView)
    ensures
        tight(request_tokens(request)),
{
    let head = seq![Token::Open, Token::Tag(request.tag()), Token::Comma];
    let payload = match request {
        RequestView::StartRound(cards) => cards_tokens(cards),
        RequestView::TakeTurn(stacks) => stacks_tokens(stacks),
        RequestView::Choose(stacks) => stacks_tokens(stacks),
    };
    match request {
        RequestView::StartRound(cards) => lemma_cards_tight(cards),
        RequestView::TakeTurn(stacks) => lemma_stacks_tight(stacks),
        RequestView::Choose(stacks) => lemma_stacks_tight(stacks),
    }
    lemma_tight_concat(head, payload);
    lemma_tight_concat(head + payload, seq![Token::Close]);
}

/// A word of plain bytes stands for itself and ends at the quote behind it.
pub proof fn lemma_word_length(word: Seq<u8>, rest: Seq<u8>)
    requires
        forall|i: int| 0 <= i < word.len() ==> is_plain(#[trigger] word[i]),
    ensures
        word_of(word + seq![QUOTE] + rest) == Some((word, word.len())),
    decreases word.len(),
{
    let text = word + seq![QUOTE] + rest;
    if word.len() == 0 {
        assert(text[0] == QUOTE);
        assert(word == Seq::<u8>::empty());
    } else {
        assert(text[0] == word[0]);
        assert(is_plain(word[0]));
        assert(text.skip(1) == word.skip(1) + seq![QUOTE] + rest);
        lemma_word_length(word.skip(1), rest);
        assert(seq![word[0]] + word.skip(1) == word);
    }
}

/// The text of a token begins with a byte that is no white space, and with
/// a digit only where the token is a number.
pub proof fn lemma_token_text_start(token: Token)
    ensures
        token_text(token).len() > 0,
        !is_space(token_text(token)[0]),
        is_digit(token_text(token)[0]) <==> token is Number,
{
    match token {
        Token::Tag(tag) => {
            assert(token_text(token)[0] == QUOTE);
        },
        _ => {},
    }
}

/// A text that begins with the text of a token begins with that token,
/// unless the token is a number and the text goes on with a digit.
pub proof fn lemma_first_token(token: Token, rest: Seq<u8>)
    requires
        token is Number ==> !digit_at(rest, 0),
    ensures
        first_token(token_text(token) + rest) == Some((token, token_text(token).len())),
{
    let text = token_text(token) + rest;
    match token {
        Token::Number(n) => {
            let digits = decimal(n);
            assert(forall|i: int| 0 <= i < digits.len() ==> text[i] == digits[i]);
            assert(forall|i: int| 0 <= i < rest.len() ==> text[digits.len() + i] == rest[i]);
            if n < 10 {
                assert(text.len() > 1 ==> text[1] == rest[0]);
            } else if n < 100 {
                assert(text.len() > 2 ==> text[2] == rest[0]);
            } else {
                assert(text.len() > 3 ==> text[3] == rest[0]);
            }
            assert(first_number(text) == Some((token, digits.len())));
        },
        Token::Tag(tag) => {
            let name = tag_name(tag);
            assert(text == seq![QUOTE] + (name + seq![QUOTE] + rest));
            assert(text.skip(1) == name + seq![QUOTE] + rest);
            assert(forall|i: int| 0 <= i < name.len() ==> is_plain(#[trigger] name[i]));
            lemma_word_length(name, rest);
            assert(tag_name(Tag::StartRound).len() == 11);
            assert(tag_name(Tag::TakeTurn).len() == 9);
            assert(tag_name(Tag::Choose).len() == 6);
            assert(word_token(name) == token);
        },
        Token::Word => {
            let word = Seq::<u8>::empty();
            assert(text.skip(1) == word + seq![QUOTE] + rest);
            lemma_word_length(word, rest);
            assert(tag_name(Tag::StartRound).len() == 11);
            assert(tag_name(Tag::TakeTurn).len() == 9);
            assert(tag_name(Tag::Choose).len() == 6);
        },
        _ => {},
    }
}

/// The tokens of a text that was written from separated tokens are those
/// tokens.
pub proof fn lemma_lex_text(tokens: Seq<Token>)
    requires
        separated(tokens),
    ensures
        lex(tokens_text(tokens)) == Some(tokens),
    decreases tokens.len(),
{
    if tokens.len() > 0 {
        let first = tokens[0];
        let others = tokens.skip(1);
        let text = tokens_text(tokens);
        let rest = tokens_text(others);
        assert forall|i: int| 0 <= i < others.len() - 1 implies !((#[trigger] others[i]) is Number
            && others[i + 1] is Number) by {
            assert(others[i] == tokens[i + 1] && others[i + 1] == tokens[i + 2]);
        }
        lemma_lex_text(others);
        lemma_token_text_start(first);
        if others.len() > 0 {
            lemma_token_text_start(others[0]);
            assert(rest[0] == token_text(others[0])[0]);
            assert(others[0] == tokens[1]);
        }
        lemma_first_token(first, rest);
        assert(text[0] == token_text(first)[0]);
        assert(text.skip(token_text(first).len() as int) == rest);
        assert(seq![first] + others == tokens);
    }
}

/// A card that was written is read again.
pub proof fn lemma_parse_card(card: Card, rest: Seq<Token>)
    ensures
        parse_card(card_tokens(card) + rest) == Some(card),
{
    let tokens = card_tokens(card) + rest;
    assert(forall|i: int| 0 <= i < 5 ==> tokens[i] == card_tokens(card)[i]);
}

/// Cards that were written behind an opening bracket are read again,
/// whatever follows.
pub proof fn lemma_parse_cards_tail(cards: Seq<Card>, rest: Seq<Token>)
    requires
        cards.len() > 0,
    ensures
        parse_cards_tail(cards_tail_tokens(cards) + rest) == Some(
            (cards, cards_tail_tokens(cards).len()),
        ),
    decreases cards.len(),
{
    let card = card_tokens(cards[0]);
    let tokens = cards_tail_tokens(cards) + rest;
    if cards.len() == 1 {
        assert(tokens == card + (seq![Token::Close] + rest));
        lemma_parse_card(cards[0], seq![Token::Close] + rest);
        assert(tokens[5] == Token::Close);
        assert(seq![cards[0]] == cards);
    } else {
        let more = cards_tail_tokens(cards.skip(1));
        assert(tokens == card + (seq![Token::Comma] + more + rest));
        lemma_parse_card(cards[0], seq![Token::Comma] + more + rest);
        assert(tokens[5] == Token::Comma);
        assert(tokens.skip(6) == more + rest);
        lemma_parse_cards_tail(cards.skip(1), rest);
        assert(seq![cards[0]] + cards.skip(1) == cards);
    }
}

/// An array of cards that was written is read again, whatever follows.
pub proof fn lemma_parse_cards(cards: Seq<Card>, rest: Seq<Token>)
    ensures
        parse_cards(cards_tokens(cards) + rest) == Some((cards, cards_tokens(cards).len())),
{
    let tokens = cards_tokens(cards) + rest;
    assert(tokens[0] == Token::Open);
    assert(tokens.skip(1) == cards_tail_tokens(cards) + rest);
    if cards.len() == 0 {
        assert(tokens[1] == Token::Close);
        assert(cards == Seq::<Card>::empty());
    } else {
        assert(cards_tail_tokens(cards)[0] == Token::Open) by {
            assert(card_tokens(cards[0])[0] == Token::Open);
        }
        assert(tokens[1] == cards_tail_tokens(cards)[0]);
        lemma_parse_cards_tail(cards, rest);
    }
}

/// Stacks that were written behind an opening bracket are read again,
/// whatever follows.
pub proof fn lemma_parse_stacks_tail(stacks: Seq<Seq<Card>>, rest: Seq<Token>)
    requires
        stacks.len() > 0,
    ensures
        parse_stacks_tail(stacks_tail_tokens(stacks) + rest) == Some(
            (stacks, stacks_tail_tokens(stacks).len()),
        ),
    decreases stacks.len(),
{
    let stack = cards_tokens(stacks[0]);
    let tokens = stacks_tail_tokens(stacks) + rest;
    if stacks.len() == 1 {
        assert(tokens == stack + (seq![Token::Close] + rest));
        lemma_parse_cards(stacks[0], seq![Token::Close] + rest);
        assert(tokens[stack.len() as int] == Token::Close);
        assert(seq![stacks[0]] == stacks);
    } else {
        let more = stacks_tail_tokens(stacks.skip(1));
        assert(tokens == stack + (seq![Token::Comma] + more + rest));
        lemma_parse_cards(stacks[0], seq![Token::Comma] + more + rest);
        assert(tokens[stack.len() as int] == Token::Comma);
        assert(tokens.skip(stack.len() + 1 as int) == more + rest);
        lemma_parse_stacks_tail(stacks.skip(1), rest);
        assert(seq![stacks[0]] + stacks.skip(1) == stacks);
    }
}

/// An array of stacks that was written is read again, whatever follows.
pub proof fn lemma_parse_stacks(stacks: Seq<Seq<Card>>, rest: Seq<Token>)
    ensures
        parse_stacks(stacks_tokens(stacks) + rest) == Some((stacks, stacks_tokens(stacks).len())),
{
    let tokens = stacks_tokens(stacks) + rest;
    assert(tokens[0] == Token::Open);
    assert(tokens.skip(1) == stacks_tail_tokens(stacks) + rest);
    if stacks.len() == 0 {
        assert(tokens[1] == Token::Close);
        assert(stacks == Seq::<Seq<Card>>::empty());
    } else {
        assert(stacks_tail_tokens(stacks)[0] == Token::Open) by {
            assert(cards_tokens(stacks[0])[0] == Token::Open);
        }
        assert(tokens[1] == stacks_tail_tokens(stacks)[0]);
        lemma_parse_stacks_tail(stacks, rest);
    }
}

/// The tokens of a request are read as that request.
pub proof fn lemma_parse_request(request: RequestView)
    ensures
        parse_request(request_tokens(request)) == Ok::<RequestView, crate::grammar::DecodeError>(
            request,
        ),
{
    let tokens = request_tokens(request);
    let head = seq![Token::Open, Token::Tag(request.tag()), Token::Comma];
    let close = seq![Token::Close];
    match request {
        RequestView::StartRound(cards) => {
            let payload = cards_tokens(cards);
            assert(tokens == head + (payload + close));
            assert(tokens.skip(3) == payload + close);
            lemma_parse_cards(cards, close);
            assert((payload + close).skip(payload.len() as int) == close);
        },
        RequestView::TakeTurn(stacks) => {
            let payload = stacks_tokens(stacks);
            assert(tokens == head + (payload + close));
            assert(tokens.skip(3) == payload + close);
            lemma_parse_stacks(stacks, close);
            assert((payload + close).skip(payload.len() as int) == close);
        },
        RequestView::Choose(stacks) => {
            let payload = stacks_tokens(stacks);
            assert(tokens == head + (payload + close));
            assert(tokens.skip(3) == payload + close);
            lemma_parse_stacks(stacks, close);
            assert((payload + close).skip(payload.len() as int) == close);
        },
    }
}

/// A card of the deck that is encoded and decoded again is the same card.
pub proof fn lemma_card_round_trip(card: Card, config: Configuration)
    requires
        card.valid(config),
    ensures
        decode_card_spec(card_text(card), config) == Ok::<Card, crate::grammar::DecodeError>(card),
{
    lemma_card_tight(card);
    lemma_lex_text(card_tokens(card));
    lemma_parse_card(card, Seq::empty());
    assert(card_tokens(card) + Seq::<Token>::empty() == card_tokens(card));
}

/// Cards that are encoded are read again as the same cards.
pub proof fn lemma_cards_round_trip(cards: Seq<Card>)
    ensures
        decode_cards_spec(cards_text(cards)) == Some(cards),
{
    lemma_cards_tight(cards);
    lemma_lex_text(cards_tokens(cards));
    lemma_parse_cards(cards, Seq::empty());
    assert(cards_tokens(cards) + Seq::<Token>::empty() == cards_tokens(cards));
}

/// A starting hand that is encoded and decoded again is the same sequence
/// of cards.
pub proof fn lemma_hand_round_trip(cards: Seq<Card>, config: Configuration)
    requires
        is_hand(cards, config),
    ensures
        decode_hand_spec(cards_text(cards), config) == Ok::<Seq<Card>, crate::grammar::DecodeError>(
            cards,
        ),
{
    lemma_cards_round_trip(cards);
    lemma_hand_error(cards, config);
}

/// A stack of a message that is encoded and decoded again is the same
/// sequence of cards.
pub proof fn lemma_stack_round_trip(cards: Seq<Card>, config: Configuration)
    requires
        is_stack(cards, config),
    ensures
        decode_stack_spec(cards_text(cards), config) == Ok::<
            Seq<Card>,
            crate::grammar::DecodeError,
        >(cards),
{
    lemma_cards_round_trip(cards);
    lemma_cards_error(cards, config);
}

/// The board of a message that is encoded and decoded again is the same
/// board.
pub proof fn lemma_board_round_trip(stacks: Seq<Seq<Card>>, config: Configuration)
    requires
        is_board(stacks, config),
    ensures
        decode_board_spec(stacks_text(stacks), config) == Ok::<
            Seq<Seq<Card>>,
            crate::grammar::DecodeError,
        >(stacks),
{
    lemma_stacks_tight(stacks);
    lemma_lex_text(stacks_tokens(stacks));
    lemma_parse_stacks(stacks, Seq::empty());
    assert(stacks_tokens(stacks) + Seq::<Token>::empty() == stacks_tokens(stacks));
    lemma_board_error(stacks, config);
}

/// A request that keeps to the structure of the configuration, encoded and
/// decoded again, is the same request.
pub proof fn lemma_request_round_trip(request: RequestView, config: Configuration)
    requires
        request.valid(config),
    ensures
        decode_request_spec(request_text(request), config) == Ok::<
            RequestView,
            crate::grammar::DecodeError,
        >(request),
{
    lemma_request_tight(request);
    lemma_lex_text(request_tokens(request));
    lemma_parse_request(request);
    match request {
        RequestView::StartRound(cards) => lemma_hand_error(cards, config),
        RequestView::TakeTurn(stacks) => lemma_board_error(stacks, config),
        RequestView::Choose(stacks) => lemma_board_error(stacks, config),
    }
}

/// No two requests are written alike: requests with the same text are the
/// same request.
pub proof fn lemma_request_text_unique(a: RequestView, b: RequestView)
    requires
        request_text(a) == request_text(b),
    ensures
        a == b,
{
    lemma_request_tight(a);
    lemma_request_tight(b);
    lemma_lex_text(request_tokens(a));
    lemma_lex_text(request_tokens(b));
    lemma_parse_request(a);
    lemma_parse_request(b);
}

/// The number of brackets that are open behind a token, when `depth` are
/// open in front of it.
pub open spec fn depth_behind(token: Token, depth: int) -> int {
    match token {
        Token::Open => depth + 1,
        Token::Close => depth - 1,
        _ => depth,
    }
}

/// The number of brackets that are open behind some tokens.
pub open spec fn depth_after(tokens: Seq<Token>, depth: int) -> int
    decreases tokens.len(),
{
    if tokens.len() == 0 {
        depth
    } else {
        depth_after(tokens.skip(1), depth_behind(tokens[0], depth))
    }
}

/// Whether a bracket stays open all through some tokens, when `depth` are
/// open in front of them.
pub open spec fn stays_open(tokens: Seq<Token>, depth: int) -> bool
    decreases tokens.len(),
{
    if tokens.len() == 0 {
        depth >= 1
    } else {
        depth >= 1 && depth_behind(tokens[0], depth) >= 1 && stays_open(
            tokens.skip(1),
            depth_behind(tokens[0], depth),
        )
    }
}

/// Tokens one behind the other keep a bracket open if each part does.
pub proof fn lemma_stays_open_concat(a: Seq<Token>, b: Seq<Token>, depth: int)
    requires
        stays_open(a, depth),
        stays_open(b, depth_after(a, depth)),
    ensures
        stays_open(a + b, depth),
        depth_after(a + b, depth) == depth_after(b, depth_after(a, depth)),
    decreases a.len(),
{
    if a.len() == 0 {
        assert(a + b == b);
    } else {
        assert((a + b)[0] == a[0]);
        assert((a + b).skip(1) == a.skip(1) + b);
        lemma_stays_open_concat(a.skip(1), b, depth_behind(a[0], depth));
    }
}

/// Behind the quote that opens a word of plain bytes, an array goes on
/// behind the quote that closes the word.
pub proof fn lemma_scan_word(word: Seq<u8>, rest: Seq<u8>, depth: nat)
    requires
        forall|i: int| 0 <= i < word.len() ==> is_plain(#[trigger] word[i]),
    ensures
        array_rest(word + seq![QUOTE] + rest, depth, true) == further(
            array_rest(rest, depth, false),
            word.len() + 1,
        ),
    decreases word.len(),
{
    let text = word + seq![QUOTE] + rest;
    if word.len() == 0 {
        assert(text[0] == QUOTE);
        assert(text.skip(1) == rest);
    } else {
        assert(text[0] == word[0]);
        assert(is_plain(word[0]));
        assert(text.skip(1) == word.skip(1) + seq![QUOTE] + rest);
        lemma_scan_word(word.skip(1), rest, depth);
    }
}

/// In an array, the text of a token that does not close the array is
/// passed over.
pub proof fn lemma_scan_token(token: Token, rest: Seq<u8>, depth: int)
    requires
        depth >= 1,
        depth_behind(token, depth) >= 1,
    ensures
        array_rest(token_text(token) + rest, depth as nat, false) == further(
            array_rest(rest, depth_behind(token, depth) as nat, false),
            token_text(token).len(),
        ),
{
    let text = token_text(token) + rest;
    match token {
        Token::Number(n) => {
            let digits = decimal(n);
            assert(forall|i: int| 0 <= i < digits.len() ==> text[i] == digits[i]);
            let open = depth as nat;
            let one = text.skip(1);
            assert(text[0] == digits[0]);
            assert(is_digit(text[0]));
            if n < 10 {
                assert(one == rest);
            } else if n < 100 {
                assert(one[0] == digits[1]);
                assert(is_digit(one[0]));
                assert(one.skip(1) == rest);
                assert(array_rest(one, open, false) == further(array_rest(rest, open, false), 1));
            } else {
                let two = one.skip(1);
                assert(one[0] == digits[1]);
                assert(two[0] == digits[2]);
                assert(is_digit(one[0]) && is_digit(two[0]));
                assert(two.skip(1) == rest);
                assert(array_rest(two, open, false) == further(array_rest(rest, open, false), 1));
                assert(array_rest(one, open, false) == further(array_rest(two, open, false), 1));
            }
            assert(array_rest(text, open, false) == further(array_rest(one, open, false), 1));
        },
        Token::Tag(tag) => {
            let name = tag_name(tag);
            assert(text[0] == QUOTE);
            assert(text.skip(1) == name + seq![QUOTE] + rest);
            assert(forall|i: int| 0 <= i < name.len() ==> is_plain(#[trigger] name[i]));
            lemma_scan_word(name, rest, depth as nat);
        },
        Token::Word => {
            let word = Seq::<u8>::empty();
            assert(text[0] == QUOTE);
            assert(text.skip(1) == word + seq![QUOTE] + rest);
            lemma_scan_word(word, rest, depth as nat);
        },
        _ => {
            assert(text.skip(1) == rest);
        },
    }
}

/// In an array, the text of tokens that keep a bracket open is passed
/// over.
pub proof fn lemma_scan_tokens(tokens: Seq<Token>, rest: Seq<u8>, depth: int)
    requires
        stays_open(tokens, depth),
    ensures
        depth_after(tokens, depth) >= 1,
        array_rest(tokens_text(tokens) + rest, depth as nat, false) == further(
            array_rest(rest, depth_after(tokens, depth) as nat, false),
            tokens_text(tokens).len(),
        ),
    decreases tokens.len(),
{
    if tokens.len() == 0 {
        assert(tokens_text(tokens) + rest == rest);
    } else {
        let first = token_text(tokens[0]);
        let others = tokens_text(tokens.skip(1));
        assert(tokens_text(tokens) + rest == first + (others + rest));
        lemma_scan_token(tokens[0], others + rest, depth);
        lemma_scan_tokens(tokens.skip(1), rest, depth_behind(tokens[0], depth));
    }
}

/// The tokens of a card keep a bracket open and leave as many open as there
/// were.
pub proof fn lemma_card_balanced(card: Card, depth: int)
    requires
        depth >= 1,
    ensures
        stays_open(card_tokens(card), depth),
        depth_after(card_tokens(card), depth) == depth,
{
    let t = card_tokens(card);
    let t1 = t.skip(1);
    let t2 = t1.skip(1);
    let t3 = t2.skip(1);
    let t4 = t3.skip(1);
    let t5 = t4.skip(1);
    assert(t5.len() == 0);
    assert(stays_open(t5, depth) && depth_after(t5, depth) == depth);
    assert(t4[0] == Token::Close);
    assert(stays_open(t4, depth + 1) && depth_after(t4, depth + 1) == depth);
    assert(t3[0] is Number);
    assert(stays_open(t3, depth + 1) && depth_after(t3, depth + 1) == depth);
    assert(t2[0] == Token::Comma);
    assert(stays_open(t2, depth + 1) && depth_after(t2, depth + 1) == depth);
    assert(t1[0] is Number);
    assert(stays_open(t1, depth + 1) && depth_after(t1, depth + 1) == depth);
    assert(t[0] == Token::Open);
}

/// A single token keeps a bracket open if it closes none but its own.
proof fn lemma_one_balanced(token: Token, depth: int)
    requires
        depth >= 1,
        depth_behind(token, depth) >= 1,
    ensures
        stays_open(seq![token], depth),
        depth_after(seq![token], depth) == depth_behind(token, depth),
{
    let t = seq![token];
    assert(t.skip(1).len() == 0);
    assert(stays_open(t.skip(1), depth_behind(token, depth)));
    assert(depth_after(t.skip(1), depth_behind(token, depth)) == depth_behind(token, depth));
}

/// The tokens of some cards behind their opening bracket close that
/// bracket and no other.
pub proof fn lemma_cards_tail_balanced(cards: Seq<Card>, depth: int)
    requires
        depth >= 2,
    ensures
        stays_open(cards_tail_tokens(cards), depth),
        depth_after(cards_tail_tokens(cards), depth) == depth - 1,
    decreases cards.len(),
{
    if cards.len() == 0 {
        lemma_one_balanced(Token::Close, depth);
    } else {
        let card = card_tokens(cards[0]);
        lemma_card_balanced(cards[0], depth);
        if cards.len() == 1 {
            lemma_one_balanced(Token::Close, depth);
            lemma_stays_open_concat(card, seq![Token::Close], depth);
        } else {
            lemma_one_balanced(Token::Comma, depth);
            lemma_stays_open_concat(card, seq![Token::Comma], depth);
            lemma_cards_tail_balanced(cards.skip(1), depth);
            lemma_stays_open_concat(
                card + seq![Token::Comma],
                cards_tail_tokens(cards.skip(1)),
                depth,
            );
        }
    }
}

/// The tokens of an array of cards keep a bracket open and leave as many
/// open as there were.
pub proof fn lemma_cards_balanced(cards: Seq<Card>, depth: int)
    requires
        depth >= 1,
    ensures
        stays_open(cards_tokens(cards), depth),
        depth_after(cards_tokens(cards), depth) == depth,
{
    lemma_one_balanced(Token::Open, depth);
    lemma_cards_tail_balanced(cards, depth + 1);
    lemma_stays_open_concat(seq![Token::Open], cards_tail_tokens(cards), depth);
}

/// The tokens of some stacks behind their opening bracket close that
/// bracket and no other.
pub proof fn lemma_stacks_tail_balanced(stacks: Seq<Seq<Card>>, depth: int)
    requires
        depth >= 2,
    ensures
        stays_open(stacks_tail_tokens(stacks), depth),
        depth_after(stacks_tail_tokens(stacks), depth) == depth - 1,
    decreases stacks.len(),
{
    if stacks.len() == 0 {
        lemma_one_balanced(Token::Close, depth);
    } else {
        let stack = cards_tokens(stacks[0]);
        lemma_cards_balanced(stacks[0], depth);
        if stacks.len() == 1 {
            lemma_one_balanced(Token::Close, depth);
            lemma_stays_open_concat(stack, seq![Token::Close], depth);
        } else {
            lemma_one_balanced(Token::Comma, depth);
            lemma_stays_open_concat(stack, seq![Token::Comma], depth);
            lemma_stacks_tail_balanced(stacks.skip(1), depth);
            lemma_stays_open_concat(
                stack + seq![Token::Comma],
                stacks_tail_tokens(stacks.skip(1)),
                depth,
            );
        }
    }
}

/// The tokens of an array of stacks keep a bracket open and leave as many
/// open as there were.
pub proof fn lemma_stacks_balanced(stacks: Seq<Seq<Card>>, depth: int)
    requires
        depth >= 1,
    ensures
        stays_open(stacks_tokens(stacks), depth),
        depth_after(stacks_tokens(stacks), depth) == depth,
{
    lemma_one_balanced(Token::Open, depth);
    lemma_stacks_tail_balanced(stacks, depth + 1);
    lemma_stays_open_concat(seq![Token::Open], stacks_tail_tokens(stacks), depth);
}

/// The text of a request is one unit of a stream, no more and no less: the
/// decoder that reads it from a stream reads all of it and nothing behind
/// it.
pub proof fn lemma_request_is_unit(request: RequestView)
    ensures
        unit_length(request_text(request)) == Some(request_text(request).len()),
{
    let text = request_text(request);
    let payload = match request {
        RequestView::StartRound(cards) => cards_tokens(cards),
        RequestView::TakeTurn(stacks) => stacks_tokens(stacks),
        RequestView::Choose(stacks) => stacks_tokens(stacks),
    };
    let word = seq![Token::Tag(request.tag()), Token::Comma];
    let inner = word + payload;
    let close = seq![Token::Close];
    assert(request_tokens(request) == seq![Token::Open] + (inner + close));
    lemma_tokens_text_concat(seq![Token::Open], inner + close);
    lemma_tokens_text_concat(inner, close);
    lemma_tokens_text_single(Token::Open);
    lemma_tokens_text_single(Token::Close);
    let behind = tokens_text(inner) + seq![CLOSE];
    assert(text == seq![OPEN] + behind);
    assert(text[0] == OPEN);
    assert(leading_space(text) == 0);
    assert(text.skip(1) == behind);
    lemma_one_balanced(Token::Tag(request.tag()), 1);
    lemma_one_balanced(Token::Comma, 1);
    lemma_stays_open_concat(seq![Token::Tag(request.tag())], seq![Token::Comma], 1);
    assert(word == seq![Token::Tag(request.tag())] + seq![Token::Comma]);
    match request {
        RequestView::StartRound(cards) => lemma_cards_balanced(cards, 1),
        RequestView::TakeTurn(stacks) => lemma_stacks_balanced(stacks, 1),
        RequestView::Choose(stacks) => lemma_stacks_balanced(stacks, 1),
    }
    lemma_stays_open_concat(word, payload, 1);
    lemma_scan_tokens(inner, seq![CLOSE], 1);
    assert(seq![CLOSE][0] == CLOSE);
    assert(array_rest(seq![CLOSE], 1, false) == Some(1nat));
}

/// A request that was written into a stream is read from it as that
/// request, whatever is written behind it.
pub proof fn lemma_request_in_stream(request: RequestView, more: Seq<u8>, config: Configuration)
    requires
        request.valid(config),
    ensures
        requests(request_text(request) + more, config) == seq![
            Ok::<RequestView, crate::grammar::DecodeError>(request),
        ] + requests(more, config),
        arrived(request_text(request) + more, config) == seq![
            Ok::<RequestView, crate::grammar::DecodeError>(request),
        ] + arrived(more, config),
{
    lemma_request_is_unit(request);
    lemma_request_round_trip(request, config);
    lemma_requests_continue(request_text(request), more, config);
    lemma_arrived_continue(request_text(request), more, config);
}

} // verus!
