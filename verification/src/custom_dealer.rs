use crate::card::{holds_face, is_deck, Card};
use crate::configuration::Configuration;
use crate::dealer::Dealer;
use crate::lexer::is_digit;
use crate::standard_dealer::{lemma_shuffled_deck, shuffle};
use crate::token::{COMMA, ZERO};
use vstd::prelude::*;

verus! {

/// The byte `+`.
pub const PLUS: u8 = 43;

/// Whether a byte is blank: a space, or one of the control characters from
/// the tab to the carriage return.
pub open spec fn is_blank(byte: u8) -> bool {
    byte == 32 || 9 <= byte <= 13
}

/// A text without the blanks in front of it.
pub open spec fn trim_front(text: Seq<u8>) -> Seq<u8>
    decreases text.len(),
{
    if text.len() > 0 && is_blank(text[0]) {
        trim_front(text.skip(1))
    } else {
        text
    }
}

/// A text without the blanks behind it.
pub open spec fn trim_back(text: Seq<u8>) -> Seq<u8>
    decreases text.len(),
{
    if text.len() > 0 && is_blank(text.last()) {
        trim_back(text.drop_last())
    } else {
        text
    }
}

/// A text without the blanks around it.
pub open spec fn trimmed(text: Seq<u8>) -> Seq<u8> {
    trim_back(trim_front(text))
}

/// The number that some decimal digits stand for.
pub open spec fn digits_value(digits: Seq<u8>) -> nat
    decreases digits.len(),
{
    if digits.len() == 0 {
        0
    } else {
        digits_value(digits.drop_last()) * 10 + (digits.last() - ZERO) as nat
    }
}

/// Whether a text is decimal digits and nothing else.
pub open spec fn all_digits(text: Seq<u8>) -> bool {
    forall|i: int| 0 <= i < text.len() ==> is_digit(#[trigger] text[i])
}

/// The number up to 255 that a text stands for: one digit or more, with or
/// without a plus sign in front.
pub open spec fn number(text: Seq<u8>) -> Option<u8> {
    let digits = if text.len() > 0 && text[0] == PLUS {
        text.skip(1)
    } else {
        text
    };
    if digits.len() > 0 && all_digits(digits) && digits_value(digits) <= 255 {
        Some(digits_value(digits) as u8)
    } else {
        None
    }
}

/// The number of bytes before the first comma of a text, or of the text
/// where it has no comma.
pub open spec fn comma_at(text: Seq<u8>) -> nat
    decreases text.len(),
{
    if text.len() == 0 || text[0] == COMMA {
        0
    } else {
        1 + comma_at(text.skip(1))
    }
}

/// The numbers that a text lists with commas between them and blanks
/// around them, where each of its fields is such a number.
pub open spec fn listed(text: Seq<u8>) -> Option<Seq<u8>>
    decreases text.len(),
{
    let k = comma_at(text);
    match number(trimmed(text.take(k as int))) {
        None => None,
        Some(n) => if k >= text.len() {
            Some(seq![n])
        } else {
            match listed(text.skip(k + 1 as int)) {
                Some(more) => Some(seq![n] + more),
                None => None,
            }
        },
    }
}

/// The bull values that a text lists: the text without the blanks around
/// it is numbers up to 255 with commas between them, each with or without
/// blanks around it. The value in place `i` is that of the card with the
/// face value `i + 1`.
pub open spec fn bull_values(text: Seq<u8>) -> Option<Seq<u8>> {
    listed(trimmed(text))
}

/// More digits behind a number make it no smaller.
pub proof fn lemma_digits_value_grows(digits: Seq<u8>, n: int)
    requires
        0 <= n <= digits.len(),
    ensures
        digits_value(digits.take(n)) <= digits_value(digits),
    decreases digits.len() - n,
{
    if n < digits.len() {
        lemma_digits_value_grows(digits, n + 1);
        assert(digits.take(n + 1).drop_last() == digits.take(n));
    } else {
        assert(digits.take(n) == digits);
    }
}

/// Returns the bounds of the part `from..to` of a text without the blanks
/// around it.
fn trim(text: &[u8], from: usize, to: usize) -> (bounds: (usize, usize))
    requires
        from <= to <= text@.len(),
    ensures
        from <= bounds.0 <= bounds.1 <= to,
        text@.subrange(bounds.0 as int, bounds.1 as int) == trimmed(
            text@.subrange(from as int, to as int),
        ),
{
    let ghost part = text@.subrange(from as int, to as int);
    let mut a: usize = from;
    while a < to && (text[a] == 32 || (9 <= text[a] && text[a] <= 13))
        invariant
            from <= a <= to <= text@.len(),
            trim_front(part) == trim_front(text@.subrange(a as int, to as int)),
            part == text@.subrange(from as int, to as int),
        decreases to - a,
    {
        assert(text@.subrange(a as int, to as int)[0] == text@[a as int]);
        assert(text@.subrange(a as int, to as int).skip(1) == text@.subrange(a + 1, to as int));
        a += 1;
    }
    let ghost front = text@.subrange(a as int, to as int);
    proof {
        if a < to {
            assert(front[0] == text@[a as int]);
        }
        assert(trim_front(part) == front);
    }
    let mut b: usize = to;
    while b > a && (text[b - 1] == 32 || (9 <= text[b - 1] && text[b - 1] <= 13))
        invariant
            a <= b <= to <= text@.len(),
            trim_back(front) == trim_back(text@.subrange(a as int, b as int)),
        decreases b - a,
    {
        assert(text@.subrange(a as int, b as int).last() == text@[b - 1]);
        assert(text@.subrange(a as int, b as int).drop_last() == text@.subrange(a as int, b - 1));
        b -= 1;
    }
    proof {
        if b > a {
            assert(text@.subrange(a as int, b as int).last() == text@[b - 1]);
        }
    }
    (a, b)
}

/// Returns the number that the part `from..to` of a text stands for.
fn read_number(text: &[u8], from: usize, to: usize) -> (n: Option<u8>)
    requires
        from <= to <= text@.len(),
    ensures
        n == number(text@.subrange(from as int, to as int)),
{
    let ghost part = text@.subrange(from as int, to as int);
    let start = if from < to && text[from] == PLUS {
        from + 1
    } else {
        from
    };
    let ghost digits = text@.subrange(start as int, to as int);
    proof {
        if from < to {
            assert(part[0] == text@[from as int]);
        }
        if start > from {
            assert(part.skip(1) == digits);
        } else {
            assert(part == digits);
        }
    }
    if start == to {
        return None;
    }
    let mut value: u16 = 0;
    let mut i: usize = start;
    assert(digits.take(0) == Seq::<u8>::empty());
    while i < to
        invariant
            start <= i <= to <= text@.len(),
            digits == text@.subrange(start as int, to as int),
            part == text@.subrange(from as int, to as int),
            digits == if part.len() > 0 && part[0] == PLUS {
                part.skip(1)
            } else {
                part
            },
            all_digits(digits.take(i - start)),
            value == digits_value(digits.take(i - start)),
            value <= 255,
        decreases to - i,
    {
        let byte = text[i];
        assert(digits[i - start] == byte);
        if byte < ZERO || byte > ZERO + 9 {
            assert(!is_digit(digits[i - start]));
            return None;
        }
        let ghost longer = digits.take(i - start + 1);
        proof {
            assert(longer.drop_last() == digits.take(i - start));
            assert(longer.last() == byte);
            assert forall|k: int| 0 <= k < longer.len() implies is_digit(#[trigger] longer[k]) by {
                if k < longer.len() - 1 {
                    assert(longer[k] == digits.take(i - start)[k]);
                }
            }
        }
        value = value * 10 + (byte - ZERO) as u16;
        assert(value == digits_value(longer));
        if value > 255 {
            proof {
                lemma_digits_value_grows(digits, i - start + 1);
            }
            return None;
        }
        i += 1;
    }
    assert(digits.take(i - start) == digits);
    Some(value as u8)
}

/// Returns the place of the first comma in the part `from..to` of a text,
/// or `to` where that part has no comma.
fn find_comma(text: &[u8], from: usize, to: usize) -> (at: usize)
    requires
        from <= to <= text@.len(),
    ensures
        from <= at <= to,
        at - from == comma_at(text@.subrange(from as int, to as int)),
{
    let mut i: usize = from;
    while i < to && text[i] != COMMA
        invariant
            from <= i <= to <= text@.len(),
            comma_at(text@.subrange(from as int, to as int)) == (i - from) + comma_at(
                text@.subrange(i as int, to as int),
            ),
        decreases to - i,
    {
        assert(text@.subrange(i as int, to as int)[0] == text@[i as int]);
        assert(text@.subrange(i as int, to as int).skip(1) == text@.subrange(i + 1, to as int));
        i += 1;
    }
    proof {
        if i < to {
            assert(text@.subrange(i as int, to as int)[0] == text@[i as int]);
        }
    }
    i
}

/// Some numbers followed by those that the rest of a text lists, if it
/// lists any.
pub open spec fn and_then(read: Seq<u8>, rest: Option<Seq<u8>>) -> Option<Seq<u8>> {
    match rest {
        Some(more) => Some(read + more),
        None => None,
    }
}

/// Reads the bull values that a text lists.
pub fn read_bull_values(text: &[u8]) -> (values: Option<Vec<u8>>)
    ensures
        match values {
            Some(values) => bull_values(text@) == Some(values@),
            None => bull_values(text@) is None,
        },
{
    assert(text@.subrange(0, text@.len() as int) == text@);
    let (start, end) = trim(text, 0, text.len());
    let ghost list = text@.subrange(start as int, end as int);
    let mut values: Vec<u8> = Vec::new();
    let mut from: usize = start;
    loop
        invariant
            start <= from <= end <= text@.len(),
            list == text@.subrange(start as int, end as int),
            list == trimmed(text@),
            listed(list) == and_then(values@, listed(text@.subrange(from as int, end as int))),
        decreases end - from,
    {
        let ghost rest = text@.subrange(from as int, end as int);
        let comma = find_comma(text, from, end);
        assert(rest.take(comma - from) == text@.subrange(from as int, comma as int));
        let (a, b) = trim(text, from, comma);
        match read_number(text, a, b) {
            None => {
                return None;
            },
            Some(n) => {
                if comma >= end {
                    values.push(n);
                    return Some(values);
                }
                proof {
                    assert(rest.skip(comma - from + 1) == text@.subrange(comma + 1, end as int));
                    let after = listed(text@.subrange(comma + 1, end as int));
                    if let Some(more) = after {
                        assert(values@ + (seq![n] + more) == values@.push(n) + more);
                    }
                }
                values.push(n);
                from = comma + 1;
            },
        }
    }
}

/// A dealer who gives the cards the bull values of a list.
#[derive(Debug)]
pub struct CustomDealer {
    deck: Vec<Card>,
    bull_vals: Vec<u8>,
}

impl CustomDealer {
    /// The bull values of the dealer: the value in place `i` is that of the
    /// card with the face value `i + 1`.
    pub closed spec fn bulls(&self) -> Seq<u8> {
        self.bull_vals@
    }

    /// The card that the dealer makes of a face value.
    pub open spec fn card(&self, face: u8) -> Card {
        Card { face, bull: self.bulls()[face - 1] }
    }

    /// A dealer with the bull values of one who can make a deck can make
    /// that deck.
    proof fn lemma_same_bulls(&self, other: CustomDealer, config: Configuration)
        requires
            self.bulls() == other.bulls(),
            other.can_open(config),
        ensures
            self.can_open(config),
    {
        assert forall|face: u8| 1 <= face <= config.deck_size implies (#[trigger] self.card(
            face,
        )).valid(config) by {
            assert(other.card(face).valid(config));
        }
    }

    /// Creates a dealer with the given bull values. No deck is open yet.
    pub fn new(bull_values: Vec<u8>) -> (dealer: CustomDealer)
        ensures
            dealer.bulls() == bull_values@,
            dealer.deck() == Seq::<Card>::empty(),
    {
        CustomDealer { deck: Vec::new(), bull_vals: bull_values }
    }

    /// Creates a dealer with the bull values that a text lists, if it lists
    /// any.
    pub fn from_text(text: &[u8]) -> (dealer: Option<CustomDealer>)
        ensures
            match dealer {
                Some(dealer) => bull_values(text@) == Some(dealer.bulls()) && dealer.deck()
                    == Seq::<Card>::empty(),
                None => bull_values(text@) is None,
            },
    {
        match read_bull_values(text) {
            Some(values) => Some(CustomDealer::new(values)),
            None => None,
        }
    }
}

impl Dealer for CustomDealer {
    closed spec fn deck(&self) -> Seq<Card> {
        self.deck@
    }

    /// The dealer has a bull value for each card of the deck, and each lies
    /// in the bull range.
    open spec fn can_open(&self, config: Configuration) -> bool {
        &&& self.bulls().len() >= config.deck_size
        &&& forall|face: u8|
            1 <= face <= config.deck_size ==> (#[trigger] self.card(face)).valid(config)
    }

    /// Opens a deck with the dealer's bull values and shuffles it.
    fn open(&mut self, config: &Configuration)
        ensures
            final(self).bulls() == old(self).bulls(),
            final(self).deck().to_multiset() == Seq::new(
                config.deck_size as nat,
                |i: int| old(self).card((i + 1) as u8),
            ).to_multiset(),
    {
        let bulls = &self.bull_vals;
        let bull_of = |face: u8| -> (bull: u8)
            requires
                1 <= face <= bulls@.len(),
            ensures
                bull == bulls@[face - 1],
            { bulls[(face - 1) as usize] };
        assert forall|face: u8, bull: u8|
            1 <= face <= config.deck_size && call_ensures(bull_of, (face,), bull) implies (Card {
            face,
            bull,
        }).valid(*config) by {
            assert(self.card(face).valid(*config));
        }
        let deck = Card::deck(bull_of, config);
        proof {
            assert(deck@ =~= Seq::new(
                config.deck_size as nat,
                |i: int| old(self).card((i + 1) as u8),
            ));
            assert forall|face: u8| 1 <= face <= config.deck_size implies #[trigger] holds_face(
                deck@,
                face,
            ) by {
                assert(deck@[face - 1].face == face);
            }
        }
        self.deck = deck;
        let ghost sorted = self.deck@;
        shuffle(&mut self.deck);
        proof {
            lemma_shuffled_deck(sorted, self.deck@, *config);
            self.lemma_same_bulls(*old(self), *config);
        }
    }

    fn deal(&mut self) -> (card: Card)
        ensures
            final(self).bulls() == old(self).bulls(),
    {
        let card = self.deck.pop().unwrap();
        proof {
            assert forall|config: Configuration| old(self).can_open(config) implies self.can_open(
                config,
            ) by {
                self.lemma_same_bulls(*old(self), config);
            }
        }
        card
    }
}

} // verus!
