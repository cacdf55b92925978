use crate::board::{Board, StackId};
use crate::card::Card;
use crate::stack::Stack;
use crate::token::decimal;
use itertools::Itertools;
use vstd::prelude::*;
use vstd::string::StringExecFns;

verus! {

/// A number in decimal digits, as characters.
pub open spec fn decimal_chars(n: u8) -> Seq<char> {
    decimal(n).map_values(|digit: u8| digit as char)
}

/// Some texts with a separator between each two of them.
pub open spec fn joined(texts: Seq<Seq<char>>, separator: Seq<char>) -> Seq<char>
    decreases texts.len(),
{
    if texts.len() == 0 {
        Seq::empty()
    } else if texts.len() == 1 {
        texts[0]
    } else {
        joined(texts.drop_last(), separator) + separator + texts.last()
    }
}

/// What some strings hold.
pub open spec fn views(texts: Seq<String>) -> Seq<Seq<char>> {
    texts.map_values(|item: String| item@)
}

/// What a card is called: `f`, its face value, `b` and its bull value.
pub open spec fn card_label(card: Card) -> Seq<char> {
    "f"@ + decimal_chars(card.face) + "b"@ + decimal_chars(card.bull)
}

/// What a stack is called: its cards, bottom first, with a space behind
/// each.
pub open spec fn stack_label(cards: Seq<Card>) -> Seq<char>
    decreases cards.len(),
{
    if cards.len() == 0 {
        Seq::empty()
    } else {
        stack_label(cards.drop_last()) + card_label(cards.last()) + " "@
    }
}

/// What a board is called: its four stacks, each on a line of its own.
pub open spec fn board_label(stacks: Seq<Seq<Card>>) -> Seq<char> {
    joined(stacks.map_values(|cards: Seq<Card>| stack_label(cards)), "\n"@)
}

/// Calls `format!` of std, which writes a `u8` in decimal digits without
/// leading zeros: the result is the title followed by those digits.
#[verifier::external_body]
pub(crate) fn titled(title: &str, n: u8) -> (text: String)
    ensures
        text@ == title@ + decimal_chars(n),
{
    format!("{}{}", title, n)
}

/// Calls `Itertools::join` of itertools, which writes the elements one
/// behind the other and the separator between each two of them: nothing
/// for no element, and no separator for one.
#[verifier::external_body]
pub(crate) fn join(texts: &Vec<String>, separator: &str) -> (line: String)
    ensures
        line@ == joined(views(texts@), separator@),
{
    texts.iter().join(separator)
}

impl Card {
    /// Returns what the card is called.
    pub fn to_text(&self) -> (text: String)
        ensures
            text@ == card_label(*self),
    {
        let face = titled("f", self.face);
        let bull = titled("b", self.bull);
        face.concat(bull.as_str())
    }
}

impl Stack {
    /// Returns what the stack is called.
    pub fn to_text(&self) -> (text: String)
        ensures
            text@ == stack_label(self@),
    {
        let cards = self.cards();
        let mut text = String::new();
        let mut i: usize = 0;
        assert(cards@.take(0) == Seq::<Card>::empty());
        while i < cards.len()
            invariant
                i <= cards@.len(),
                text@ == stack_label(cards@.take(i as int)),
            decreases cards.len() - i,
        {
            let label = cards[i].to_text();
            assert(cards@.take(i + 1).drop_last() == cards@.take(i as int));
            text.append(label.as_str());
            text.append(" ");
            i += 1;
        }
        assert(cards@.take(i as int) == cards@);
        text
    }
}

impl Board {
    /// Returns what the board is called.
    pub fn to_text(&self) -> (text: String)
        ensures
            text@ == board_label(self@),
    {
        let mut texts: Vec<String> = Vec::new();
        texts.push(self.stack(StackId::A).to_text());
        texts.push(self.stack(StackId::B).to_text());
        texts.push(self.stack(StackId::C).to_text());
        texts.push(self.stack(StackId::D).to_text());
        proof {
            self.lemma_four_stacks();
            assert(views(texts@) =~= self@.map_values(
                |cards: Seq<Card>| stack_label(cards),
            ));
        }
        join(&texts, "\n")
    }
}

} // verus!
