//! A hand: an ordered collection of cards.

use vstd::prelude::*;

use crate::card::{parse_card, Card};
use crate::text::{chars_of, split_whitespace, word_views, words};

verus! {

/// An ordered collection of cards, in the order in which they were read or
/// drawn.
#[derive(Debug)]
pub struct Hand {
    pub cards: Vec<Card>,
}

/// Whether every card of `cards` has a rank and a suit of the two alphabets.
pub open spec fn all_valid(cards: Seq<Card>) -> bool {
    forall|i: int| 0 <= i < cards.len() ==> (#[trigger] cards[i]).wf()
}

/// Whether no card occurs twice in `cards`.
pub open spec fn all_distinct(cards: Seq<Card>) -> bool {
    forall|i: int, j: int| 0 <= i < j < cards.len() ==> cards[i] != cards[j]
}

/// The cards that a list of tokens spells, in order. A token that spells no
/// card is passed over.
pub open spec fn valid_cards(tokens: Seq<Seq<char>>) -> Seq<Card>
    decreases tokens.len(),
{
    if tokens.len() == 0 {
        Seq::empty()
    } else {
        let before = valid_cards(tokens.drop_last());
        match parse_card(tokens.last()) {
            Some(card) => before.push(card),
            None => before,
        }
    }
}

/// The cards that the words of `text` spell, in order.
pub open spec fn parse_hand(text: Seq<char>) -> Seq<Card> {
    valid_cards(words(text))
}

/// The display text of a list of cards: the display texts of the cards, in
/// order, with `, ` between one and the next.
pub open spec fn cards_text(cards: Seq<Card>) -> Seq<char>
    decreases cards.len(),
{
    if cards.len() == 0 {
        Seq::empty()
    } else if cards.len() == 1 {
        cards[0].spec_to_string()
    } else {
        cards_text(cards.drop_last()) + ", "@ + cards.last().spec_to_string()
    }
}

impl Hand {
    /// Whether every card of the hand is well formed.
    pub open spec fn wf(&self) -> bool {
        all_valid(self.cards@)
    }

    /// Tests [`Hand::wf`].
    pub fn is_valid(&self) -> (valid: bool)
        ensures
            valid == self.wf(),
    {
        for i in 0..self.cards.len()
            invariant
                forall|k: int| 0 <= k < i ==> (#[trigger] self.cards@[k]).wf(),
        {
            if !self.cards[i].is_valid() {
                return false;
            }
        }
        true
    }

    /// Whether the hand holds `card`.
    pub fn holds(&self, card: &Card) -> (found: bool)
        ensures
            found == self.cards@.contains(*card),
    {
        for i in 0..self.cards.len()
            invariant
                forall|k: int| 0 <= k < i ==> self.cards@[k] != *card,
        {
            if self.cards[i] == *card {
                return true;
            }
        }
        false
    }

    /// Puts `card` at the end of the hand unless the hand holds it already,
    /// and says whether it did.
    pub fn accept(&mut self, card: Card) -> (added: bool)
        ensures
            added == !old(self).cards@.contains(card),
            added ==> final(self).cards@ == old(self).cards@.push(card),
            !added ==> final(self).cards@ == old(self).cards@,
    {
        if self.holds(&card) {
            false
        } else {
            self.cards.push(card);
            true
        }
    }

    /// Reads a hand from text: the cards that the words of `s` spell, in
    /// order. A word that spells no card is passed over, so the call never
    /// fails; the hand may have any number of cards, also none.
    pub fn from_str(s: &str) -> (result: Result<Hand, String>)
        ensures
            result is Ok,
            result->Ok_0.cards@ == parse_hand(s@),
            result->Ok_0.wf(),
    {
        let letters = chars_of(s);
        let tokens = split_whitespace(&letters);
        let mut hand = Hand::default();
        for i in 0..tokens.len()
            invariant
                hand.cards@ == valid_cards(word_views(tokens@).take(i as int)),
                all_valid(hand.cards@),
        {
            assert(word_views(tokens@).take(i + 1).drop_last() == word_views(tokens@).take(
                i as int,
            ));
            if let Some(card) = Card::from_chars(&tokens[i]) {
                hand.cards.push(card);
            }
        }
        assert(word_views(tokens@).take(tokens@.len() as int) == word_views(tokens@));
        Ok(hand)
    }

    /// The display text of a hand.
    pub open spec fn spec_to_string(&self) -> Seq<char> {
        cards_text(self.cards@)
    }

    /// The display text of the hand, such as `king of hearts, 4 of diamonds`.
    pub fn to_string(&self) -> (text: String)
        ensures
            text@ == self.spec_to_string(),
    {
        let mut text = String::new();
        for i in 0..self.cards.len()
            invariant
                text@ == cards_text(self.cards@.take(i as int)),
        {
            assert(self.cards@.take(i + 1).drop_last() == self.cards@.take(i as int));
            if i != 0 {
                text.append(", ");
            }
            text.append(self.cards[i].to_string().as_str());
        }
        assert(self.cards@.take(self.cards@.len() as int) == self.cards@);
        text
    }
}

impl Default for Hand {
    /// The hand without cards.
    fn default() -> (hand: Hand)
        ensures
            hand.cards@.len() == 0,
    {
        Hand { cards: Vec::new() }
    }
}

} // verus!
