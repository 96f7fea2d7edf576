//! Dealing cards at random, without dealing a card twice.

use rand::Rng;
use vstd::prelude::*;

use crate::card::{
    is_rank, is_suit, nth_rank, nth_suit, rank_at, rank_index, suit_at, suit_index, Card,
};
use crate::hand::{all_distinct, all_valid, Hand};

verus! {

/// The number of cards in a full deck.
pub const DECK_SIZE: usize = 52;

/// How often in a row [`deal`] draws a card again because the hand has it
/// already, before it draws among the cards that are left.
pub const MAX_REDRAWS: usize = 1024;

/// `ThreadRng` of rand: a handle on the random number generator of the
/// running thread. Nothing is known of what is inside.
#[verifier::external_type_specification]
#[verifier::external_body]
pub struct ExThreadRng(rand::rngs::ThreadRng);

/// `rand::thread_rng`: the handle on the generator of the running thread,
/// which the system seeds. Nothing is claimed of it.
pub assume_specification[ rand::thread_rng ]() -> (rng: rand::rngs::ThreadRng);

/// `Rng::gen_range` of rand on the range `0..bound`: some number of that
/// range, from 0 up to but without `bound`. Which one is left open. On an
/// empty range the call panics, so `bound` must not be 0.
#[verifier::external_body]
fn random_below(rng: &mut rand::rngs::ThreadRng, bound: usize) -> (index: usize)
    requires
        bound > 0,
    ensures
        index < bound,
{
    rng.gen_range(0..bound)
}

/// The deck in a fixed order: the clubs from `2` up to the ace, then the
/// diamonds, the hearts and the spades in the same way.
pub open spec fn deck_card(position: int) -> Card {
    Card { suit: nth_suit(position / 13), rank: nth_rank(position % 13) }
}

/// The position of a card in the deck.
pub open spec fn deck_position(card: Card) -> int {
    13 * suit_index(card.suit) + rank_index(card.rank)
}

/// The number of cards among the first `k` of the deck that `dealt` does not
/// hold.
pub open spec fn undealt_below(dealt: Seq<Card>, k: int) -> nat
    decreases k,
{
    if k <= 0 {
        0
    } else {
        undealt_below(dealt, k - 1) + if dealt.contains(deck_card(k - 1)) {
            0nat
        } else {
            1nat
        }
    }
}

/// The deck holds each well formed card once, at its position, and no other
/// card.
pub proof fn lemma_deck_positions(position: int, card: Card)
    ensures
        0 <= position < 52 ==> deck_card(position).wf() && deck_position(deck_card(position))
            == position,
        card.wf() ==> 0 <= deck_position(card) < 52 && deck_card(deck_position(card)) == card,
{
}

/// Of the first `k` cards of the deck, all but those that `dealt` holds are
/// left: at least `k - dealt.len()`.
pub proof fn lemma_undealt_count(dealt: Seq<Card>, k: int)
    requires
        0 <= k <= 52,
    ensures
        undealt_below(dealt, k) + dealt.len() >= k,
        undealt_below(dealt, k) <= k,
    decreases dealt.len(), k,
{
    if k > 0 {
        lemma_undealt_count(dealt, k - 1);
    }
    if dealt.len() > 0 {
        let before = dealt.drop_last();
        let last = dealt.last();
        lemma_undealt_count(before, k);
        lemma_undealt_push(before, last, k);
        assert(before.push(last) == dealt);
    } else if k > 0 {
        assert(!dealt.contains(deck_card(k - 1)));
    }
}

/// The further the deck is gone through, the more cards are left.
pub proof fn lemma_undealt_grows(dealt: Seq<Card>, i: int, j: int)
    requires
        i <= j,
    ensures
        undealt_below(dealt, i) <= undealt_below(dealt, j),
    decreases j - i,
{
    if i < j {
        lemma_undealt_grows(dealt, i, j - 1);
    }
}

/// One more dealt card takes at most one card from those that are left.
proof fn lemma_undealt_push(dealt: Seq<Card>, card: Card, k: int)
    requires
        0 <= k <= 52,
    ensures
        undealt_below(dealt.push(card), k) + 1 >= undealt_below(dealt, k),
        !(card.wf() && deck_position(card) < k) ==> undealt_below(dealt.push(card), k)
            == undealt_below(dealt, k),
    decreases k,
{
    if k > 0 {
        lemma_undealt_push(dealt, card, k - 1);
        let top = deck_card(k - 1);
        lemma_deck_positions(k - 1, card);
        if dealt.contains(top) {
            let i: int = choose|i: int| 0 <= i < dealt.len() && dealt[i] == top;
            assert(dealt.push(card)[i] == top);
        }
        if dealt.push(card).contains(top) && !dealt.contains(top) {
            let i: int = choose|i: int|
                0 <= i < dealt.push(card).len() && dealt.push(card)[i] == top;
            if i < dealt.len() {
                assert(dealt[i] == top);
            }
            assert(card == top);
        }
        if card == top {
            assert(dealt.push(card)[dealt.len() as int] == top);
        }
    }
}

/// The card at `position` of the deck.
pub fn card_at(position: usize) -> (card: Card)
    requires
        position < 52,
    ensures
        card == deck_card(position as int),
        card.wf(),
{
    Card { suit: suit_at(position / 13), rank: rank_at(position % 13) }
}

/// A rank, drawn at random.
fn random_rank() -> (rank: char)
    ensures
        is_rank(rank),
{
    let mut rng = rand::thread_rng();
    let index: usize = random_below(&mut rng, 13);
    rank_at(index)
}

/// A suit, drawn at random.
fn random_suit() -> (suit: char)
    ensures
        is_suit(suit),
{
    let mut rng = rand::thread_rng();
    let index: usize = random_below(&mut rng, 4);
    suit_at(index)
}

/// The card that comes after `skip` others when the deck is gone through in
/// its order and the cards of the hand are left out; `None` where no more
/// than `skip` cards are left.
pub fn undealt_card(hand: &Hand, skip: usize) -> (card: Option<Card>)
    ensures
        card is Some <==> skip < undealt_below(hand.cards@, 52),
        card matches Some(found) ==> found.wf() && !hand.cards@.contains(found) && exists|
            position: int,
        |
            0 <= position < 52 && found == deck_card(position) && skip == undealt_below(
                hand.cards@,
                position,
            ),
{
    let mut skipped: usize = 0;
    for position in 0..DECK_SIZE
        invariant
            skipped == undealt_below(hand.cards@, position as int),
            skipped <= skip,
            skipped <= position,
    {
        let card = card_at(position);
        if !hand.holds(&card) {
            if skipped == skip {
                proof {
                    lemma_undealt_grows(hand.cards@, position + 1, 52);
                }
                return Some(card);
            }
            skipped = skipped + 1;
        }
    }
    None
}

/// Deals `n` cards from a full deck, in the order in which they are drawn.
///
/// A suit and a rank are drawn at random; a card that the hand has already is
/// thrown away and drawn again. After [`MAX_REDRAWS`] such draws in a row the
/// next card is drawn at random among those that are left in the deck, so the
/// call returns whatever the generator gives. A deck has 52 cards: no more
/// can be dealt.
pub fn deal(n: usize) -> (hand: Hand)
    requires
        n <= DECK_SIZE,
    ensures
        hand.cards@.len() == n,
        hand.wf(),
        all_distinct(hand.cards@),
{
    let mut hand = Hand::default();
    let mut redraws: usize = 0;
    while hand.cards.len() < n
        invariant
            n <= DECK_SIZE,
            hand.cards@.len() <= n,
            redraws <= MAX_REDRAWS,
            all_valid(hand.cards@),
            all_distinct(hand.cards@),
        decreases n - hand.cards@.len(), MAX_REDRAWS - redraws,
    {
        let card = if redraws < MAX_REDRAWS {
            Card { suit: random_suit(), rank: random_rank() }
        } else {
            proof {
                lemma_undealt_count(hand.cards@, 52);
            }
            let mut rng = rand::thread_rng();
            let skip: usize = random_below(&mut rng, DECK_SIZE - hand.cards.len());
            undealt_card(&hand, skip).unwrap()
        };
        if hand.accept(card) {
            redraws = 0;
        } else {
            redraws = redraws + 1;
        }
    }
    hand
}

} // verus!
