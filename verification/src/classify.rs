//! Naming the category of a hand.
//!
//! The category is decided by how often each suit and each rank occurs in the
//! hand, by the span of the ranks, and by the dominant rank: the rank that
//! occurs most often, the lowest such rank where several occur equally often.

use vstd::prelude::*;
use vstd::set_lib::{lemma_int_range, lemma_len_subset, lemma_subset_equality, set_int_range};

use crate::card::{
    is_rank, lemma_alphabets, nth_rank, nth_suit, rank_at, rank_index, rank_name, rank_position,
    spec_rank_name, spec_suit_name, suit_name, suit_position, Card,
};
use crate::hand::{all_valid, Hand};

verus! {

/// The number of cards of `cards` whose suit is `suit`.
pub open spec fn count_suit(cards: Seq<Card>, suit: char) -> nat
    decreases cards.len(),
{
    if cards.len() == 0 {
        0
    } else {
        count_suit(cards.drop_last(), suit) + if cards.last().suit == suit {
            1nat
        } else {
            0nat
        }
    }
}

/// The number of cards of `cards` whose rank is `rank`.
pub open spec fn count_rank(cards: Seq<Card>, rank: char) -> nat
    decreases cards.len(),
{
    if cards.len() == 0 {
        0
    } else {
        count_rank(cards.drop_last(), rank) + if cards.last().rank == rank {
            1nat
        } else {
            0nat
        }
    }
}

/// Whether some suit occurs exactly five times.
pub open spec fn is_flush(cards: Seq<Card>) -> bool {
    exists|i: int| 0 <= i < 4 && #[trigger] count_suit(cards, nth_suit(i)) == 5
}

/// Whether some rank occurs exactly three times.
pub open spec fn has_three(cards: Seq<Card>) -> bool {
    exists|i: int| 0 <= i < 13 && #[trigger] count_rank(cards, nth_rank(i)) == 3
}

/// The number of ranks among the first `k` of the rank order that occur
/// exactly twice.
pub open spec fn pairs_below(cards: Seq<Card>, k: int) -> nat
    decreases k,
{
    if k <= 0 {
        0
    } else {
        pairs_below(cards, k - 1) + if count_rank(cards, nth_rank(k - 1)) == 2 {
            1nat
        } else {
            0nat
        }
    }
}

/// The number of ranks that occur exactly twice.
pub open spec fn pair_count(cards: Seq<Card>) -> nat {
    pairs_below(cards, 13)
}

/// Whether a rank occurs three times and another one twice.
pub open spec fn is_full_house(cards: Seq<Card>) -> bool {
    has_three(cards) && pair_count(cards) > 0
}

/// The lowest position in the rank order of a card of `cards`; 13 where there
/// is no card.
pub open spec fn lowest_index(cards: Seq<Card>) -> int
    decreases cards.len(),
{
    if cards.len() == 0 {
        13
    } else {
        let before = lowest_index(cards.drop_last());
        let index = rank_index(cards.last().rank);
        if index < before {
            index
        } else {
            before
        }
    }
}

/// The highest position in the rank order of a card of `cards`; 0 where there
/// is no card.
pub open spec fn highest_index(cards: Seq<Card>) -> int
    decreases cards.len(),
{
    if cards.len() == 0 {
        0
    } else {
        let before = highest_index(cards.drop_last());
        let index = rank_index(cards.last().rank);
        if index > before {
            index
        } else {
            before
        }
    }
}

/// Whether the ranks span exactly as many positions of the rank order as
/// there are cards. For cards of pairwise different ranks this says that the
/// ranks are consecutive; with a rank that repeats, a hand whose ranks are
/// not consecutive can meet it.
pub open spec fn spec_is_straight(cards: Seq<Card>) -> bool {
    highest_index(cards) - lowest_index(cards) + 1 == cards.len()
}

/// Whether no two cards of `cards` have the same rank.
pub open spec fn ranks_differ(cards: Seq<Card>) -> bool {
    forall|i: int, j: int| 0 <= i < j < cards.len() ==> cards[i].rank != cards[j].rank
}

/// Whether a card of `cards` has its rank at `position` of the rank order.
pub open spec fn has_position(cards: Seq<Card>, position: int) -> bool {
    exists|i: int| 0 <= i < cards.len() && rank_index(cards[i].rank) == position
}

/// The highest number of cards that one of the first `k` ranks of the rank
/// order has in `cards`.
pub open spec fn kind_count_below(cards: Seq<Card>, k: int) -> nat
    decreases k,
{
    if k <= 0 {
        0
    } else {
        let before = kind_count_below(cards, k - 1);
        let count = count_rank(cards, nth_rank(k - 1));
        if count > before {
            count
        } else {
            before
        }
    }
}

/// The lowest of the first `k` ranks of the rank order that has
/// `kind_count_below(cards, k)` cards in `cards`; a blank where none of them
/// has a card.
pub open spec fn kind_rank_below(cards: Seq<Card>, k: int) -> char
    decreases k,
{
    if k <= 0 {
        ' '
    } else if count_rank(cards, nth_rank(k - 1)) > kind_count_below(cards, k - 1) {
        nth_rank(k - 1)
    } else {
        kind_rank_below(cards, k - 1)
    }
}

/// The number of cards of the dominant rank: the highest number of cards
/// that share a rank.
pub open spec fn kind_count(cards: Seq<Card>) -> nat {
    kind_count_below(cards, 13)
}

/// The dominant rank: the rank with the most cards, and the lowest such rank
/// where several have as many. A blank where no card has a rank.
pub open spec fn kind_rank(cards: Seq<Card>) -> char {
    kind_rank_below(cards, 13)
}

/// The suit of the first card of `cards` whose rank is `rank`; `?` where
/// there is none.
pub open spec fn spec_get_suit(cards: Seq<Card>, rank: char) -> char
    decreases cards.len(),
{
    if cards.len() == 0 {
        '?'
    } else if cards[0].rank == rank {
        cards[0].suit
    } else {
        spec_get_suit(cards.drop_first(), rank)
    }
}

/// The category of a hand, as its name. The first line that applies decides.
/// A royal flush asks for the ace as dominant rank: among cards of pairwise
/// different ranks the dominant rank is the lowest, so a straight flush of
/// five cards up to the ace is named a straight flush.
pub open spec fn category(cards: Seq<Card>) -> Seq<char> {
    let straight = spec_is_straight(cards);
    let flush = is_flush(cards);
    let count = kind_count(cards);
    let rank = kind_rank(cards);
    let name = spec_rank_name(rank);
    if straight && flush && rank == 'A' {
        "royal flush"@
    } else if straight && flush {
        "straight flush"@
    } else if count == 4 {
        "4 of a kind of "@ + name + "s"@
    } else if is_full_house(cards) {
        "full house"@
    } else if flush {
        "flush"@
    } else if straight {
        "straight"@
    } else if count == 3 {
        "3 of a kind of "@ + name + "s"@
    } else if pair_count(cards) == 2 {
        "two pairs"@
    } else if count == 2 {
        "pair of "@ + name + "s"@
    } else {
        "high card "@ + name + " of "@ + spec_suit_name(spec_get_suit(cards, rank))
    }
}

/// No rank and no suit has more cards than the hand.
pub proof fn lemma_count_bounded(cards: Seq<Card>, c: char)
    ensures
        count_rank(cards, c) <= cards.len(),
        count_suit(cards, c) <= cards.len(),
    decreases cards.len(),
{
    if cards.len() > 0 {
        lemma_count_bounded(cards.drop_last(), c);
    }
}

/// In a hand with a card, [`lowest_index`] and [`highest_index`] are the
/// least and the greatest position in the rank order of a card of the hand.
pub proof fn lemma_rank_span(cards: Seq<Card>)
    requires
        cards.len() > 0,
        all_valid(cards),
    ensures
        forall|i: int|
            0 <= i < cards.len() ==> lowest_index(cards) <= rank_index(#[trigger] cards[i].rank)
                <= highest_index(cards),
        exists|i: int| 0 <= i < cards.len() && rank_index(cards[i].rank) == lowest_index(cards),
        exists|i: int| 0 <= i < cards.len() && rank_index(cards[i].rank) == highest_index(cards),
    decreases cards.len(),
{
    let before = cards.drop_last();
    let last: int = cards.len() - 1;
    assert(cards[last].wf());
    if before.len() > 0 {
        assert(all_valid(before)) by {
            assert forall|i: int| 0 <= i < before.len() implies (#[trigger] before[i]).wf() by {
                assert(cards[i].wf());
            }
        }
        lemma_rank_span(before);
        let low: int = choose|i: int|
            0 <= i < before.len() && rank_index(before[i].rank) == lowest_index(before);
        let high: int = choose|i: int|
            0 <= i < before.len() && rank_index(before[i].rank) == highest_index(before);
        assert(cards[low] == before[low] && cards[high] == before[high]);
        assert(rank_index(cards[last].rank) == lowest_index(cards) || rank_index(cards[low].rank)
            == lowest_index(cards));
        assert(rank_index(cards[last].rank) == highest_index(cards) || rank_index(
            cards[high].rank,
        ) == highest_index(cards));
        assert forall|i: int| 0 <= i < cards.len() implies lowest_index(cards) <= rank_index(
            #[trigger] cards[i].rank,
        ) <= highest_index(cards) by {
            if i < last {
                assert(cards[i] == before[i]);
            }
        }
    } else {
        assert(lowest_index(before) == 13 && highest_index(before) == 0);
        assert(rank_index(cards[last].rank) == lowest_index(cards));
        assert(rank_index(cards[last].rank) == highest_index(cards));
    }
}

/// For cards of pairwise different ranks the span tells whether the ranks are
/// consecutive: [`spec_is_straight`] holds exactly when every position of the
/// rank order from the lowest to the highest of the hand is the position of
/// one of its cards.
pub proof fn lemma_straight_is_consecutive(cards: Seq<Card>)
    requires
        cards.len() > 0,
        all_valid(cards),
        ranks_differ(cards),
    ensures
        spec_is_straight(cards) <==> forall|p: int|
            lowest_index(cards) <= p <= highest_index(cards) ==> #[trigger] has_position(cards, p),
{
    broadcast use vstd::seq_lib::seq_to_set_is_finite;

    let low = lowest_index(cards);
    let high = highest_index(cards);
    let positions = cards.map_values(|card: Card| rank_index(card.rank));
    let taken = positions.to_set();
    let span = set_int_range(low, high + 1);
    lemma_rank_span(cards);
    assert(positions.no_duplicates()) by {
        assert forall|i: int, j: int|
            0 <= i < positions.len() && 0 <= j < positions.len() && i != j implies positions[i]
            != positions[j] by {
            assert(cards[i].wf() && cards[j].wf());
            lemma_alphabets(0, cards[i].rank);
            lemma_alphabets(0, cards[j].rank);
            if i < j {
                assert(cards[i].rank != cards[j].rank);
            } else {
                assert(cards[j].rank != cards[i].rank);
            }
        }
    }
    positions.unique_seq_to_set();
    lemma_int_range(low, high + 1);
    assert(taken.subset_of(span)) by {
        assert forall|p: int| taken.contains(p) implies span.contains(p) by {
            let i: int = choose|i: int| 0 <= i < positions.len() && positions[i] == p;
            assert(p == rank_index(cards[i].rank));
        }
    }
    if spec_is_straight(cards) {
        lemma_subset_equality(taken, span);
        assert forall|p: int| low <= p <= high implies #[trigger] has_position(cards, p) by {
            assert(span.contains(p));
            assert(positions.contains(p));
            let i: int = choose|i: int| 0 <= i < positions.len() && positions[i] == p;
            assert(rank_index(cards[i].rank) == p);
        }
    }
    if forall|p: int| low <= p <= high ==> #[trigger] has_position(cards, p) {
        assert(span.subset_of(taken)) by {
            assert forall|p: int| span.contains(p) implies taken.contains(p) by {
                assert(has_position(cards, p));
                let i: int = choose|i: int| 0 <= i < cards.len() && rank_index(cards[i].rank) == p;
                assert(positions[i] == p);
            }
        }
        lemma_len_subset(span, taken);
        lemma_len_subset(taken, span);
    }
}

/// Three different ranks share the cards between them: together they have no
/// more cards than the hand.
pub proof fn lemma_counts_share(cards: Seq<Card>, a: char, b: char, c: char)
    requires
        a != b,
        a != c,
        b != c,
    ensures
        count_rank(cards, a) + count_rank(cards, b) + count_rank(cards, c) <= cards.len(),
    decreases cards.len(),
{
    if cards.len() > 0 {
        lemma_counts_share(cards.drop_last(), a, b, c);
    }
}

/// What the scan of the first `k` ranks has found: no rank among them has
/// more cards than `kind_count_below`; where one has a card, `kind_rank_below`
/// is one of them, has that many cards, and every rank below it has fewer.
pub proof fn lemma_dominant_below(cards: Seq<Card>, k: int)
    requires
        0 <= k <= 13,
    ensures
        forall|i: int|
            0 <= i < k ==> #[trigger] count_rank(cards, nth_rank(i)) <= kind_count_below(cards, k),
        kind_count_below(cards, k) == 0 ==> kind_rank_below(cards, k) == ' ',
        kind_count_below(cards, k) > 0 ==> 0 <= rank_index(kind_rank_below(cards, k)) < k,
        kind_count_below(cards, k) > 0 ==> count_rank(cards, kind_rank_below(cards, k))
            == kind_count_below(cards, k),
        forall|i: int|
            0 <= i < rank_index(kind_rank_below(cards, k)) ==> #[trigger] count_rank(
                cards,
                nth_rank(i),
            ) < kind_count_below(cards, k),
    decreases k,
{
    if k > 0 {
        lemma_dominant_below(cards, k - 1);
        lemma_alphabets(k - 1, ' ');
    }
}

/// The dominant rank is the rank with the most cards, and the lowest rank
/// among those with as many: no rank has more cards than [`kind_count`]; in a
/// hand with a card of some rank, [`kind_rank`] is a rank with that many
/// cards, and every lower rank has fewer. Where no card has a rank, the count
/// is 0 and the rank is a blank.
pub proof fn lemma_dominant_rank(cards: Seq<Card>)
    ensures
        forall|rank: char| is_rank(rank) ==> count_rank(cards, rank) <= kind_count(cards),
        kind_count(cards) == 0 ==> kind_rank(cards) == ' ',
        kind_count(cards) > 0 ==> is_rank(kind_rank(cards)) && count_rank(
            cards,
            kind_rank(cards),
        ) == kind_count(cards),
        forall|rank: char|
            is_rank(rank) && rank_index(rank) < rank_index(kind_rank(cards)) ==> count_rank(
                cards,
                rank,
            ) < kind_count(cards),
{
    lemma_dominant_below(cards, 13);
    assert forall|rank: char| is_rank(rank) implies count_rank(cards, rank) <= kind_count(
        cards,
    ) by {
        lemma_alphabets(0, rank);
        assert(count_rank(cards, nth_rank(rank_index(rank))) <= kind_count(cards));
    }
    assert forall|rank: char|
        is_rank(rank) && rank_index(rank) < rank_index(kind_rank(cards)) implies count_rank(
        cards,
        rank,
    ) < kind_count(cards) by {
        lemma_alphabets(0, rank);
        assert(count_rank(cards, nth_rank(rank_index(rank))) < kind_count(cards));
    }
}

/// Only one rank can be the dominant one: a rank that has `count` cards,
/// where no rank has more and every lower rank has fewer, is [`kind_rank`],
/// and `count` is [`kind_count`].
pub proof fn lemma_dominant_rank_unique(cards: Seq<Card>, count: nat, rank: char)
    requires
        count > 0,
        is_rank(rank),
        count_rank(cards, rank) == count,
        forall|other: char| is_rank(other) ==> count_rank(cards, other) <= count,
        forall|other: char|
            is_rank(other) && rank_index(other) < rank_index(rank) ==> count_rank(cards, other)
                < count,
    ensures
        kind_count(cards) == count,
        kind_rank(cards) == rank,
{
    lemma_dominant_rank(cards);
    let found = kind_rank(cards);
    assert(kind_count(cards) >= count);
    assert(is_rank(found));
    assert(count_rank(cards, found) <= count);
    if rank_index(found) < rank_index(rank) {
        assert(count_rank(cards, found) < count);
    }
    if rank_index(rank) < rank_index(found) {
        assert(count_rank(cards, rank) < kind_count(cards));
    }
    lemma_alphabets(0, found);
    lemma_alphabets(0, rank);
}

/// A rank that no card has counts nothing, and the rank of a card counts at
/// least that card.
pub proof fn lemma_count_rank_present(cards: Seq<Card>, rank: char)
    ensures
        count_rank(cards, rank) > 0 <==> exists|i: int|
            0 <= i < cards.len() && cards[i].rank == rank,
    decreases cards.len(),
{
    if cards.len() > 0 {
        let before = cards.drop_last();
        lemma_count_rank_present(before, rank);
        if count_rank(before, rank) > 0 {
            let i: int = choose|i: int| 0 <= i < before.len() && before[i].rank == rank;
            assert(cards[i].rank == rank);
        }
        if exists|i: int| 0 <= i < cards.len() && cards[i].rank == rank {
            let i: int = choose|i: int| 0 <= i < cards.len() && cards[i].rank == rank;
            if i < before.len() {
                assert(before[i].rank == rank);
            }
        }
    }
}

/// Among cards of pairwise different ranks no rank has two cards.
pub proof fn lemma_single_cards(cards: Seq<Card>, rank: char)
    requires
        ranks_differ(cards),
    ensures
        count_rank(cards, rank) <= 1,
    decreases cards.len(),
{
    if cards.len() > 0 {
        let before = cards.drop_last();
        lemma_single_cards(before, rank);
        lemma_count_rank_present(before, rank);
        if cards.last().rank == rank && count_rank(before, rank) > 0 {
            let i: int = choose|i: int| 0 <= i < before.len() && before[i].rank == rank;
            assert(cards[i].rank != cards[cards.len() - 1].rank);
        }
    }
}

/// Among cards of pairwise different ranks the dominant rank is the lowest
/// rank of the hand, with one card. So with more than one card it is not the
/// ace.
pub proof fn lemma_dominant_of_single_cards(cards: Seq<Card>)
    requires
        cards.len() > 0,
        all_valid(cards),
        ranks_differ(cards),
    ensures
        kind_count(cards) == 1,
        rank_index(kind_rank(cards)) == lowest_index(cards),
        cards.len() > 1 ==> kind_rank(cards) != 'A',
{
    lemma_rank_span(cards);
    let lowest: int = choose|i: int|
        0 <= i < cards.len() && rank_index(cards[i].rank) == lowest_index(cards);
    let rank = cards[lowest].rank;
    assert(cards[lowest].wf());
    lemma_count_rank_present(cards, rank);
    lemma_single_cards(cards, rank);
    assert forall|other: char| is_rank(other) implies count_rank(cards, other) <= 1 by {
        lemma_single_cards(cards, other);
    }
    assert forall|other: char|
        is_rank(other) && rank_index(other) < rank_index(rank) implies count_rank(cards, other)
        < 1 by {
        lemma_count_rank_present(cards, other);
        if count_rank(cards, other) > 0 {
            let i: int = choose|i: int| 0 <= i < cards.len() && cards[i].rank == other;
            assert(lowest_index(cards) <= rank_index(cards[i].rank));
        }
    }
    lemma_dominant_rank_unique(cards, 1, rank);
    if cards.len() > 1 {
        let other: int = if lowest == 0 {
            1
        } else {
            0
        };
        assert(cards[other].wf());
        assert(lowest_index(cards) <= rank_index(cards[other].rank) <= highest_index(cards));
        if lowest < other {
            assert(cards[lowest].rank != cards[other].rank);
        } else {
            assert(cards[other].rank != cards[lowest].rank);
        }
        lemma_alphabets(0, cards[other].rank);
        lemma_alphabets(0, rank);
    }
}

/// The number of ranks with two cards, where `low` and `high` are the only
/// such ranks.
proof fn lemma_pairs_below(cards: Seq<Card>, low: char, high: char, k: int)
    requires
        0 <= k <= 13,
        is_rank(low),
        is_rank(high),
        rank_index(low) < rank_index(high),
        count_rank(cards, low) == 2,
        count_rank(cards, high) == 2,
        forall|other: char|
            is_rank(other) && other != low && other != high ==> count_rank(cards, other) != 2,
    ensures
        pairs_below(cards, k) == if k <= rank_index(low) {
            0nat
        } else if k <= rank_index(high) {
            1nat
        } else {
            2nat
        },
    decreases k,
{
    if k > 0 {
        lemma_pairs_below(cards, low, high, k - 1);
        lemma_alphabets(k - 1, low);
        lemma_alphabets(k - 1, high);
    }
}

/// Two pairs and the dominant rank. In a hand of five cards in which two
/// ranks have two cards each, the dominant rank is the lower of the two,
/// with two cards. The hand is named `two pairs` unless its ranks span five
/// positions of the rank order or five of its cards share a suit, which
/// come first.
pub proof fn lemma_two_pairs(cards: Seq<Card>, low: char, high: char)
    requires
        cards.len() == 5,
        is_rank(low),
        is_rank(high),
        rank_index(low) < rank_index(high),
        count_rank(cards, low) == 2,
        count_rank(cards, high) == 2,
    ensures
        kind_count(cards) == 2,
        kind_rank(cards) == low,
        pair_count(cards) == 2,
        category(cards) == "two pairs"@ <==> !spec_is_straight(cards) && !is_flush(cards),
{
    assert forall|other: char| is_rank(other) && other != low && other != high implies count_rank(
        cards,
        other,
    ) <= 1 by {
        lemma_counts_share(cards, low, high, other);
    }
    assert forall|other: char| is_rank(other) implies count_rank(cards, other) <= 2 by {}
    assert forall|other: char|
        is_rank(other) && rank_index(other) < rank_index(low) implies count_rank(cards, other)
        < 2 by {}
    lemma_dominant_rank_unique(cards, 2, low);
    lemma_pairs_below(cards, low, high, 13);
    assert(!has_three(cards)) by {
        if has_three(cards) {
            let i: int = choose|i: int| 0 <= i < 13 && #[trigger] count_rank(cards, nth_rank(i)) == 3;
            lemma_alphabets(i, ' ');
        }
    }
    assert(!is_full_house(cards));
    reveal_strlit("two pairs");
    reveal_strlit("royal flush");
    reveal_strlit("straight flush");
    reveal_strlit("flush");
    reveal_strlit("straight");
    assert("two pairs"@.len() == 9);
    assert("royal flush"@.len() == 11);
    assert("straight flush"@.len() == 14);
    assert("flush"@.len() == 5);
    assert("straight"@.len() == 8);
}

/// A table of `len` zeros.
fn zeros(len: usize) -> (table: Vec<usize>)
    ensures
        table@.len() == len,
        forall|i: int| 0 <= i < len ==> table@[i] == 0,
{
    let mut table: Vec<usize> = Vec::new();
    for n in 0..len
        invariant
            table@.len() == n,
            forall|i: int| 0 <= i < n ==> table@[i] == 0,
    {
        table.push(0);
    }
    table
}

/// How many cards each rank has, by position in the rank order.
fn tally_ranks(cards: &Vec<Card>) -> (table: Vec<usize>)
    requires
        all_valid(cards@),
    ensures
        table@.len() == 13,
        forall|r: int| 0 <= r < 13 ==> table@[r] == count_rank(cards@, #[trigger] nth_rank(r)),
{
    let mut table = zeros(13);
    for i in 0..cards.len()
        invariant
            all_valid(cards@),
            table@.len() == 13,
            forall|r: int|
                0 <= r < 13 ==> table@[r] == count_rank(
                    cards@.take(i as int),
                    #[trigger] nth_rank(r),
                ),
    {
        assert(cards@[i as int].wf());
        let position: usize = rank_position(cards[i].rank).unwrap();
        proof {
            assert(cards@.take(i + 1).drop_last() == cards@.take(i as int));
            lemma_count_bounded(cards@.take(i as int), nth_rank(position as int));
        }
        table.set(position, table[position] + 1);
    }
    assert(cards@.take(cards@.len() as int) == cards@);
    table
}

/// How many cards each suit has, by position in the order of the suits.
fn tally_suits(cards: &Vec<Card>) -> (table: Vec<usize>)
    requires
        all_valid(cards@),
    ensures
        table@.len() == 4,
        forall|s: int| 0 <= s < 4 ==> table@[s] == count_suit(cards@, #[trigger] nth_suit(s)),
{
    let mut table = zeros(4);
    for i in 0..cards.len()
        invariant
            all_valid(cards@),
            table@.len() == 4,
            forall|s: int|
                0 <= s < 4 ==> table@[s] == count_suit(
                    cards@.take(i as int),
                    #[trigger] nth_suit(s),
                ),
    {
        assert(cards@[i as int].wf());
        let position: usize = suit_position(cards[i].suit).unwrap();
        proof {
            assert(cards@.take(i + 1).drop_last() == cards@.take(i as int));
            lemma_count_bounded(cards@.take(i as int), nth_suit(position as int));
        }
        table.set(position, table[position] + 1);
    }
    assert(cards@.take(cards@.len() as int) == cards@);
    table
}

/// The three texts, one after the other.
fn join(first: &str, second: &str, third: &str) -> (text: String)
    ensures
        text@ == first@ + second@ + third@,
{
    let mut text = first.to_owned();
    text.append(second);
    text.append(third);
    text
}

/// Whether an entry of `table` is `target`.
fn holds_count(table: &Vec<usize>, target: usize) -> (found: bool)
    ensures
        found == exists|i: int| 0 <= i < table@.len() && table@[i] == target,
{
    for i in 0..table.len()
        invariant
            forall|k: int| 0 <= k < i ==> table@[k] != target,
    {
        if table[i] == target {
            return true;
        }
    }
    false
}

/// Whether `table` holds, for each rank by its position, the number of
/// cards of `cards` with that rank.
spec fn is_rank_table(table: Seq<usize>, cards: Seq<Card>) -> bool {
    &&& table.len() == 13
    &&& forall|r: int| 0 <= r < 13 ==> table[r] == count_rank(cards, #[trigger] nth_rank(r))
}

/// The number of ranks with exactly two cards.
fn count_pairs(table: &Vec<usize>, Ghost(cards): Ghost<Seq<Card>>) -> (pairs: usize)
    requires
        is_rank_table(table@, cards),
    ensures
        pairs == pair_count(cards),
{
    let mut pairs: usize = 0;
    for k in 0..13
        invariant
            is_rank_table(table@, cards),
            pairs == pairs_below(cards, k as int),
            pairs <= k,
    {
        assert(table@[k as int] == count_rank(cards, nth_rank(k as int)));
        if table[k] == 2 {
            pairs = pairs + 1;
        }
    }
    pairs
}

/// The number of cards of the dominant rank, and the dominant rank.
fn dominant(table: &Vec<usize>, Ghost(cards): Ghost<Seq<Card>>) -> (kind: (usize, char))
    requires
        is_rank_table(table@, cards),
    ensures
        kind.0 == kind_count(cards),
        kind.1 == kind_rank(cards),
{
    let mut count: usize = 0;
    let mut rank = ' ';
    for k in 0..13
        invariant
            is_rank_table(table@, cards),
            count == kind_count_below(cards, k as int),
            rank == kind_rank_below(cards, k as int),
    {
        assert(table@[k as int] == count_rank(cards, nth_rank(k as int)));
        if table[k] > count {
            count = table[k];
            rank = rank_at(k);
        }
    }
    (count, rank)
}

/// Whether the ranks of the hand span exactly as many positions of the rank
/// order as the hand has cards.
pub fn is_straight(hand: &Hand) -> (straight: bool)
    requires
        hand.wf(),
    ensures
        straight == spec_is_straight(hand.cards@),
{
    let mut low: usize = 13;
    let mut high: usize = 0;
    for i in 0..hand.cards.len()
        invariant
            hand.wf(),
            low == lowest_index(hand.cards@.take(i as int)),
            high == highest_index(hand.cards@.take(i as int)),
            high < 13,
    {
        assert(hand.cards@[i as int].wf());
        assert(hand.cards@.take(i + 1).drop_last() == hand.cards@.take(i as int));
        let index: usize = rank_position(hand.cards[i].rank).unwrap();
        if index > high {
            high = index;
        }
        if index < low {
            low = index;
        }
    }
    assert(hand.cards@.take(hand.cards@.len() as int) == hand.cards@);
    low <= high && high - low + 1 == hand.cards.len()
}

/// The suit of the first card of the hand whose rank is `rank`; `?` where the
/// hand has no such card.
pub fn get_suit(hand: &Hand, rank: char) -> (suit: char)
    ensures
        suit == spec_get_suit(hand.cards@, rank),
{
    assert(hand.cards@.skip(0) == hand.cards@);
    for i in 0..hand.cards.len()
        invariant
            spec_get_suit(hand.cards@, rank) == spec_get_suit(hand.cards@.skip(i as int), rank),
    {
        assert(hand.cards@.skip(i as int).drop_first() == hand.cards@.skip(i + 1));
        if hand.cards[i].rank == rank {
            return hand.cards[i].suit;
        }
    }
    '?'
}

impl Hand {
    /// The number of cards that share the dominant rank, and the dominant
    /// rank: the rank with the most cards, the lowest one where several ranks
    /// have as many. For a hand without cards the rank is a blank.
    pub fn dominant_rank(&self) -> (kind: (usize, char))
        requires
            self.wf(),
        ensures
            kind.0 == kind_count(self.cards@),
            kind.1 == kind_rank(self.cards@),
    {
        let ranks = tally_ranks(&self.cards);
        dominant(&ranks, Ghost(self.cards@))
    }

    /// The category of the hand, as text.
    pub fn evaluate(&self) -> (text: String)
        requires
            self.wf(),
        ensures
            text@ == category(self.cards@),
    {
        let suits = tally_suits(&self.cards);
        let ranks = tally_ranks(&self.cards);
        let flush = holds_count(&suits, 5);
        let three_of_a_kind = holds_count(&ranks, 3);
        let pairs: usize = count_pairs(&ranks, Ghost(self.cards@));
        let full_house = three_of_a_kind && pairs > 0;
        let straight = is_straight(self);
        let (kind_count, kind_rank): (usize, char) = dominant(&ranks, Ghost(self.cards@));
        let name = rank_name(kind_rank);
        proof {
            assert(flush == is_flush(self.cards@)) by {
                if flush {
                    let i: int = choose|i: int| 0 <= i < suits@.len() && suits@[i] == 5;
                    assert(count_suit(self.cards@, nth_suit(i)) == 5);
                }
                if is_flush(self.cards@) {
                    let i: int = choose|i: int|
                        0 <= i < 4 && #[trigger] count_suit(self.cards@, nth_suit(i)) == 5;
                    assert(suits@[i] == 5);
                }
            }
            assert(three_of_a_kind == has_three(self.cards@)) by {
                if three_of_a_kind {
                    let i: int = choose|i: int| 0 <= i < ranks@.len() && ranks@[i] == 3;
                    assert(count_rank(self.cards@, nth_rank(i)) == 3);
                }
                if has_three(self.cards@) {
                    let i: int = choose|i: int|
                        0 <= i < 13 && #[trigger] count_rank(self.cards@, nth_rank(i)) == 3;
                    assert(ranks@[i] == 3);
                }
            }
        }
        if straight && flush && kind_rank == 'A' {
            "royal flush".to_owned()
        } else if straight && flush {
            "straight flush".to_owned()
        } else if kind_count == 4 {
            join("4 of a kind of ", name.as_str(), "s")
        } else if full_house {
            "full house".to_owned()
        } else if flush {
            "flush".to_owned()
        } else if straight {
            "straight".to_owned()
        } else if kind_count == 3 {
            join("3 of a kind of ", name.as_str(), "s")
        } else if pairs == 2 {
            "two pairs".to_owned()
        } else if kind_count == 2 {
            join("pair of ", name.as_str(), "s")
        } else {
            let suit = suit_name(get_suit(self, kind_rank));
            let mut text = join("high card ", name.as_str(), " of ");
            text.append(suit.as_str());
            text
        }
    }
}

} // verus!
