use poker::deal::{card_at, undealt_card, DECK_SIZE};
use poker::{deal, Card, Hand};

fn no_card_twice(hand: &Hand) -> bool {
    for i in 0..hand.cards.len() {
        for j in 0..i {
            if hand.cards[i] == hand.cards[j] {
                return false;
            }
        }
    }
    true
}

#[test]
fn deal_gives_five_cards() {
    let hand = deal(5);
    assert_eq!(hand.cards.len(), 5);
}

#[test]
fn deal_gives_as_many_different_valid_cards_as_asked() {
    for n in 0..=52 {
        for _ in 0..20 {
            let hand = deal(n);
            assert_eq!(hand.cards.len(), n);
            assert!(hand.is_valid());
            assert!(no_card_twice(&hand));
        }
    }
}

#[test]
fn deal_of_no_cards_is_empty() {
    assert_eq!(deal(0).cards.len(), 0);
}

#[test]
fn deal_of_the_whole_deck_holds_every_card() {
    let hand = deal(DECK_SIZE);
    assert_eq!(hand.cards.len(), 52);
    for position in 0..52 {
        assert!(hand.holds(&card_at(position)));
    }
}

#[test]
fn deal_does_not_always_give_the_same_card() {
    let first = deal(1).cards[0];
    let mut other = false;
    for _ in 0..200 {
        if deal(1).cards[0] != first {
            other = true;
        }
    }
    assert!(other);
}

#[test]
fn deal_reaches_every_rank_and_suit() {
    let mut seen: Vec<Card> = Vec::new();
    for _ in 0..5000 {
        let card = deal(1).cards[0];
        if !seen.contains(&card) {
            seen.push(card);
        }
    }
    assert_eq!(seen.len(), 52);
}

#[test]
fn dealt_hand_can_be_named() {
    for _ in 0..100 {
        let hand = deal(5);
        assert!(hand.is_valid());
        assert!(!hand.evaluate().is_empty());
        assert!(!hand.to_string().is_empty());
    }
}

#[test]
fn card_at_goes_through_the_deck_suit_by_suit() {
    assert_eq!(card_at(0), Card { suit: '♣', rank: '2' });
    assert_eq!(card_at(12), Card { suit: '♣', rank: 'A' });
    assert_eq!(card_at(13), Card { suit: '♦', rank: '2' });
    assert_eq!(card_at(34), Card { suit: '♥', rank: 'T' });
    assert_eq!(card_at(51), Card { suit: '♠', rank: 'A' });
}

#[test]
fn card_at_gives_fifty_two_different_valid_cards() {
    let mut hand = Hand::default();
    for position in 0..52 {
        let card = card_at(position);
        assert!(card.is_valid());
        assert!(!hand.holds(&card));
        hand.cards.push(card);
    }
}

#[test]
fn holds_finds_a_card_of_the_hand() {
    let hand = Hand::from_str("Q♥ 7♥ Q♣").unwrap();
    assert!(hand.holds(&Card { suit: '♥', rank: 'Q' }));
    assert!(hand.holds(&Card { suit: '♣', rank: 'Q' }));
    assert!(!hand.holds(&Card { suit: '♣', rank: '7' }));
    assert!(!Hand::default().holds(&Card { suit: '♥', rank: 'Q' }));
}

#[test]
fn accept_adds_a_card_that_the_hand_has_not() {
    let mut hand = Hand::from_str("Q♥ 7♥").unwrap();
    assert!(hand.accept(Card { suit: '♣', rank: 'Q' }));
    assert_eq!(
        hand.cards,
        vec![
            Card { suit: '♥', rank: 'Q' },
            Card { suit: '♥', rank: '7' },
            Card { suit: '♣', rank: 'Q' }
        ]
    );
}

#[test]
fn accept_turns_down_a_card_of_the_hand() {
    let mut hand = Hand::from_str("Q♥ 7♥").unwrap();
    assert!(!hand.accept(Card { suit: '♥', rank: '7' }));
    assert_eq!(
        hand.cards,
        vec![Card { suit: '♥', rank: 'Q' }, Card { suit: '♥', rank: '7' }]
    );
}

#[test]
fn undealt_card_of_an_empty_hand_is_the_card_at_that_position() {
    let hand = Hand::default();
    for skip in 0..52 {
        assert_eq!(undealt_card(&hand, skip), Some(card_at(skip)));
    }
    assert_eq!(undealt_card(&hand, 52), None);
}

#[test]
fn undealt_card_leaves_out_the_cards_of_the_hand() {
    let hand = Hand::from_str("2♣ 3♣ 2♦").unwrap();
    assert_eq!(undealt_card(&hand, 0), Some(Card { suit: '♣', rank: '4' }));
    assert_eq!(undealt_card(&hand, 10), Some(Card { suit: '♣', rank: 'A' }));
    assert_eq!(undealt_card(&hand, 11), Some(Card { suit: '♦', rank: '3' }));
    assert_eq!(undealt_card(&hand, 48), Some(Card { suit: '♠', rank: 'A' }));
    assert_eq!(undealt_card(&hand, 49), None);
}

#[test]
fn undealt_card_finds_the_last_card_that_is_left() {
    let mut hand = Hand::default();
    for position in 0..52 {
        if position != 30 {
            hand.cards.push(card_at(position));
        }
    }
    assert_eq!(undealt_card(&hand, 0), Some(card_at(30)));
    assert_eq!(undealt_card(&hand, 1), None);
    hand.cards.push(card_at(30));
    assert_eq!(undealt_card(&hand, 0), None);
}
