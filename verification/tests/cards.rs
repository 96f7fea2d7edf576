use poker::card::{rank_at, rank_position, suit_at, suit_position};
use poker::{rank_cmp, rank_name, suit_name, Card};

const RANKS: [char; 13] = ['2', '3', '4', '5', '6', '7', '8', '9', 'T', 'J', 'Q', 'K', 'A'];
const SUITS: [char; 4] = ['♣', '♦', '♥', '♠'];

fn token(rank: char, suit: char) -> String {
    if rank == 'T' {
        format!("10{}", suit)
    } else {
        format!("{}{}", rank, suit)
    }
}

fn bad(token: &str) -> Result<Card, String> {
    Err(format!("bad card string \"{}\"", token))
}

#[test]
fn card_from_str_reads_rank_and_suit() {
    let card = Card::from_str("K♠").unwrap();
    assert_eq!(card.rank, 'K');
    assert_eq!(card.suit, '♠');
    let card = Card::from_str("2♣").unwrap();
    assert_eq!(card, Card { suit: '♣', rank: '2' });
}

#[test]
fn card_from_str_reads_ten_as_t() {
    let card = Card::from_str("10♥").unwrap();
    assert_eq!(card.rank, 'T');
    assert_eq!(card.suit, '♥');
}

#[test]
fn card_from_str_refuses_a_bare_t() {
    let result = Card::from_str("T♥");
    assert_eq!(result, Err(String::from("bad card string \"T♥\"")));
    assert!(Card::from_str("10♥").is_ok());
}

#[test]
fn card_from_str_refuses_wrong_lengths() {
    assert_eq!(Card::from_str(""), bad(""));
    assert_eq!(Card::from_str("K"), bad("K"));
    assert_eq!(Card::from_str("♥"), bad("♥"));
    assert_eq!(Card::from_str("10♥♥"), bad("10♥♥"));
    assert_eq!(Card::from_str("K♥ K♥"), bad("K♥ K♥"));
}

#[test]
fn card_from_str_refuses_a_bad_rank() {
    assert_eq!(Card::from_str("X♥"), bad("X♥"));
    assert_eq!(Card::from_str("0♥"), bad("0♥"));
    assert_eq!(Card::from_str("k♥"), bad("k♥"));
    assert_eq!(Card::from_str("♥♥"), bad("♥♥"));
}

#[test]
fn card_from_str_refuses_a_one_without_zero() {
    assert_eq!(Card::from_str("1♥"), bad("1♥"));
    assert_eq!(Card::from_str("11♥"), bad("11♥"));
    assert_eq!(Card::from_str("1♥♥"), bad("1♥♥"));
    assert_eq!(Card::from_str("10"), bad("10"));
}

#[test]
fn card_from_str_refuses_a_bad_suit() {
    assert_eq!(Card::from_str("Kx"), bad("Kx"));
    assert_eq!(Card::from_str("KH"), bad("KH"));
    assert_eq!(Card::from_str("10x"), bad("10x"));
    assert_eq!(Card::from_str("K♡"), bad("K♡"));
}

#[test]
fn card_from_str_refuses_three_characters_that_are_no_ten() {
    assert_eq!(Card::from_str("K♥♠"), bad("K♥♠"));
    assert_eq!(Card::from_str("K♥x"), bad("K♥x"));
    assert_eq!(Card::from_str("Kx♠"), bad("Kx♠"));
    assert_eq!(Card::from_str("T0♠"), bad("T0♠"));
}

#[test]
fn card_from_chars_agrees_with_from_str() {
    assert_eq!(
        Card::from_chars(&vec!['Q', '♦']),
        Some(Card { suit: '♦', rank: 'Q' })
    );
    assert_eq!(
        Card::from_chars(&vec!['1', '0', '♣']),
        Some(Card { suit: '♣', rank: 'T' })
    );
    assert_eq!(Card::from_chars(&vec!['T', '♣']), None);
    assert_eq!(Card::from_chars(&vec![]), None);
}

#[test]
fn every_card_is_read_back_from_its_token() {
    for rank in RANKS {
        for suit in SUITS {
            let card = Card::from_str(&token(rank, suit)).unwrap();
            assert_eq!(card, Card { suit, rank });
            assert!(card.is_valid());
            assert_eq!(
                card.to_string(),
                format!("{} of {}", rank_name(rank), suit_name(suit))
            );
        }
    }
}

#[test]
fn no_two_cards_share_a_display_text() {
    let mut texts: Vec<String> = Vec::new();
    for rank in RANKS {
        for suit in SUITS {
            let text = Card { suit, rank }.to_string();
            assert!(!texts.contains(&text));
            texts.push(text);
        }
    }
    assert_eq!(texts.len(), 52);
}

#[test]
fn card_to_string_names_rank_and_suit() {
    assert_eq!(Card::from_str("K♥").unwrap().to_string(), "king of hearts");
    assert_eq!(Card::from_str("10♠").unwrap().to_string(), "10 of spades");
    assert_eq!(Card::from_str("4♦").unwrap().to_string(), "4 of diamonds");
    assert_eq!(Card::from_str("A♣").unwrap().to_string(), "ace of clubs");
}

#[test]
fn card_to_string_of_a_card_that_is_not_valid() {
    let card = Card { suit: 'x', rank: 'y' };
    assert!(!card.is_valid());
    assert_eq!(card.to_string(), "y of invalid");
}

#[test]
fn card_is_valid_tests_both_fields() {
    assert!(Card { suit: '♥', rank: 'T' }.is_valid());
    assert!(!Card { suit: '♥', rank: '1' }.is_valid());
    assert!(!Card { suit: 'h', rank: 'K' }.is_valid());
}

#[test]
fn rank_cmp_is_the_distance_in_the_rank_order() {
    assert_eq!(rank_cmp('T', 'K'), 3);
    assert_eq!(rank_cmp('K', 'T'), -3);
    assert_eq!(rank_cmp('A', 'A'), 0);
    assert_eq!(rank_cmp('2', 'A'), 12);
    assert_eq!(rank_cmp('A', '2'), -12);
    assert_eq!(rank_cmp('9', 'T'), 1);
}

#[test]
fn rank_cmp_orders_all_ranks() {
    for (i, low) in RANKS.iter().enumerate() {
        for (j, high) in RANKS.iter().enumerate() {
            assert_eq!(rank_cmp(*low, *high) as i32, j as i32 - i as i32);
        }
    }
}

#[test]
fn rank_name_names_every_rank() {
    assert_eq!(rank_name('T'), "10");
    assert_eq!(rank_name('J'), "jack");
    assert_eq!(rank_name('Q'), "queen");
    assert_eq!(rank_name('K'), "king");
    assert_eq!(rank_name('A'), "ace");
    assert_eq!(rank_name('2'), "2");
    assert_eq!(rank_name('9'), "9");
}

#[test]
fn rank_name_of_another_character_is_the_character() {
    assert_eq!(rank_name(' '), " ");
    assert_eq!(rank_name('x'), "x");
    assert_eq!(rank_name('♥'), "♥");
}

#[test]
fn suit_name_names_every_suit() {
    assert_eq!(suit_name('♣'), "clubs");
    assert_eq!(suit_name('♦'), "diamonds");
    assert_eq!(suit_name('♥'), "hearts");
    assert_eq!(suit_name('♠'), "spades");
}

#[test]
fn suit_name_of_another_character_is_invalid() {
    assert_eq!(suit_name('?'), "invalid");
    assert_eq!(suit_name('K'), "invalid");
}

#[test]
fn rank_positions_follow_the_rank_order() {
    for (i, rank) in RANKS.iter().enumerate() {
        assert_eq!(rank_at(i), *rank);
        assert_eq!(rank_position(*rank), Some(i));
    }
    assert_eq!(rank_position('1'), None);
    assert_eq!(rank_position('t'), None);
}

#[test]
fn suit_positions_follow_the_order_of_the_suits() {
    for (i, suit) in SUITS.iter().enumerate() {
        assert_eq!(suit_at(i), *suit);
        assert_eq!(suit_position(*suit), Some(i));
    }
    assert_eq!(suit_position('♡'), None);
}
