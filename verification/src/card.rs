//! A single card: the two alphabets it is drawn from, the display names of
//! ranks and suits, and the text form of a card.

use vstd::prelude::*;

use crate::text::chars_of;

verus! {

/// A playing card.
///
/// `rank` is a character of `23456789TJQKA` (`T` stands for ten) and `suit` is
/// one of `♣ ♦ ♥ ♠`. Cards that come out of this library always satisfy
/// [`Card::wf`]; the fields are public, so a caller can build one that does not.
#[derive(Debug, Clone, Copy, PartialEq, Eq, Structural)]
pub struct Card {
    pub suit: char,
    pub rank: char,
}

/// The suits, in the order clubs, diamonds, hearts, spades.
pub open spec fn nth_suit(i: int) -> char {
    if i == 0 {
        '♣'
    } else if i == 1 {
        '♦'
    } else if i == 2 {
        '♥'
    } else {
        '♠'
    }
}

/// The position of a suit in the order clubs, diamonds, hearts, spades,
/// counted from 0; -1 for a character that is no suit.
pub open spec fn suit_index(suit: char) -> int {
    if suit == '♣' {
        0
    } else if suit == '♦' {
        1
    } else if suit == '♥' {
        2
    } else if suit == '♠' {
        3
    } else {
        -1
    }
}

/// Whether `c` is one of the four suit glyphs.
pub open spec fn is_suit(c: char) -> bool {
    suit_index(c) >= 0
}

/// The position of a rank in the order `2 < 3 < ... < 9 < T < J < Q < K < A`,
/// counted from 0; -1 for a character that is no rank.
pub open spec fn rank_index(rank: char) -> int {
    if rank == '2' {
        0
    } else if rank == '3' {
        1
    } else if rank == '4' {
        2
    } else if rank == '5' {
        3
    } else if rank == '6' {
        4
    } else if rank == '7' {
        5
    } else if rank == '8' {
        6
    } else if rank == '9' {
        7
    } else if rank == 'T' {
        8
    } else if rank == 'J' {
        9
    } else if rank == 'Q' {
        10
    } else if rank == 'K' {
        11
    } else if rank == 'A' {
        12
    } else {
        -1
    }
}

/// The rank at position `i` of the rank order; the inverse of [`rank_index`]
/// on `0..13`.
pub open spec fn nth_rank(i: int) -> char {
    if i == 0 {
        '2'
    } else if i == 1 {
        '3'
    } else if i == 2 {
        '4'
    } else if i == 3 {
        '5'
    } else if i == 4 {
        '6'
    } else if i == 5 {
        '7'
    } else if i == 6 {
        '8'
    } else if i == 7 {
        '9'
    } else if i == 8 {
        'T'
    } else if i == 9 {
        'J'
    } else if i == 10 {
        'Q'
    } else if i == 11 {
        'K'
    } else {
        'A'
    }
}

/// Whether `c` is one of the thirteen rank characters.
pub open spec fn is_rank(c: char) -> bool {
    rank_index(c) >= 0
}

/// The display name of a rank: the number for `2` to `9`, `10` for `T`, and
/// `jack`, `queen`, `king`, `ace` for the court cards and the ace. Any other
/// character stands for itself.
pub open spec fn spec_rank_name(rank: char) -> Seq<char> {
    if rank == 'T' {
        "10"@
    } else if rank == 'J' {
        "jack"@
    } else if rank == 'Q' {
        "queen"@
    } else if rank == 'K' {
        "king"@
    } else if rank == 'A' {
        "ace"@
    } else {
        seq![rank]
    }
}

/// The display name of a suit; `invalid` for a character that is no suit.
pub open spec fn spec_suit_name(suit: char) -> Seq<char> {
    if suit == '♣' {
        "clubs"@
    } else if suit == '♦' {
        "diamonds"@
    } else if suit == '♥' {
        "hearts"@
    } else if suit == '♠' {
        "spades"@
    } else {
        "invalid"@
    }
}

impl Card {
    /// Whether both fields hold a character of their alphabet.
    pub open spec fn wf(&self) -> bool {
        is_rank(self.rank) && is_suit(self.suit)
    }

    /// The display text of a card: the name of its rank, ` of `, and the name
    /// of its suit.
    pub open spec fn spec_to_string(&self) -> Seq<char> {
        spec_rank_name(self.rank) + " of "@ + spec_suit_name(self.suit)
    }
}

/// The card that a token spells, if it spells one. A token spells a card
/// when it is a rank character other than `T` followed by a suit glyph, or
/// `10` followed by a suit glyph, which gives the rank `T`.
pub open spec fn parse_card(token: Seq<char>) -> Option<Card> {
    if token.len() == 2 && is_rank(token[0]) && token[0] != 'T' && is_suit(token[1]) {
        Some(Card { suit: token[1], rank: token[0] })
    } else if token.len() == 3 && token[0] == '1' && token[1] == '0' && is_suit(token[2]) {
        Some(Card { suit: token[2], rank: 'T' })
    } else {
        None
    }
}

/// The token that spells `card`.
pub open spec fn card_token(card: Card) -> Seq<char> {
    if card.rank == 'T' {
        seq!['1', '0', card.suit]
    } else {
        seq![card.rank, card.suit]
    }
}

/// What is reported of a token that spells no card.
pub open spec fn bad_card_message(token: Seq<char>) -> Seq<char> {
    "bad card string \""@ + token + "\""@
}

/// The rank order and the order of the suits number the thirteen ranks and
/// the four suits: position and character determine each other.
pub proof fn lemma_alphabets(i: int, c: char)
    ensures
        0 <= i < 13 ==> is_rank(nth_rank(i)) && rank_index(nth_rank(i)) == i,
        0 <= i < 4 ==> is_suit(nth_suit(i)) && suit_index(nth_suit(i)) == i,
        is_rank(c) ==> 0 <= rank_index(c) < 13 && nth_rank(rank_index(c)) == c,
        is_suit(c) ==> 0 <= suit_index(c) < 4 && nth_suit(suit_index(c)) == c,
{
}

/// Reading a card back from its token gives the card: every well formed
/// card has a token, and [`parse_card`] finds rank and suit in it again.
pub proof fn lemma_parse_card_token(card: Card)
    requires
        card.wf(),
    ensures
        parse_card(card_token(card)) == Some(card),
{
}

/// A token spells at most one card, that card is well formed, and the token
/// is the one that [`card_token`] gives for it.
pub proof fn lemma_parse_card_sound(token: Seq<char>)
    ensures
        parse_card(token) matches Some(card) ==> card.wf() && card_token(card) == token,
{
    if let Some(card) = parse_card(token) {
        assert(card_token(card) =~= token);
    }
}

/// The display text of a well formed card tells its rank and its suit: two
/// such cards with the same text are the same card.
pub proof fn lemma_display_tells_card(a: Card, b: Card)
    requires
        a.wf(),
        b.wf(),
        a.spec_to_string() == b.spec_to_string(),
    ensures
        a == b,
{
    reveal_strlit("10");
    reveal_strlit("jack");
    reveal_strlit("queen");
    reveal_strlit("king");
    reveal_strlit("ace");
    reveal_strlit(" of ");
    reveal_strlit("clubs");
    reveal_strlit("diamonds");
    reveal_strlit("hearts");
    reveal_strlit("spades");
    let name_a = spec_rank_name(a.rank);
    let name_b = spec_rank_name(b.rank);
    let text_a = a.spec_to_string();
    let text_b = b.spec_to_string();
    assert(name_a.len() >= 1 && name_b.len() >= 1);
    assert(text_a[0] == name_a[0]);
    assert(text_b[0] == name_b[0]);
    assert(a.rank == b.rank);
    let at: int = name_a.len() as int + 4;
    assert(text_a[at] == spec_suit_name(a.suit)[0]);
    assert(text_b[at] == spec_suit_name(b.suit)[0]);
    assert(a.suit == b.suit);
}

/// Reading a card from its token and displaying it names the rank and the
/// suit that the token was written for, and no other card has that text.
pub proof fn lemma_parse_display_round_trip(rank: char, suit: char)
    requires
        is_rank(rank),
        is_suit(suit),
    ensures
        parse_card(card_token(Card { suit, rank })) == Some(Card { suit, rank }),
        parse_card(card_token(Card { suit, rank })).unwrap().spec_to_string() == spec_rank_name(
            rank,
        ) + " of "@ + spec_suit_name(suit),
        forall|other: Card|
            other.wf() && other.spec_to_string() == (Card { suit, rank }).spec_to_string()
                ==> other == (Card { suit, rank }),
{
    let card = Card { suit, rank };
    lemma_parse_card_token(card);
    assert forall|other: Card|
        other.wf() && other.spec_to_string() == card.spec_to_string() implies other == card by {
        lemma_display_tells_card(other, card);
    }
}

/// `String::push` of std: the string afterwards is the string before with `c`
/// added at its end.
#[verifier::external_body]
fn push_char(text: &mut String, c: char)
    ensures
        final(text)@ == old(text)@.push(c),
{
    text.push(c);
}

/// The rank at position `index` of the rank order.
pub fn rank_at(index: usize) -> (rank: char)
    requires
        index < 13,
    ensures
        rank == nth_rank(index as int),
        is_rank(rank),
        rank_index(rank) == index,
{
    match index {
        0 => '2',
        1 => '3',
        2 => '4',
        3 => '5',
        4 => '6',
        5 => '7',
        6 => '8',
        7 => '9',
        8 => 'T',
        9 => 'J',
        10 => 'Q',
        11 => 'K',
        _ => 'A',
    }
}

/// The suit at position `index` of the order clubs, diamonds, hearts, spades.
pub fn suit_at(index: usize) -> (suit: char)
    requires
        index < 4,
    ensures
        suit == nth_suit(index as int),
        is_suit(suit),
        suit_index(suit) == index,
{
    match index {
        0 => '♣',
        1 => '♦',
        2 => '♥',
        _ => '♠',
    }
}

/// The position of `rank` in the rank order, or `None` for a character that
/// is no rank.
pub fn rank_position(rank: char) -> (position: Option<usize>)
    ensures
        match position {
            Some(i) => is_rank(rank) && i == rank_index(rank),
            None => !is_rank(rank),
        },
{
    match rank {
        '2' => Some(0),
        '3' => Some(1),
        '4' => Some(2),
        '5' => Some(3),
        '6' => Some(4),
        '7' => Some(5),
        '8' => Some(6),
        '9' => Some(7),
        'T' => Some(8),
        'J' => Some(9),
        'Q' => Some(10),
        'K' => Some(11),
        'A' => Some(12),
        _ => None,
    }
}

/// The position of `suit` in the order clubs, diamonds, hearts, spades, or
/// `None` for a character that is no suit.
pub fn suit_position(suit: char) -> (position: Option<usize>)
    ensures
        match position {
            Some(i) => is_suit(suit) && i == suit_index(suit),
            None => !is_suit(suit),
        },
{
    match suit {
        '♣' => Some(0),
        '♦' => Some(1),
        '♥' => Some(2),
        '♠' => Some(3),
        _ => None,
    }
}

/// A position of the rank order as a signed number.
fn signed_position(position: usize) -> (signed: i8)
    requires
        position < 13,
    ensures
        signed == position,
{
    position as i8
}

/// How far `rank2` stands above `rank1` in the rank order: positive when
/// `rank2` is the stronger rank, negative when it is the weaker, 0 when the
/// two are the same.
pub fn rank_cmp(rank1: char, rank2: char) -> (distance: i8)
    requires
        is_rank(rank1),
        is_rank(rank2),
    ensures
        distance == rank_index(rank2) - rank_index(rank1),
{
    let index1: i8 = signed_position(rank_position(rank1).unwrap());
    let index2: i8 = signed_position(rank_position(rank2).unwrap());
    index2 - index1
}

/// The display name of `rank`.
pub fn rank_name(rank: char) -> (name: String)
    ensures
        name@ == spec_rank_name(rank),
{
    match rank {
        'T' => "10".to_owned(),
        'J' => "jack".to_owned(),
        'Q' => "queen".to_owned(),
        'K' => "king".to_owned(),
        'A' => "ace".to_owned(),
        other => {
            let mut name = String::new();
            push_char(&mut name, other);
            name
        },
    }
}

/// The display name of `suit`.
pub fn suit_name(suit: char) -> (name: String)
    ensures
        name@ == spec_suit_name(suit),
{
    let name = match suit {
        '♣' => "clubs",
        '♦' => "diamonds",
        '♥' => "hearts",
        '♠' => "spades",
        _ => "invalid",
    };
    name.to_owned()
}

impl Card {
    /// Tests [`Card::wf`].
    pub fn is_valid(&self) -> (valid: bool)
        ensures
            valid == self.wf(),
    {
        rank_position(self.rank).is_some() && suit_position(self.suit).is_some()
    }

    /// The display text of the card, such as `king of hearts`.
    pub fn to_string(&self) -> (text: String)
        ensures
            text@ == self.spec_to_string(),
    {
        let mut text = rank_name(self.rank);
        text.append(" of ");
        text.append(suit_name(self.suit).as_str());
        text
    }

    /// The card that `letters` spell, if they spell one.
    pub fn from_chars(letters: &Vec<char>) -> (card: Option<Card>)
        ensures
            card == parse_card(letters@),
    {
        if letters.len() == 2 {
            let rank = letters[0];
            let suit = letters[1];
            if rank != 'T' && rank_position(rank).is_some() && suit_position(suit).is_some() {
                Some(Card { suit, rank })
            } else {
                None
            }
        } else if letters.len() == 3 {
            let suit = letters[2];
            if letters[0] == '1' && letters[1] == '0' && suit_position(suit).is_some() {
                Some(Card { suit, rank: 'T' })
            } else {
                None
            }
        } else {
            None
        }
    }

    /// Reads a card from a token of two or three characters, such as `K♥` or
    /// `10♠`. A token that spells no card is reported back in the error.
    pub fn from_str(s: &str) -> (result: Result<Card, String>)
        ensures
            match parse_card(s@) {
                Some(card) => result == Ok::<Card, String>(card) && card.wf(),
                None => result is Err && result->Err_0@ == bad_card_message(s@),
            },
    {
        let letters = chars_of(s);
        match Card::from_chars(&letters) {
            Some(card) => Ok(card),
            None => {
                let mut message = "bad card string \"".to_owned();
                message.append(s);
                message.append("\"");
                Err(message)
            },
        }
    }
}

} // verus!
