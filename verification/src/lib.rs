//! Playing cards and poker hands: reading them from text, dealing them at
//! random, and naming the category that a hand of five cards falls in.
//!
//! - [`card`]: a card, the rank order and the suits, their names, and the
//!   tokens such as `K♥` and `10♠` that spell a card.
//! - [`hand`]: a hand of cards, read from text and shown as text.
//! - [`classify`]: the category of a hand, from `royal flush` down to
//!   `high card`, and the signals that decide it.
//! - [`deal`]: hands dealt at random from a deck of 52 cards.
//! - [`text`]: text as characters and words.
//!
//! What a function returns is stated over the `spec` functions beside it; the
//! `proof` functions state what those mean.

#![allow(unused_imports)]

pub mod card;
pub mod classify;
pub mod deal;
pub mod hand;
pub mod text;

pub use card::{rank_cmp, rank_name, suit_name, Card};
pub use classify::{get_suit, is_straight};
pub use deal::deal;
pub use hand::Hand;
