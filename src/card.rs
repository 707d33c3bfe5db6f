use vstd::prelude::*;

verus! {

/// Rank of an ace.
pub const ACE: u8 = 1;

/// Rank of a jack.
pub const JACK: u8 = 11;

/// Rank of a queen.
pub const QUEEN: u8 = 12;

/// Rank of a king.
pub const KING: u8 = 13;

/// The colour of a suit.
#[derive(Clone, Copy, Debug, PartialEq, Eq, Structural, Hash)]
pub enum Colour {
    Black,
    Red,
}

/// One of the four suits of a deck.
#[derive(Clone, Copy, Debug, PartialEq, Eq, Structural, Hash, PartialOrd, Ord)]
pub enum Suit {
    Club,
    Spade,
    Heart,
    Diamond,
}

/// A playing card. Ranks run from 1 (ace) to 13 (king).
#[derive(Clone, Copy, Debug, PartialEq, Eq, Structural, Hash, PartialOrd, Ord)]
pub struct Card {
    pub suit: Suit,
    pub rank: u8,
}

/// The colour of a suit: clubs and spades are black, hearts and diamonds red.
pub open spec fn colour_of(suit: Suit) -> Colour {
    match suit {
        Suit::Club | Suit::Spade => Colour::Black,
        Suit::Heart | Suit::Diamond => Colour::Red,
    }
}

/// The place of a suit among the four foundations: clubs, spades, hearts, diamonds.
pub open spec fn suit_index(suit: Suit) -> int {
    match suit {
        Suit::Club => 0,
        Suit::Spade => 1,
        Suit::Heart => 2,
        Suit::Diamond => 3,
    }
}

impl Suit {
    pub fn colour(&self) -> (r: Colour)
        ensures
            r == colour_of(*self),
    {
        match self {
            Suit::Club | Suit::Spade => Colour::Black,
            Suit::Heart | Suit::Diamond => Colour::Red,
        }
    }

    /// The index of this suit's foundation.
    pub fn index(&self) -> (r: usize)
        ensures
            r as int == suit_index(*self),
            r < 4,
    {
        match self {
            Suit::Club => 0,
            Suit::Spade => 1,
            Suit::Heart => 2,
            Suit::Diamond => 3,
        }
    }
}

} // verus!
