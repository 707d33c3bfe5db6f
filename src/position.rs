use vstd::prelude::*;

use crate::card::Card;

verus! {

/// A place that a card can move from or to.
#[derive(Clone, Copy, Debug, PartialEq, Eq, Structural, Hash)]
pub enum Position {
    /// The cascade with this index, counted from 0.
    Cascade(usize),
    /// The foundation of the card's suit.
    Foundations,
    /// A free cell.
    Freecells,
}

/// One card moved from one place to another.
#[derive(Clone, Copy, Debug, PartialEq, Eq, Structural, Hash)]
pub struct GameMove {
    pub from: Position,
    pub to: Position,
    pub card: Card,
}

} // verus!
