use vstd::prelude::*;

use crate::card::{suit_index, Card, KING};
use crate::cascade::copy_cards;

verus! {

/// The four foundations, one per suit, in the order clubs, spades, hearts,
/// diamonds. Each is built up by its own suit from the ace to the king.
#[derive(Debug, PartialEq, Eq, Hash)]
pub struct Foundations(pub [Vec<Card>; 4]);

/// The foundations holding `piles` accept `card`: its rank is one above the
/// number of cards on its suit's foundation, so an ace starts an empty one,
/// and no card goes on a complete one.
pub open spec fn foundation_accepts(piles: Seq<Seq<Card>>, card: Card) -> bool {
    &&& card.rank == piles[suit_index(card.suit)].len() + 1
    &&& card.rank <= KING
}

/// A foundation holding `pile` is complete: it holds all thirteen ranks.
pub open spec fn foundation_complete(pile: Seq<Card>) -> bool {
    pile.len() == KING
}

impl View for Foundations {
    type V = Seq<Seq<Card>>;

    open spec fn view(&self) -> Seq<Seq<Card>> {
        self.0@.map_values(|v: Vec<Card>| v@)
    }
}

impl Foundations {
    /// Four empty foundations.
    pub fn new() -> (r: Foundations)
        ensures
            r@.len() == 4,
            forall|i: int| 0 <= i < 4 ==> (#[trigger] r@[i]).len() == 0,
    {
        Foundations([Vec::new(), Vec::new(), Vec::new(), Vec::new()])
    }

    /// Foundations holding the same cards.
    pub fn duplicate(&self) -> (r: Foundations)
        ensures
            r@ == self@,
    {
        let r = Foundations(
            [
                copy_cards(&self.0[0]),
                copy_cards(&self.0[1]),
                copy_cards(&self.0[2]),
                copy_cards(&self.0[3]),
            ],
        );
        assert(r@ =~= self@);
        r
    }

    /// The foundations with `card` put on its suit's foundation, or `Err`
    /// where the rules refuse it.
    pub fn add_card(&self, card: Card) -> (r: Result<Foundations, ()>)
        ensures
            r is Ok <==> foundation_accepts(self@, card),
            r is Ok ==> r->Ok_0@ == self@.update(
                suit_index(card.suit),
                self@[suit_index(card.suit)].push(card),
            ),
    {
        let s = card.suit.index();
        if card.rank >= 1 && card.rank <= KING && self.0[s].len() == (card.rank - 1) as usize {
            let mut r = self.duplicate();
            let mut pile = copy_cards(&self.0[s]);
            pile.push(card);
            r.0[s] = pile;
            assert(r@ =~= self@.update(suit_index(card.suit), self@[suit_index(card.suit)].push(card)));
            Ok(r)
        } else {
            Err(())
        }
    }

    /// Whether all four foundations are complete.
    pub fn is_complete(&self) -> (r: bool)
        ensures
            r == (forall|i: int| 0 <= i < 4 ==> foundation_complete(#[trigger] self@[i])),
    {
        let r = self.0[0].len() == 13 && self.0[1].len() == 13 && self.0[2].len() == 13
            && self.0[3].len() == 13;
        assert(r ==> forall|i: int| 0 <= i < 4 ==> foundation_complete(#[trigger] self@[i]));
        assert(!r ==> !foundation_complete(self@[0]) || !foundation_complete(self@[1])
            || !foundation_complete(self@[2]) || !foundation_complete(self@[3]));
        r
    }
}

} // verus!
