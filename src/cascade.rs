use vstd::prelude::*;

use crate::card::{colour_of, Card};

verus! {

/// A stack of arbitrary cards; the end of the `Vec` is the top of the stack.
///
/// A card can be put on a non-empty cascade iff its rank is one lower than
/// that of the top card and its colour differs from the top card's. Any card
/// can be put on an empty cascade. Only the top card can be removed.
#[derive(Clone, Debug, Default, PartialEq, Eq, Hash)]
pub struct Cascade(pub Vec<Card>);

/// The eight cascades of a game.
pub type Cascades = [Cascade; 8];

/// `lower` may be put on top of `higher`.
pub open spec fn fits_on(lower: Card, higher: Card) -> bool {
    colour_of(lower.suit) != colour_of(higher.suit) && lower.rank + 1 == higher.rank
}

/// A cascade holding `pile` accepts `card`.
pub open spec fn cascade_accepts(pile: Seq<Card>, card: Card) -> bool {
    pile.len() == 0 || fits_on(card, pile.last())
}

/// What adding `card` to a cascade holding `pile` gives.
pub open spec fn cascade_add(pile: Seq<Card>, card: Card) -> Option<Seq<Card>> {
    if cascade_accepts(pile, card) {
        Some(pile.push(card))
    } else {
        None
    }
}

/// What removing a card from a cascade holding `pile` offers: nothing when it
/// is empty, else its top card with the rest of the pile.
pub open spec fn cascade_pop(pile: Seq<Card>) -> Seq<(Seq<Card>, Card)> {
    if pile.len() == 0 {
        Seq::empty()
    } else {
        seq![(pile.drop_last(), pile.last())]
    }
}

/// A copy of a sequence of cards.
pub fn copy_cards(cards: &Vec<Card>) -> (r: Vec<Card>)
    ensures
        r@ == cards@,
{
    let mut r: Vec<Card> = Vec::new();
    let mut i: usize = 0;
    while i < cards.len()
        invariant
            i <= cards@.len(),
            r@ == cards@.subrange(0, i as int),
        decreases cards@.len() - i,
    {
        r.push(cards[i]);
        i = i + 1;
    }
    assert(r@ =~= cards@);
    r
}

/// Whether `lower_card` may be put on top of `higher_card`.
pub fn fits_on_top_of(lower_card: Card, higher_card: Card) -> (r: bool)
    ensures
        r == fits_on(lower_card, higher_card),
{
    lower_card.suit.colour() != higher_card.suit.colour() && lower_card.rank as u16 + 1
        == higher_card.rank as u16
}

impl View for Cascade {
    type V = Seq<Card>;

    open spec fn view(&self) -> Seq<Card> {
        self.0@
    }
}

impl Cascade {
    /// Creates an empty cascade.
    pub fn new() -> (r: Cascade)
        ensures
            r@ == Seq::<Card>::empty(),
    {
        Cascade(Vec::new())
    }

    /// A cascade holding the same cards.
    pub fn duplicate(&self) -> (r: Cascade)
        ensures
            r@ == self@,
    {
        Cascade(copy_cards(&self.0))
    }

    /// The cascade with `card` put on top, or `Err` where the rules refuse it.
    pub fn add_card(&self, card: Card) -> (r: Result<Cascade, ()>)
        ensures
            r is Ok <==> cascade_accepts(self@, card),
            r is Ok ==> r->Ok_0@ == self@.push(card),
    {
        let n = self.0.len();
        if n == 0 {
            let mut v: Vec<Card> = Vec::new();
            v.push(card);
            Ok(Cascade(v))
        } else {
            let top_card = self.0[n - 1];
            if fits_on_top_of(card, top_card) {
                let mut v = copy_cards(&self.0);
                v.push(card);
                Ok(Cascade(v))
            } else {
                Err(())
            }
        }
    }

    /// Every way to take a card off this cascade: none when it is empty, else
    /// the top card with the rest of the cascade.
    pub fn pop_card(&self) -> (r: Vec<(Cascade, Card)>)
        ensures
            r@.len() == cascade_pop(self@).len(),
            forall|k: int|
                0 <= k < r@.len() ==> (#[trigger] r@[k]).0@ == cascade_pop(self@)[k].0 && r@[k].1
                    == cascade_pop(self@)[k].1,
    {
        let mut rest = copy_cards(&self.0);
        let mut r: Vec<(Cascade, Card)> = Vec::new();
        match rest.pop() {
            Some(card) => {
                r.push((Cascade(rest), card));
            },
            None => {},
        }
        r
    }
}

} // verus!
