use vstd::prelude::*;

use crate::card::Card;

verus! {

/// The four free cells, each holding at most one card.
pub type Freecells = [Option<Card>; 4];

/// `j` is the first empty slot of `cells`.
pub open spec fn first_empty(cells: Seq<Option<Card>>, j: int) -> bool {
    &&& 0 <= j < cells.len()
    &&& cells[j] is None
    &&& forall|k: int| 0 <= k < j ==> (#[trigger] cells[k]) is Some
}

/// Some slot of `cells` is empty.
pub open spec fn has_empty(cells: Seq<Option<Card>>) -> bool {
    exists|j: int| 0 <= j < cells.len() && (#[trigger] cells[j]) is None
}

/// Every slot of `cells` is empty.
pub open spec fn all_empty(cells: Seq<Option<Card>>) -> bool {
    forall|j: int| 0 <= j < cells.len() ==> (#[trigger] cells[j]) is None
}

/// Taking the card out of slot `j` of `cells` leaves `rest` and hands out `card`.
pub open spec fn takes_slot(cells: Seq<Option<Card>>, j: int, rest: Seq<Option<Card>>, card: Card) -> bool {
    &&& 0 <= j < cells.len()
    &&& cells[j] == Some(card)
    &&& rest == cells.update(j, None)
}

/// Taking `card` out of some slot of `cells` leaves `rest`.
pub open spec fn takes_out(cells: Seq<Option<Card>>, rest: Seq<Option<Card>>, card: Card) -> bool {
    exists|j: int| takes_slot(cells, j, rest, card)
}

/// The free cells with `card` put into the first empty slot, or `Err` when
/// every slot is taken.
pub fn add_card(cells: &Freecells, card: Card) -> (r: Result<Freecells, ()>)
    ensures
        r is Ok <==> has_empty(cells@),
        r is Ok ==> exists|j: int|
            first_empty(cells@, j) && r->Ok_0@ == cells@.update(j, Some(card)),
{
    let mut j: usize = 0;
    while j < 4
        invariant
            j <= 4,
            forall|k: int| 0 <= k < j ==> (#[trigger] cells@[k]) is Some,
        decreases 4 - j,
    {
        if cells[j].is_none() {
            let mut r: Freecells = *cells;
            r[j] = Some(card);
            assert(first_empty(cells@, j as int));
            return Ok(r);
        }
        j = j + 1;
    }
    Err(())
}

/// Every way to take a card out of the free cells: exactly one for each slot
/// that holds a card, leaving that slot empty.
pub fn pop_card(cells: &Freecells) -> (r: Vec<(Freecells, Card)>)
    ensures
        r@.len() == 0 <==> all_empty(cells@),
        forall|k1: int, k2: int|
            0 <= k1 < k2 < r@.len() ==> (#[trigger] r@[k1]).0@ != (#[trigger] r@[k2]).0@,
        forall|k: int|
            0 <= k < r@.len() ==> takes_out(cells@, (#[trigger] r@[k]).0@, r@[k].1),
        forall|j: int|
            0 <= j < 4 && (#[trigger] cells@[j]) is Some ==> exists|k: int|
                0 <= k < r@.len() && takes_slot(cells@, j, r@[k].0@, r@[k].1),
{
    let mut r: Vec<(Freecells, Card)> = Vec::new();
    let mut j: usize = 0;
    while j < 4
        invariant
            j <= 4,
            r@.len() == 0 <==> forall|i: int| 0 <= i < j ==> (#[trigger] cells@[i]) is None,
            forall|k1: int, k2: int|
                0 <= k1 < k2 < r@.len() ==> (#[trigger] r@[k1]).0@ != (#[trigger] r@[k2]).0@,
            forall|k: int, i: int|
                0 <= k < r@.len() && j <= i < 4 ==> (#[trigger] r@[k]).0@[i] == #[trigger] cells@[i],
            forall|k: int|
                0 <= k < r@.len() ==> takes_out(cells@, (#[trigger] r@[k]).0@, r@[k].1),
            forall|i: int|
                0 <= i < j && (#[trigger] cells@[i]) is Some ==> exists|k: int|
                    0 <= k < r@.len() && takes_slot(cells@, i, r@[k].0@, r@[k].1),
        decreases 4 - j,
    {
        match cells[j] {
            Some(card) => {
                let mut rest: Freecells = *cells;
                rest[j] = None;
                assert(takes_slot(cells@, j as int, rest@, card));
                let ghost before = r@;
                r.push((rest, card));
                assert forall|k1: int, k2: int|
                    0 <= k1 < k2 < r@.len() implies (#[trigger] r@[k1]).0@ != (#[trigger] r@[k2]).0@ by {
                    if k2 == before.len() {
                        assert(r@[k1] == before[k1]);
                        assert(r@[k1].0@[j as int] == cells@[j as int]);
                        assert(r@[k2].0@[j as int] is None);
                    } else {
                        assert(r@[k1] == before[k1]);
                        assert(r@[k2] == before[k2]);
                    }
                }
                assert forall|k: int, i: int|
                    0 <= k < r@.len() && j + 1 <= i < 4 implies (#[trigger] r@[k]).0@[i] == #[trigger] cells@[i] by {
                    if k < before.len() {
                        assert(r@[k] == before[k]);
                    }
                }
                assert forall|k: int| 0 <= k < r@.len() implies
                    takes_out(cells@, (#[trigger] r@[k]).0@, r@[k].1) by {
                    if k < before.len() {
                        assert(r@[k] == before[k]);
                    } else {
                        assert(takes_slot(cells@, j as int, r@[k].0@, r@[k].1));
                    }
                }
                assert forall|i: int| 0 <= i <= j && (#[trigger] cells@[i]) is Some implies exists|k: int|
                    0 <= k < r@.len() && takes_slot(cells@, i, r@[k].0@, r@[k].1) by {
                    if i < j {
                        let k = choose|k: int| 0 <= k < before.len() && takes_slot(cells@, i, before[k].0@, before[k].1);
                        assert(r@[k] == before[k]);
                    } else {
                        assert(takes_slot(cells@, i, r@[before.len() as int].0@, r@[before.len() as int].1));
                    }
                }
            },
            None => {},
        }
        j = j + 1;
    }
    r
}

} // verus!
