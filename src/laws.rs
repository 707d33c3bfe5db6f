use vstd::multiset::Multiset;
use vstd::prelude::*;

use crate::card::{suit_index, Card};
use crate::freecells::{first_empty, has_empty, takes_out, takes_slot};
use crate::game_state::{adds, legal_move, removes, well_shaped, GameStateView};
use crate::position::{GameMove, Position};

verus! {

/// All cards of a row of piles.
pub open spec fn cards_in_piles(piles: Seq<Seq<Card>>) -> Multiset<Card>
    decreases piles.len(),
{
    if piles.len() == 0 {
        Multiset::empty()
    } else {
        cards_in_piles(piles.drop_last()).add(piles.last().to_multiset())
    }
}

/// The card of a free cell, if it holds one.
pub open spec fn cell_cards(cell: Option<Card>) -> Multiset<Card> {
    match cell {
        Some(c) => Multiset::singleton(c),
        None => Multiset::empty(),
    }
}

/// All cards of a row of free cells.
pub open spec fn cards_in_cells(cells: Seq<Option<Card>>) -> Multiset<Card>
    decreases cells.len(),
{
    if cells.len() == 0 {
        Multiset::empty()
    } else {
        cards_in_cells(cells.drop_last()).add(cell_cards(cells.last()))
    }
}

/// Every card of a game state, wherever it lies.
pub open spec fn cards_of(s: GameStateView) -> Multiset<Card> {
    cards_in_piles(s.cascades).add(cards_in_piles(s.foundations)).add(cards_in_cells(s.freecells))
}

proof fn lemma_piles_update(piles: Seq<Seq<Card>>, i: int, pile: Seq<Card>)
    requires
        0 <= i < piles.len(),
    ensures
        cards_in_piles(piles.update(i, pile)).add(piles[i].to_multiset()) == cards_in_piles(piles).add(
            pile.to_multiset(),
        ),
    decreases piles.len(),
{
    let u = piles.update(i, pile);
    let dl = piles.drop_last();
    let old_ms = piles[i].to_multiset();
    let new_ms = pile.to_multiset();
    if i == piles.len() - 1 {
        assert(u.drop_last() =~= dl);
        let a = cards_in_piles(dl);
        assert(cards_in_piles(u) == a.add(new_ms));
        assert(cards_in_piles(piles) == a.add(old_ms));
        assert(a.add(new_ms).add(old_ms) =~= a.add(old_ms).add(new_ms));
    } else {
        assert(u.drop_last() =~= dl.update(i, pile));
        lemma_piles_update(dl, i, pile);
        assert(dl[i] == piles[i]);
        let l = piles.last().to_multiset();
        assert(cards_in_piles(u) == cards_in_piles(dl.update(i, pile)).add(l));
        assert(cards_in_piles(piles) == cards_in_piles(dl).add(l));
        let x = cards_in_piles(dl.update(i, pile));
        let y = cards_in_piles(dl);
        assert(x.add(old_ms) == y.add(new_ms));
        assert(x.add(l).add(old_ms) =~= x.add(old_ms).add(l));
        assert(y.add(l).add(new_ms) =~= y.add(new_ms).add(l));
    }
}

proof fn lemma_cells_update(cells: Seq<Option<Card>>, i: int, cell: Option<Card>)
    requires
        0 <= i < cells.len(),
    ensures
        cards_in_cells(cells.update(i, cell)).add(cell_cards(cells[i])) == cards_in_cells(cells).add(
            cell_cards(cell),
        ),
    decreases cells.len(),
{
    let u = cells.update(i, cell);
    let dl = cells.drop_last();
    let old_ms = cell_cards(cells[i]);
    let new_ms = cell_cards(cell);
    if i == cells.len() - 1 {
        assert(u.drop_last() =~= dl);
        let a = cards_in_cells(dl);
        assert(cards_in_cells(u) == a.add(new_ms));
        assert(cards_in_cells(cells) == a.add(old_ms));
        assert(a.add(new_ms).add(old_ms) =~= a.add(old_ms).add(new_ms));
    } else {
        assert(u.drop_last() =~= dl.update(i, cell));
        lemma_cells_update(dl, i, cell);
        assert(dl[i] == cells[i]);
        let l = cell_cards(cells.last());
        assert(cards_in_cells(u) == cards_in_cells(dl.update(i, cell)).add(l));
        assert(cards_in_cells(cells) == cards_in_cells(dl).add(l));
        let x = cards_in_cells(dl.update(i, cell));
        let y = cards_in_cells(dl);
        assert(x.add(old_ms) == y.add(new_ms));
        assert(x.add(l).add(old_ms) =~= x.add(old_ms).add(l));
        assert(y.add(l).add(new_ms) =~= y.add(new_ms).add(l));
    }
}

/// Taking a card from a pile leaves the other cards where they were.
proof fn lemma_removes_card(s: GameStateView, pos: Position, card: Card, mid: GameStateView)
    requires
        well_shaped(s),
        removes(s, pos, card, mid),
    ensures
        cards_of(mid).insert(card) == cards_of(s),
{
    broadcast use vstd::seq_lib::group_to_multiset_ensures;

    match pos {
        Position::Cascade(i) => {
            let pile = s.cascades[i as int];
            let x = pile.drop_last();
            assert(pile =~= x.push(card));
            assert(pile.to_multiset() =~= x.to_multiset().insert(card));
            lemma_piles_update(s.cascades, i as int, x);
            assert(mid.cascades == s.cascades.update(i as int, x));
            let cu = cards_in_piles(mid.cascades);
            let cp = cards_in_piles(s.cascades);
            assert forall|v: Card| #[trigger] cu.insert(card).count(v) == cp.count(v) by {
                assert(cu.add(pile.to_multiset()).count(v) == cp.add(x.to_multiset()).count(v));
            }
            assert(cu.insert(card) =~= cp);
            assert(cards_of(mid).insert(card) =~= cards_of(s));
        },
        Position::Freecells => {
            let j = choose|j: int| takes_slot(s.freecells, j, mid.freecells, card);
            lemma_cells_update(s.freecells, j, None);
            let cu = cards_in_cells(mid.freecells);
            let cp = cards_in_cells(s.freecells);
            assert(cell_cards(None) =~= Multiset::empty());
            assert(cu.add(Multiset::singleton(card)) == cp.add(Multiset::empty()));
            assert(cu.insert(card) =~= cp);
            assert(cards_of(mid).insert(card) =~= cards_of(s));
        },
        Position::Foundations => {},
    }
}

/// Putting a card on a pile keeps the other cards where they were.
proof fn lemma_adds_card(mid: GameStateView, pos: Position, card: Card, t: GameStateView)
    requires
        well_shaped(mid),
        adds(mid, pos, card, t),
    ensures
        cards_of(t) == cards_of(mid).insert(card),
{
    broadcast use vstd::seq_lib::group_to_multiset_ensures;

    match pos {
        Position::Cascade(i) => {
            let pile = mid.cascades[i as int];
            assert(pile.push(card).to_multiset() =~= pile.to_multiset().insert(card));
            lemma_piles_update(mid.cascades, i as int, pile.push(card));
            let ct = cards_in_piles(t.cascades);
            let cm = cards_in_piles(mid.cascades);
            assert forall|v: Card| #[trigger] ct.count(v) == cm.insert(card).count(v) by {
                assert(ct.add(pile.to_multiset()).count(v) == cm.add(pile.push(card).to_multiset()).count(v));
            }
            assert(ct =~= cm.insert(card));
            assert(cards_of(t) =~= cards_of(mid).insert(card));
        },
        Position::Foundations => {
            let f = suit_index(card.suit);
            let pile = mid.foundations[f];
            assert(pile.push(card).to_multiset() =~= pile.to_multiset().insert(card));
            lemma_piles_update(mid.foundations, f, pile.push(card));
            let ct = cards_in_piles(t.foundations);
            let cm = cards_in_piles(mid.foundations);
            assert forall|v: Card| #[trigger] ct.count(v) == cm.insert(card).count(v) by {
                assert(ct.add(pile.to_multiset()).count(v) == cm.add(pile.push(card).to_multiset()).count(v));
            }
            assert(ct =~= cm.insert(card));
            assert(cards_of(t) =~= cards_of(mid).insert(card));
        },
        Position::Freecells => {
            let j = choose|j: int|
                first_empty(mid.freecells, j) && t == GameStateView {
                    cascades: mid.cascades,
                    foundations: mid.foundations,
                    freecells: mid.freecells.update(j, Some(card)),
                };
            lemma_cells_update(mid.freecells, j, Some(card));
            let ct = cards_in_cells(t.freecells);
            let cm = cards_in_cells(mid.freecells);
            assert(cell_cards(mid.freecells[j]) =~= Multiset::empty());
            assert(ct.add(Multiset::empty()) == cm.add(Multiset::singleton(card)));
            assert(ct =~= cm.insert(card));
            assert(cards_of(t) =~= cards_of(mid).insert(card));
        },
    }
}

/// A legal move neither loses nor duplicates a card: the state it leads to
/// holds exactly the cards of the state it starts from.
pub proof fn lemma_move_keeps_cards(s: GameStateView, m: GameMove, t: GameStateView)
    requires
        well_shaped(s),
        legal_move(s, m, t),
    ensures
        cards_of(t) == cards_of(s),
{
    let mid = choose|mid: GameStateView| removes(s, m.from, m.card, mid) && adds(mid, m.to, m.card, t);
    lemma_removes_card(s, m.from, m.card, mid);
    lemma_adds_card(mid, m.to, m.card, t);
}

/// A legal move onto the foundations puts its card on its own suit's
/// foundation, and only as the next rank: an ace on an empty one, nothing on
/// a complete one.
pub proof fn lemma_foundation_move_rule(s: GameStateView, m: GameMove, t: GameStateView)
    requires
        well_shaped(s),
        legal_move(s, m, t),
        m.to == Position::Foundations,
    ensures
        m.card.rank == s.foundations[suit_index(m.card.suit)].len() + 1,
        t.foundations == s.foundations.update(
            suit_index(m.card.suit),
            s.foundations[suit_index(m.card.suit)].push(m.card),
        ),
{
    let mid = choose|mid: GameStateView| removes(s, m.from, m.card, mid) && adds(mid, m.to, m.card, t);
    assert(mid.foundations == s.foundations);
}

/// A legal move into the free cells needs an empty slot, and a legal move out
/// of them takes a card that one of them holds; the cells then hold at most
/// four cards, one per slot.
pub proof fn lemma_freecell_move_rule(s: GameStateView, m: GameMove, t: GameStateView)
    requires
        well_shaped(s),
        legal_move(s, m, t),
    ensures
        m.to == Position::Freecells ==> has_empty(s.freecells),
        m.from == Position::Freecells ==> takes_out(s.freecells, t.freecells, m.card),
        t.freecells.len() == 4,
{
    let mid = choose|mid: GameStateView| removes(s, m.from, m.card, mid) && adds(mid, m.to, m.card, t);
    if m.to == Position::Freecells {
        assert(mid.freecells == s.freecells);
        let j = choose|j: int|
            first_empty(mid.freecells, j) && t == GameStateView {
                cascades: mid.cascades,
                foundations: mid.foundations,
                freecells: mid.freecells.update(j, Some(m.card)),
            };
        assert(s.freecells[j] is None);
    }
    if m.from == Position::Freecells {
        assert(t.freecells == mid.freecells);
    }
}

} // verus!
