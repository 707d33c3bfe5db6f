use vstd::prelude::*;

use crate::card::{suit_index, Card};
use crate::cascade::{cascade_accepts, copy_cards, Cascade, Cascades};
use crate::foundation::{foundation_accepts, Foundations};
use crate::freecells::{self, first_empty, takes_out, takes_slot, Freecells};
use crate::position::{GameMove, Position};

verus! {

/// A whole game: eight cascades, the four foundations and the four free cells.
#[derive(Debug, PartialEq, Eq, Hash)]
pub struct GameState {
    pub cascades: Cascades,
    pub foundations: Foundations,
    pub freecells: Freecells,
}

/// The cards of a game state, pile by pile.
pub struct GameStateView {
    pub cascades: Seq<Seq<Card>>,
    pub foundations: Seq<Seq<Card>>,
    pub freecells: Seq<Option<Card>>,
}

impl View for GameState {
    type V = GameStateView;

    open spec fn view(&self) -> GameStateView {
        GameStateView {
            cascades: self.cascades@.map_values(|c: Cascade| c@),
            foundations: self.foundations@,
            freecells: self.freecells@,
        }
    }
}

/// `s` has the shape of a game: eight cascades, four foundations and four
/// free cells.
pub open spec fn well_shaped(s: GameStateView) -> bool {
    &&& s.cascades.len() == 8
    &&& s.foundations.len() == 4
    &&& s.freecells.len() == 4
}

/// The view of every game state has the shape of a game.
pub proof fn lemma_view_well_shaped(s: GameState)
    ensures
        well_shaped(s@),
{
}

/// A position that names an existing pile.
pub open spec fn valid_position(pos: Position) -> bool {
    match pos {
        Position::Cascade(i) => i < 8,
        _ => true,
    }
}

/// Taking `card` from `pos` in `s` leaves `mid`: the top card of a cascade, or
/// the card of one free cell. Nothing is ever taken from the foundations.
pub open spec fn removes(s: GameStateView, pos: Position, card: Card, mid: GameStateView) -> bool {
    match pos {
        Position::Cascade(i) => {
            &&& i < 8
            &&& s.cascades[i as int].len() > 0
            &&& s.cascades[i as int].last() == card
            &&& mid == GameStateView {
                cascades: s.cascades.update(i as int, s.cascades[i as int].drop_last()),
                foundations: s.foundations,
                freecells: s.freecells,
            }
        },
        Position::Freecells => {
            &&& takes_out(s.freecells, mid.freecells, card)
            &&& mid.cascades == s.cascades
            &&& mid.foundations == s.foundations
        },
        Position::Foundations => false,
    }
}

/// Putting `card` on `pos` in `mid` is allowed and gives `t`.
pub open spec fn adds(mid: GameStateView, pos: Position, card: Card, t: GameStateView) -> bool {
    match pos {
        Position::Cascade(i) => {
            &&& i < 8
            &&& cascade_accepts(mid.cascades[i as int], card)
            &&& t == GameStateView {
                cascades: mid.cascades.update(i as int, mid.cascades[i as int].push(card)),
                foundations: mid.foundations,
                freecells: mid.freecells,
            }
        },
        Position::Foundations => {
            &&& foundation_accepts(mid.foundations, card)
            &&& t == GameStateView {
                cascades: mid.cascades,
                foundations: mid.foundations.update(
                    suit_index(card.suit),
                    mid.foundations[suit_index(card.suit)].push(card),
                ),
                freecells: mid.freecells,
            }
        },
        Position::Freecells => exists|j: int|
            first_empty(mid.freecells, j) && t == GameStateView {
                cascades: mid.cascades,
                foundations: mid.foundations,
                freecells: mid.freecells.update(j, Some(card)),
            },
    }
}

/// `m` is a legal move in `s` and leads to `t`: its card is taken from its
/// source and put on a different destination that accepts it.
pub open spec fn legal_move(s: GameStateView, m: GameMove, t: GameStateView) -> bool {
    &&& m.from != m.to
    &&& exists|mid: GameStateView| removes(s, m.from, m.card, mid) && adds(mid, m.to, m.card, t)
}

/// Every cascade and every free cell of `s` is empty: all cards have gone to
/// the foundations.
pub open spec fn is_solved_state(s: GameStateView) -> bool {
    &&& forall|i: int| 0 <= i < s.cascades.len() ==> (#[trigger] s.cascades[i]).len() == 0
    &&& forall|j: int| 0 <= j < s.freecells.len() ==> (#[trigger] s.freecells[j]) is None
}

/// The places that moves are made between: the eight cascades, the
/// foundations and the free cells.
pub open spec fn all_positions() -> Seq<Position> {
    seq![
        Position::Cascade(0),
        Position::Cascade(1),
        Position::Cascade(2),
        Position::Cascade(3),
        Position::Cascade(4),
        Position::Cascade(5),
        Position::Cascade(6),
        Position::Cascade(7),
        Position::Foundations,
        Position::Freecells,
    ]
}

fn positions() -> (r: Vec<Position>)
    ensures
        r@ == all_positions(),
{
    let mut r: Vec<Position> = Vec::new();
    let mut i: usize = 0;
    while i < 8
        invariant
            i <= 8,
            r@.len() == i,
            forall|k: int| 0 <= k < i ==> r@[k] == Position::Cascade(k as usize),
        decreases 8 - i,
    {
        r.push(Position::Cascade(i));
        i = i + 1;
    }
    r.push(Position::Foundations);
    r.push(Position::Freecells);
    assert(r@ =~= all_positions());
    r
}

impl GameState {
    /// A game state holding the same cards.
    pub fn duplicate(&self) -> (r: GameState)
        ensures
            r@ == self@,
    {
        let c = &self.cascades;
        let r = GameState {
            cascades: [
                c[0].duplicate(),
                c[1].duplicate(),
                c[2].duplicate(),
                c[3].duplicate(),
                c[4].duplicate(),
                c[5].duplicate(),
                c[6].duplicate(),
                c[7].duplicate(),
            ],
            foundations: self.foundations.duplicate(),
            freecells: self.freecells,
        };
        assert(r@.cascades =~= self@.cascades);
        r
    }

    /// Whether every cascade and every free cell is empty.
    pub fn is_solved(&self) -> (r: bool)
        ensures
            r == is_solved_state(self@),
    {
        let mut i: usize = 0;
        while i < 8
            invariant
                i <= 8,
                forall|k: int| 0 <= k < i ==> (#[trigger] self@.cascades[k]).len() == 0,
            decreases 8 - i,
        {
            if self.cascades[i].0.len() != 0 {
                assert(self@.cascades[i as int].len() != 0);
                return false;
            }
            i = i + 1;
        }
        let mut j: usize = 0;
        while j < 4
            invariant
                j <= 4,
                forall|k: int| 0 <= k < j ==> (#[trigger] self@.freecells[k]) is None,
            decreases 4 - j,
        {
            if self.freecells[j].is_some() {
                return false;
            }
            j = j + 1;
        }
        true
    }
}


/// Only one slot of a row of free cells is the first empty one.
proof fn lemma_first_empty_unique(cells: Seq<Option<Card>>, j1: int, j2: int)
    requires
        first_empty(cells, j1),
        first_empty(cells, j2),
    ensures
        j1 == j2,
{
    if j1 < j2 {
        assert(cells[j1] is Some);
    } else if j2 < j1 {
        assert(cells[j2] is Some);
    }
}

impl GameState {
    /// Every way to take a card from `pos`, each with the state it leaves.
    pub fn take_from(&self, pos: Position) -> (r: Vec<(GameState, Card)>)
        ensures
            forall|k: int| 0 <= k < r@.len() ==> removes(self@, pos, (#[trigger] r@[k]).1, r@[k].0@),
            forall|card: Card, mid: GameStateView|
                #[trigger] removes(self@, pos, card, mid) ==> exists|k: int|
                    0 <= k < r@.len() && r@[k].1 == card && r@[k].0@ == mid,
    {
        let mut r: Vec<(GameState, Card)> = Vec::new();
        match pos {
            Position::Cascade(i) => {
                if i < 8 {
                    let pops = self.cascades[i].pop_card();
                    if pops.len() > 0 {
                        let card = pops[0].1;
                        let mut t = self.duplicate();
                        t.cascades[i] = Cascade(copy_cards(&pops[0].0.0));
                        assert(t@.cascades =~= self@.cascades.update(i as int, self@.cascades[i as int].drop_last()));
                        r.push((t, card));
                        assert(r@[0].0@ == t@);
                    }
                }
            },
            Position::Freecells => {
                let pops = freecells::pop_card(&self.freecells);
                let mut k: usize = 0;
                while k < pops.len()
                    invariant
                        k <= pops@.len(),
                        r@.len() == k,
                        forall|j: int|
                            0 <= j < 4 && (#[trigger] self@.freecells[j]) is Some ==> exists|kk: int|
                                0 <= kk < pops@.len() && takes_slot(self@.freecells, j, pops@[kk].0@, pops@[kk].1),
                        forall|kk: int| 0 <= kk < pops@.len() ==> takes_out(self@.freecells, (#[trigger] pops@[kk]).0@, pops@[kk].1),
                        forall|kk: int| 0 <= kk < k ==> (#[trigger] r@[kk]).1 == pops@[kk].1 && r@[kk].0@ == (GameStateView {
                            cascades: self@.cascades,
                            foundations: self@.foundations,
                            freecells: pops@[kk].0@,
                        }),
                        pos == Position::Freecells,
                    decreases pops@.len() - k,
                {
                    let mut t = self.duplicate();
                    t.freecells = pops[k].0;
                    r.push((t, pops[k].1));
                    k = k + 1;
                }
                assert forall|c: Card, mid: GameStateView|
                    #[trigger] removes(self@, pos, c, mid) implies exists|kk: int|
                        0 <= kk < r@.len() && r@[kk].1 == c && r@[kk].0@ == mid by {
                    let j = choose|j: int| takes_slot(self@.freecells, j, mid.freecells, c);
                    assert(self@.freecells[j] is Some);
                    let kk = choose|kk: int|
                        0 <= kk < pops@.len() && takes_slot(self@.freecells, j, pops@[kk].0@, pops@[kk].1);
                    assert(r@[kk].0@ == mid);
                }
            },
            Position::Foundations => {},
        }
        r
    }
}

impl GameState {
    /// The state with `card` put on `pos`, or `Err` where that pile refuses it.
    pub fn put_on(&self, pos: Position, card: Card) -> (r: Result<GameState, ()>)
        ensures
            r is Ok ==> adds(self@, pos, card, r->Ok_0@),
            forall|t: GameStateView| #[trigger] adds(self@, pos, card, t) ==> r is Ok && r->Ok_0@ == t,
    {
        match pos {
            Position::Cascade(i) => {
                if i >= 8 {
                    return Err(());
                }
                match self.cascades[i].add_card(card) {
                    Ok(c) => {
                        let mut t = self.duplicate();
                        t.cascades[i] = c;
                        assert(t@.cascades =~= self@.cascades.update(i as int, self@.cascades[i as int].push(card)));
                        Ok(t)
                    },
                    Err(()) => Err(()),
                }
            },
            Position::Foundations => {
                match self.foundations.add_card(card) {
                    Ok(f) => {
                        let mut t = self.duplicate();
                        t.foundations = f;
                        Ok(t)
                    },
                    Err(()) => Err(()),
                }
            },
            Position::Freecells => {
                match freecells::add_card(&self.freecells, card) {
                    Ok(cells) => {
                        let mut t = self.duplicate();
                        t.freecells = cells;
                        proof {
                            let j = choose|j: int|
                                first_empty(self@.freecells, j) && cells@ == self@.freecells.update(j, Some(card));
                            assert forall|u: GameStateView| #[trigger] adds(self@, pos, card, u) implies u == t@ by {
                                let j2 = choose|j2: int|
                                    first_empty(self@.freecells, j2) && u == (GameStateView {
                                        cascades: self@.cascades,
                                        foundations: self@.foundations,
                                        freecells: self@.freecells.update(j2, Some(card)),
                                    });
                                lemma_first_empty_unique(self@.freecells, j, j2);
                            }
                        }
                        Ok(t)
                    },
                    Err(()) => {
                        proof {
                            assert forall|u: GameStateView| !adds(self@, pos, card, u) by {
                                if adds(self@, pos, card, u) {
                                    let j = choose|j: int| first_empty(self@.freecells, j) && u == (GameStateView {
                                        cascades: self@.cascades,
                                        foundations: self@.foundations,
                                        freecells: self@.freecells.update(j, Some(card)),
                                    });
                                    assert(self@.freecells[j] is None);
                                }
                            }
                        }
                        Err(())
                    },
                }
            },
        }
    }
}

/// The place of a position among `all_positions`.
pub open spec fn position_index(pos: Position) -> int {
    match pos {
        Position::Cascade(i) => i as int,
        Position::Foundations => 8,
        Position::Freecells => 9,
    }
}

/// `r` lists the move `m` leading to `t`.
pub open spec fn lists(r: Seq<(GameMove, GameState)>, m: GameMove, t: GameStateView) -> bool {
    exists|k: int| 0 <= k < r.len() && r[k].0 == m && r[k].1@ == t
}

/// Every entry of `r` is a legal move out of `s` with the state it leads to.
pub open spec fn all_legal(s: GameStateView, r: Seq<(GameMove, GameState)>) -> bool {
    forall|k: int| 0 <= k < r.len() ==> legal_move(s, (#[trigger] r[k]).0, r[k].1@)
}

proof fn lemma_lists_push(r: Seq<(GameMove, GameState)>, x: (GameMove, GameState))
    ensures
        forall|m: GameMove, t: GameStateView| lists(r, m, t) ==> #[trigger] lists(r.push(x), m, t),
        lists(r.push(x), x.0, x.1@),
{
    assert forall|m: GameMove, t: GameStateView| lists(r, m, t) implies #[trigger] lists(r.push(x), m, t) by {
        let k = choose|k: int| 0 <= k < r.len() && r[k].0 == m && r[k].1@ == t;
        assert(r.push(x)[k] == r[k]);
    }
    assert(r.push(x)[r.len() as int] == x);
}

proof fn lemma_position_index(pos: Position)
    requires
        valid_position(pos),
    ensures
        0 <= position_index(pos) < 10,
        all_positions()[position_index(pos)] == pos,
{
}

impl GameState {
    /// Every legal move out of this state, each with the state it leads to.
    pub fn successors(&self) -> (r: Vec<(GameMove, GameState)>)
        ensures
            all_legal(self@, r@),
            forall|m: GameMove, t: GameStateView| #[trigger] legal_move(self@, m, t) ==> lists(r@, m, t),
    {
        let ps = positions();
        let mut r: Vec<(GameMove, GameState)> = Vec::new();
        let mut a: usize = 0;
        while a < ps.len()
            invariant
                ps@ == all_positions(),
                a <= ps@.len(),
                all_legal(self@, r@),
                forall|m: GameMove, t: GameStateView|
                    #[trigger] legal_move(self@, m, t) && position_index(m.from) < a ==> lists(r@, m, t),
            decreases ps@.len() - a,
        {
            let src = ps[a];
            let pops = self.take_from(src);
            let mut b: usize = 0;
            while b < pops.len()
                invariant
                    ps@ == all_positions(),
                    a < ps@.len(),
                    src == ps@[a as int],
                    b <= pops@.len(),
                    all_legal(self@, r@),
                    forall|m: GameMove, t: GameStateView|
                        #[trigger] legal_move(self@, m, t) && position_index(m.from) < a ==> lists(r@, m, t),
                    forall|k: int| 0 <= k < pops@.len() ==> removes(self@, src, (#[trigger] pops@[k]).1, pops@[k].0@),
                    forall|kk: int, dst: Position, t: GameStateView|
                        0 <= kk < b && dst != src && #[trigger] adds(pops@[kk].0@, dst, pops@[kk].1, t) ==> lists(
                            r@,
                            GameMove { from: src, to: dst, card: pops@[kk].1 },
                            t,
                        ),
                decreases pops@.len() - b,
            {
                let card = pops[b].1;
                let mut c: usize = 0;
                while c < ps.len()
                    invariant
                        ps@ == all_positions(),
                        a < ps@.len(),
                        src == ps@[a as int],
                        b < pops@.len(),
                        card == pops@[b as int].1,
                        c <= ps@.len(),
                        all_legal(self@, r@),
                        forall|m: GameMove, t: GameStateView|
                            #[trigger] legal_move(self@, m, t) && position_index(m.from) < a ==> lists(r@, m, t),
                        forall|k: int| 0 <= k < pops@.len() ==> removes(self@, src, (#[trigger] pops@[k]).1, pops@[k].0@),
                        forall|kk: int, dst: Position, t: GameStateView|
                            0 <= kk < b && dst != src && #[trigger] adds(pops@[kk].0@, dst, pops@[kk].1, t) ==> lists(
                                r@,
                                GameMove { from: src, to: dst, card: pops@[kk].1 },
                                t,
                            ),
                        forall|cc: int, t: GameStateView|
                            0 <= cc < c && ps@[cc] != src && #[trigger] adds(pops@[b as int].0@, ps@[cc], card, t) ==> lists(
                                r@,
                                GameMove { from: src, to: ps@[cc], card: card },
                                t,
                            ),
                    decreases ps@.len() - c,
                {
                    let dst = ps[c];
                    if dst != src {
                        match pops[b].0.put_on(dst, card) {
                            Ok(t) => {
                                let m = GameMove { from: src, to: dst, card: card };
                                let ghost before = r@;
                                proof {
                                    assert(removes(self@, src, card, pops@[b as int].0@));
                                    assert(adds(pops@[b as int].0@, dst, card, t@));
                                    assert(legal_move(self@, m, t@));
                                }
                                r.push((m, t));
                                proof {
                                    lemma_lists_push(before, r@[r@.len() - 1]);
                                    assert(before.push(r@[r@.len() - 1]) == r@);
                                    assert forall|k: int| 0 <= k < r@.len() implies legal_move(
                                        self@,
                                        (#[trigger] r@[k]).0,
                                        r@[k].1@,
                                    ) by {
                                        if k < before.len() {
                                            assert(r@[k] == before[k]);
                                        }
                                    }
                                }
                            },
                            Err(()) => {},
                        }
                    }
                    c = c + 1;
                }
                proof {
                    assert forall|kk: int, dst: Position, t: GameStateView|
                        0 <= kk < b + 1 && dst != src && #[trigger] adds(pops@[kk].0@, dst, pops@[kk].1, t) implies lists(
                            r@,
                            GameMove { from: src, to: dst, card: pops@[kk].1 },
                            t,
                        ) by {
                        if kk == b {
                            assert(valid_position(dst));
                            lemma_position_index(dst);
                            assert(ps@[position_index(dst)] == dst);
                        }
                    }
                }
                b = b + 1;
            }
            proof {
                assert forall|m: GameMove, t: GameStateView|
                    #[trigger] legal_move(self@, m, t) && position_index(m.from) < a + 1 implies lists(r@, m, t) by {
                    if position_index(m.from) == a {
                        let mid = choose|mid: GameStateView| removes(self@, m.from, m.card, mid) && adds(mid, m.to, m.card, t);
                        assert(valid_position(m.from));
                        lemma_position_index(m.from);
                        assert(m.from == src);
                        let kk = choose|kk: int| 0 <= kk < pops@.len() && pops@[kk].1 == m.card && pops@[kk].0@ == mid;
                        assert(adds(pops@[kk].0@, m.to, pops@[kk].1, t));
                        assert(m == GameMove { from: src, to: m.to, card: pops@[kk].1 });
                    }
                }
            }
            a = a + 1;
        }
        proof {
            assert forall|m: GameMove, t: GameStateView| #[trigger] legal_move(self@, m, t) implies lists(r@, m, t) by {
                let mid = choose|mid: GameStateView| removes(self@, m.from, m.card, mid) && adds(mid, m.to, m.card, t);
                assert(valid_position(m.from));
                lemma_position_index(m.from);
            }
        }
        r
    }
}

/// Whether two sequences of cards are equal.
fn same_cards(a: &Vec<Card>, b: &Vec<Card>) -> (r: bool)
    ensures
        r == (a@ == b@),
{
    if a.len() != b.len() {
        return false;
    }
    let mut i: usize = 0;
    while i < a.len()
        invariant
            a@.len() == b@.len(),
            i <= a@.len(),
            forall|k: int| 0 <= k < i ==> a@[k] == b@[k],
        decreases a@.len() - i,
    {
        if a[i] != b[i] {
            return false;
        }
        i = i + 1;
    }
    assert(a@ =~= b@);
    true
}

/// Whether two free cells hold the same card, or are both empty.
fn same_cell(a: Option<Card>, b: Option<Card>) -> (r: bool)
    ensures
        r == (a == b),
{
    match (a, b) {
        (None, None) => true,
        (Some(x), Some(y)) => x == y,
        _ => false,
    }
}

impl GameState {
    /// Whether both states hold the same cards in the same places.
    pub fn same_as(&self, other: &GameState) -> (r: bool)
        ensures
            r == (self@ == other@),
    {
        let mut i: usize = 0;
        while i < 8
            invariant
                i <= 8,
                forall|k: int| 0 <= k < i ==> self@.cascades[k] == other@.cascades[k],
            decreases 8 - i,
        {
            if !same_cards(&self.cascades[i].0, &other.cascades[i].0) {
                assert(self@.cascades[i as int] != other@.cascades[i as int]);
                return false;
            }
            i = i + 1;
        }
        let mut f: usize = 0;
        while f < 4
            invariant
                f <= 4,
                forall|k: int| 0 <= k < f ==> self@.foundations[k] == other@.foundations[k],
            decreases 4 - f,
        {
            if !same_cards(&self.foundations.0[f], &other.foundations.0[f]) {
                assert(self@.foundations[f as int] != other@.foundations[f as int]);
                return false;
            }
            f = f + 1;
        }
        let mut j: usize = 0;
        while j < 4
            invariant
                j <= 4,
                forall|k: int| 0 <= k < j ==> self@.freecells[k] == other@.freecells[k],
            decreases 4 - j,
        {
            if !same_cell(self.freecells[j], other.freecells[j]) {
                assert(self@.freecells[j as int] != other@.freecells[j as int]);
                return false;
            }
            j = j + 1;
        }
        assert(self@.cascades =~= other@.cascades);
        assert(self@.foundations =~= other@.foundations);
        assert(self@.freecells =~= other@.freecells);
        true
    }
}
} // verus!
