use vstd::prelude::*;

use crate::frontier::{frontier_items, frontier_new, frontier_pop, frontier_push, Frontier};
use crate::game_state::{is_solved_state, legal_move, lists, GameState, GameStateView};
use crate::position::GameMove;

verus! {

/// Above this many expansions the search stops, so that path costs stay far
/// inside the range of the frontier's priorities.
pub const MAX_TOTAL_EXPANSIONS: u64 = 0x4000_0000_0000_0000;

/// `moves` are legal one after the other from `s` and end in `t`.
pub open spec fn is_path(s: GameStateView, moves: Seq<GameMove>, t: GameStateView) -> bool
    decreases moves.len(),
{
    ||| moves.len() == 0 && s == t
    ||| moves.len() > 0 && exists|mid: GameStateView|
        #[trigger] legal_move(s, moves[0], mid) && is_path(mid, moves.drop_first(), t)
}

/// The records of a search: no state is found twice; every found state is
/// reachable from the first; the history holds each expanded state once, and
/// one entry for each expansion.
pub open spec fn history_ok_of(
    states: Seq<GameState>,
    expanded: Seq<bool>,
    expansions: int,
    history: Seq<GameStateView>,
) -> bool {
    &&& forall|a: int, b: int| 0 <= a < b < states.len() ==> (#[trigger] states[a])@ != (#[trigger] states[b])@
    &&& forall|j: int| 0 <= j < states.len() ==> reachable(states[0]@, (#[trigger] states[j])@)
    &&& history.len() == expansions
    &&& history.no_duplicates()
    &&& forall|k: int| 0 <= k < history.len() ==> expanded_state(states, expanded, #[trigger] history[k])
}

/// `v` is the state of an expanded node.
pub open spec fn expanded_state(states: Seq<GameState>, expanded: Seq<bool>, v: GameStateView) -> bool {
    exists|j: int| 0 <= j < states.len() && expanded[j] && (#[trigger] states[j])@ == v
}

/// Some sequence of moves leads from `s` to `t`.
pub open spec fn reachable(s: GameStateView, t: GameStateView) -> bool {
    exists|moves: Seq<GameMove>| #[trigger] is_path(s, moves, t)
}

/// `moves` lead from `s` to a solved state.
pub open spec fn solves(s: GameStateView, moves: Seq<GameMove>) -> bool {
    exists|t: GameStateView| is_path(s, moves, t) && is_solved_state(t)
}

/// No sequence of moves from `s` to a solved state is shorter than `moves`.
pub open spec fn no_shorter_solution(s: GameStateView, moves: Seq<GameMove>) -> bool {
    forall|other: Seq<GameMove>| #[trigger] solves(s, other) ==> moves.len() <= other.len()
}

/// How a search ended.
#[derive(Debug, PartialEq, Eq)]
pub enum SearchResult {
    /// A shortest sequence of moves to a solved state.
    Solved(Vec<GameMove>),
    /// Every state reachable from the start was seen and none is solved.
    NoSolution,
    /// The search stopped at its bound on expansions.
    Truncated,
}

/// The search over game states: every state found so far, the best known
/// cost of reaching it and the move it was reached by, and the frontier of
/// states still to expand, keyed by the negated cost.
pub struct StateGraph {
    states: Vec<GameState>,
    costs: Vec<u64>,
    parents: Vec<Option<(usize, GameMove)>>,
    expanded: Vec<bool>,
    frontier: Frontier,
    expansions: u64,
    history: Ghost<Seq<GameStateView>>,
}

impl StateGraph {
    /// How many states the search has expanded, over all its runs.
    pub closed spec fn total_expansions(&self) -> int {
        self.expansions as int
    }

    /// The state the search starts from.
    pub closed spec fn root(&self) -> GameStateView {
        self.states@[0]@
    }

    /// The state `t` was found.
    pub closed spec fn found(&self, t: GameStateView) -> bool {
        exists|j: int| 0 <= j < self.states@.len() && (#[trigger] self.states@[j])@ == t
    }

    /// The record of node `i` is sound: its cost bounds its parent's, and its
    /// state follows from the parent's by the recorded move.
    pub closed spec fn node_ok(&self, i: int) -> bool {
        match self.parents@[i] {
            Some((p, m)) => {
                &&& p < self.states@.len()
                &&& self.costs@[p as int] < self.costs@[i]
                &&& legal_move(self.states@[p as int]@, m, self.states@[i]@)
            },
            None => i == 0,
        }
    }

    /// `t` was found at a cost of at most `c`.
    pub closed spec fn found_within(&self, t: GameStateView, c: int) -> bool {
        exists|j: int|
            0 <= j < self.states@.len() && (#[trigger] self.states@[j])@ == t && self.costs@[j] <= c
    }

    /// The expanded node `i` has all its successors among the found states,
    /// at a cost of at most one more than its own.
    pub closed spec fn closed_at(&self, i: int) -> bool {
        forall|m: GameMove, t: GameStateView|
            #[trigger] legal_move(self.states@[i]@, m, t) ==> self.found_within(t, self.costs@[i] + 1)
    }

    /// Everything that holds of the search at every step but the last clause
    /// of `wf`.
    pub closed spec fn basics(&self) -> bool {
        &&& self.states@.len() > 0
        &&& self.costs@.len() == self.states@.len()
        &&& self.parents@.len() == self.states@.len()
        &&& self.expanded@.len() == self.states@.len()
        &&& self.parents@[0] is None
        &&& self.costs@[0] == 0
        &&& self.expansions <= MAX_TOTAL_EXPANSIONS
        &&& forall|i: int| 0 <= i < self.states@.len() ==> #[trigger] self.node_ok(i)
        &&& forall|i: int| 0 <= i < self.states@.len() ==> #[trigger] self.costs@[i] <= self.expansions
        &&& forall|i: int|
            0 <= i < self.states@.len() && #[trigger] self.expanded@[i] ==> self.closed_at(i)
            && !is_solved_state(self.states@[i]@)
        &&& forall|k: usize| #[trigger]
            frontier_items(self.frontier).contains_key(k) ==> k < self.states@.len()
                && frontier_items(self.frontier)[k] == -(self.costs@[k as int] as int)
                && !self.expanded@[k as int]
    }

    /// Every node but `x` that is not expanded waits in the frontier.
    pub closed spec fn queued_except(&self, x: int) -> bool {
        forall|i: usize|
            i < self.states@.len() && i != x && !(#[trigger] self.expanded@[i as int]) ==> frontier_items(
                self.frontier,
            ).contains_key(i)
    }

    /// The search's records are consistent.
    /// The states expanded so far, in the order of their expansion.
    pub closed spec fn history(&self) -> Seq<GameStateView> {
        self.history@
    }

    /// The search's history and found states are consistent.
    pub closed spec fn history_ok(&self) -> bool {
        history_ok_of(self.states@, self.expanded@, self.expansions as int, self.history@)
    }

    /// No expanded state costs more than a state still in the frontier.
    pub closed spec fn order_ok(&self) -> bool {
        forall|x: int, k: usize|
            0 <= x < self.states@.len() && #[trigger] self.expanded@[x] && #[trigger] frontier_items(
                self.frontier,
            ).contains_key(k) ==> self.costs@[x] <= self.costs@[k as int]
    }

    /// The search's records are consistent.
    pub closed spec fn wf(&self) -> bool {
        self.basics() && self.queued_except(-1) && self.history_ok() && self.order_ok()
    }

    /// What the history of a consistent search holds: as many distinct
    /// states, each reachable from the start, as the search has expanded.
    pub proof fn lemma_history(&self)
        requires
            self.wf(),
        ensures
            self.history().len() == self.total_expansions(),
            self.history().no_duplicates(),
            forall|k: int| 0 <= k < self.history().len() ==> reachable(self.root(), #[trigger] self.history()[k]),
    {
        assert forall|k: int| 0 <= k < self.history().len() implies reachable(self.root(), #[trigger] self.history()[k]) by {
            let j = choose|j: int| 0 <= j < self.states@.len() && self.expanded@[j] && (#[trigger] self.states@[j])@ == self.history@[k];
            assert(reachable(self.states@[0]@, self.states@[j]@));
        }
    }

    /// A search that starts from `initial_state`.
    pub fn new(initial_state: GameState) -> (r: StateGraph)
        ensures
            r.wf(),
            r.root() == initial_state@,
            r.total_expansions() == 0,
    {
        let mut frontier = frontier_new();
        frontier_push(&mut frontier, 0, 0);
        let mut states: Vec<GameState> = Vec::new();
        states.push(initial_state);
        let mut costs: Vec<u64> = Vec::new();
        costs.push(0);
        let mut parents: Vec<Option<(usize, GameMove)>> = Vec::new();
        parents.push(None);
        let mut expanded: Vec<bool> = Vec::new();
        expanded.push(false);
        let r = StateGraph { states, costs, parents, expanded, frontier, expansions: 0, history: Ghost(Seq::empty()) };
        assert(r.node_ok(0));
        assert(r.basics());
        assert(is_path(r.root(), Seq::<GameMove>::empty(), r.states@[0]@));
        assert(reachable(r.root(), r.states@[0]@));
        assert(r.history_ok());
        r
    }
}


impl StateGraph {
    /// The index of a found state equal to `s`, if there is one.
    fn find(&self, s: &GameState) -> (r: Option<usize>)
        ensures
            r matches Some(j) ==> j < self.states@.len() && self.states@[j as int]@ == s@,
            r is None ==> !self.found(s@),
    {
        let mut j: usize = 0;
        while j < self.states.len()
            invariant
                j <= self.states@.len(),
                forall|k: int| 0 <= k < j ==> (#[trigger] self.states@[k])@ != s@,
            decreases self.states@.len() - j,
        {
            if self.states[j].same_as(s) {
                return Some(j);
            }
            j = j + 1;
        }
        None
    }

    /// The moves that lead from the start to node `i`, following the
    /// recorded parents back.
    fn path_to(&self, i: usize) -> (r: Vec<GameMove>)
        requires
            self.basics(),
            i < self.states@.len(),
        ensures
            is_path(self.root(), r@, self.states@[i as int]@),
            r@.len() <= self.costs@[i as int],
    {
        let mut cur: usize = i;
        let mut moves: Vec<GameMove> = Vec::new();
        while self.parents[cur].is_some()
            invariant
                self.basics(),
                i < self.states@.len(),
                cur < self.states@.len(),
                is_path(self.states@[cur as int]@, moves@, self.states@[i as int]@),
                moves@.len() + self.costs@[cur as int] <= self.costs@[i as int],
            decreases self.costs@[cur as int],
        {
            let (p, m) = self.parents[cur].unwrap();
            assert(self.node_ok(cur as int));
            let ghost rest = moves@;
            moves.insert(0, m);
            assert(moves@.drop_first() =~= rest);
            assert(legal_move(self.states@[p as int]@, moves@[0], self.states@[cur as int]@));
            assert(is_path(self.states@[cur as int]@, moves@.drop_first(), self.states@[i as int]@));
            assert(is_path(self.states@[p as int]@, moves@, self.states@[i as int]@));
            cur = p;
        }
        assert(self.node_ok(cur as int));
        moves
    }
}

/// Two searches with the same records agree on every node.
proof fn lemma_same_records(a: StateGraph, b: StateGraph)
    requires
        a.states == b.states,
        a.costs == b.costs,
        a.parents == b.parents,
        a.expanded == b.expanded,
        a.expansions == b.expansions,
    ensures
        forall|x: int| #[trigger] a.node_ok(x) == b.node_ok(x),
        forall|x: int| #[trigger] a.closed_at(x) == b.closed_at(x),
        forall|t: GameStateView| #[trigger] a.found(t) == b.found(t),
{
    assert forall|x: int| #[trigger] a.closed_at(x) == b.closed_at(x) by {
        assert forall|t: GameStateView, c: int| #[trigger] a.found_within(t, c) == b.found_within(t, c) by {}
    }
    assert forall|t: GameStateView| #[trigger] a.found(t) == b.found(t) by {}
}

/// Two searches that differ at most in their frontier have the same history.
proof fn lemma_same_history(a: StateGraph, b: StateGraph)
    requires
        a.states == b.states,
        a.costs == b.costs,
        a.parents == b.parents,
        a.expanded == b.expanded,
        a.expansions == b.expansions,
        a.history == b.history,
    ensures
        a.history_ok() == b.history_ok(),
        a.root() == b.root(),
{
}

/// A path followed by one more legal move is a path to where that move leads.
proof fn lemma_path_push(s: GameStateView, moves: Seq<GameMove>, a: GameStateView, m: GameMove, b: GameStateView)
    requires
        is_path(s, moves, a),
        legal_move(a, m, b),
    ensures
        is_path(s, moves.push(m), b),
    decreases moves.len(),
{
    if moves.len() == 0 {
        assert(s == a);
        assert(moves.push(m).drop_first() =~= Seq::<GameMove>::empty());
        assert(is_path(b, moves.push(m).drop_first(), b));
        assert(legal_move(s, moves.push(m)[0], b));
    } else {
        assert(exists|mid: GameStateView|
            #[trigger] legal_move(s, moves[0], mid) && is_path(mid, moves.drop_first(), a));
        let mid = choose|mid: GameStateView| #[trigger] legal_move(s, moves[0], mid) && is_path(mid, moves.drop_first(), a);
        lemma_path_push(mid, moves.drop_first(), a, m, b);
        assert(moves.push(m).drop_first() =~= moves.drop_first().push(m));
        assert(legal_move(s, moves.push(m)[0], mid));
    }
}

/// A path that leaves an expanded state and ends in one that is not expanded
/// passes a node that is not expanded, found at a cost of at most the
/// path's length more than the cost of its start.
proof fn lemma_open_node_on_path(g: &StateGraph, s: GameStateView, d: int, moves: Seq<GameMove>, t: GameStateView)
    requires
        g.basics(),
        exists|j: int| 0 <= j < g.states@.len() && (#[trigger] g.states@[j])@ == s && g.expanded@[j] && g.costs@[j] <= d,
        forall|j: int| 0 <= j < g.states@.len() && (#[trigger] g.states@[j])@ == t ==> !g.expanded@[j],
        is_path(s, moves, t),
    ensures
        exists|j: int| 0 <= j < g.states@.len() && !(#[trigger] g.expanded@[j]) && g.costs@[j] <= d + moves.len(),
    decreases moves.len(),
{
    let j = choose|j: int| 0 <= j < g.states@.len() && (#[trigger] g.states@[j])@ == s && g.expanded@[j] && g.costs@[j] <= d;
    if moves.len() == 0 {
        assert(g.states@[j]@ == t);
    } else {
        assert(exists|mid: GameStateView|
            #[trigger] legal_move(s, moves[0], mid) && is_path(mid, moves.drop_first(), t));
        let mid = choose|mid: GameStateView| #[trigger] legal_move(s, moves[0], mid) && is_path(mid, moves.drop_first(), t);
        assert(g.closed_at(j));
        assert(legal_move(g.states@[j]@, moves[0], mid));
        assert(g.found_within(mid, g.costs@[j] + 1));
        let w = choose|w: int|
            0 <= w < g.states@.len() && (#[trigger] g.states@[w])@ == mid && g.costs@[w] <= g.costs@[j] + 1;
        if g.expanded@[w] {
            lemma_open_node_on_path(g, mid, d + 1, moves.drop_first(), t);
        } else {
            assert(!g.expanded@[w] && g.costs@[w] <= d + moves.len());
        }
    }
}

/// With every node expanded, the found states are closed under legal moves,
/// so whatever a path from a found state reaches was found as well.
proof fn lemma_reach_found(g: &StateGraph, s: GameStateView, moves: Seq<GameMove>, t: GameStateView)
    requires
        g.basics(),
        forall|i: int| 0 <= i < g.states@.len() ==> #[trigger] g.expanded@[i],
        g.found(s),
        is_path(s, moves, t),
    ensures
        g.found(t),
    decreases moves.len(),
{
    if moves.len() > 0 {
        assert(exists|mid: GameStateView|
            #[trigger] legal_move(s, moves[0], mid) && is_path(mid, moves.drop_first(), t));
        let mid = choose|mid: GameStateView|
            legal_move(s, moves[0], mid) && is_path(mid, moves.drop_first(), t);
        let j = choose|j: int| 0 <= j < g.states@.len() && (#[trigger] g.states@[j])@ == s;
        assert(g.expanded@[j]);
        assert(g.closed_at(j));
        assert(legal_move(g.states@[j]@, moves[0], mid));
        assert(g.found_within(mid, g.costs@[j] + 1));
        let w = choose|w: int|
            0 <= w < g.states@.len() && (#[trigger] g.states@[w])@ == mid && g.costs@[w] <= g.costs@[j] + 1;
        assert(g.found(mid));
        lemma_reach_found(g, mid, moves.drop_first(), t);
    }
}

impl StateGraph {
    /// Runs Dijkstra's search from the start, expanding at most
    /// `max_expansions` states in this call: the cheapest state of the frontier
    /// is taken; a solved one ends the search with the moves that reach it,
    /// else each successor is recorded, or given a cheaper cost, and queued.
    pub fn dijkstra(&mut self, max_expansions: u32) -> (r: SearchResult)
        requires
            old(self).wf(),
        ensures
            final(self).wf(),
            final(self).root() == old(self).root(),
            r matches SearchResult::Solved(moves) ==> solves(old(self).root(), moves@),
            r matches SearchResult::Solved(moves) ==> no_shorter_solution(old(self).root(), moves@),
            r is NoSolution ==> forall|moves: Seq<GameMove>| !#[trigger] solves(old(self).root(), moves),
            r is Truncated ==> final(self).total_expansions() == old(self).total_expansions()
                + max_expansions || final(self).total_expansions() >= MAX_TOTAL_EXPANSIONS,
            final(self).total_expansions() <= old(self).total_expansions() + max_expansions,
    {
        let ghost root = old(self).root();
        let mut steps: u32 = 0;
        while steps < max_expansions
            invariant
                self.wf(),
                self.root() == old(self).root(),
                root == old(self).root(),
                steps <= max_expansions,
                self.expansions == old(self).expansions + steps,
            decreases max_expansions - steps,
        {
            if self.expansions >= MAX_TOTAL_EXPANSIONS {
                return SearchResult::Truncated;
            }
            let ghost before = *self;
            let popped = frontier_pop(&mut self.frontier);
            match popped {
                None => {
                    let n_states = self.expanded.len();
                    proof {
                        assert(frontier_items(self.frontier) == frontier_items(before.frontier));
                        lemma_same_records(*self, before);
                        lemma_same_history(*self, before);
                        assert(self.basics());
                        assert(self.queued_except(-1));
                        assert(self.order_ok());
                        assert forall|i: int| 0 <= i < self.states@.len() implies #[trigger] self.expanded@[i] by {
                            if !self.expanded@[i] {
                                assert(i < n_states);
                                let u = i as usize;
                                assert(self.expanded@[u as int] == self.expanded@[i]);
                                assert(frontier_items(self.frontier).contains_key(u));
                            }
                        }
                        assert forall|moves: Seq<GameMove>| !#[trigger] solves(root, moves) by {
                            if solves(root, moves) {
                                let t = choose|t: GameStateView| is_path(root, moves, t) && is_solved_state(t);
                                assert(self.states@[0]@ == root);
                                assert(self.found(root));
                                lemma_reach_found(self, root, moves, t);
                                let j = choose|j: int| 0 <= j < self.states@.len() && (#[trigger] self.states@[j])@ == t;
                                assert(self.expanded@[j]);
                            }
                        }
                    }
                    return SearchResult::NoSolution;
                },
                Some((i, _priority)) => {
                    proof {
                        assert forall|q: usize| #[trigger] frontier_items(self.frontier).contains_key(q) implies q < self.states@.len()
                            && frontier_items(self.frontier)[q] == -(self.costs@[q as int] as int) by {
                            assert(frontier_items(before.frontier).contains_key(q));
                        }
                        lemma_same_records(*self, before);
                        lemma_same_history(*self, before);
                        assert(self.basics());
                        assert(self.history_ok());
                        assert forall|x: int, k: usize|
                            0 <= x < self.states@.len() && #[trigger] self.expanded@[x] && #[trigger] frontier_items(
                                self.frontier,
                            ).contains_key(k) implies self.costs@[x] <= self.costs@[k as int] by {
                            assert(frontier_items(before.frontier).contains_key(k));
                        }
                        assert(self.order_ok());
                        assert forall|x: int| 0 <= x < self.states@.len() && #[trigger] self.expanded@[x]
                            implies self.costs@[x] <= self.costs@[i as int] by {
                            assert(before.order_ok());
                            assert(frontier_items(before.frontier).contains_key(i));
                        }
                        assert forall|x: usize| x < self.states@.len() && x != i && !(#[trigger] self.expanded@[x as int])
                            implies frontier_items(self.frontier).contains_key(x) by {
                            assert(before.wf());
                            assert(before.queued_except(-1));
                            assert(frontier_items(before.frontier).contains_key(x));
                        }
                        assert(self.queued_except(i as int));
                    }
                    assert(!self.expanded@[i as int]);
                    let n_open = self.expanded.len();
                    proof {
                        assert forall|j: int| 0 <= j < self.states@.len() && !(#[trigger] self.expanded@[j])
                            implies self.costs@[i as int] <= self.costs@[j] by {
                            if j != i {
                                assert(before.queued_except(-1));
                                assert(j < n_open);
                                let u = j as usize;
                                assert(u as int == j);
                                assert(frontier_items(before.frontier).contains_key(u));
                            }
                        }
                    }
                    if self.states[i].is_solved() {
                        let moves = self.path_to(i);
                        let ghost popped_state = *self;
                        frontier_push(&mut self.frontier, i, -(self.costs[i] as i64));
                        proof {
                            assert forall|q: usize| #[trigger] frontier_items(self.frontier).contains_key(q) implies q < self.states@.len()
                                && frontier_items(self.frontier)[q] == -(self.costs@[q as int] as int) by {
                                if q != i {
                                    assert(frontier_items(popped_state.frontier).contains_key(q));
                                }
                            }
                            lemma_same_records(*self, popped_state);
                            lemma_same_history(*self, popped_state);
                            assert(self.basics());
                            assert(self.queued_except(-1));
                            assert forall|x: int, k: usize|
                                0 <= x < self.states@.len() && #[trigger] self.expanded@[x] && #[trigger] frontier_items(
                                    self.frontier,
                                ).contains_key(k) implies self.costs@[x] <= self.costs@[k as int] by {
                                if k != i {
                                    assert(frontier_items(popped_state.frontier).contains_key(k));
                                }
                            }
                            assert(self.order_ok());
                            assert(is_path(root, moves@, self.states@[i as int]@));
                            assert forall|other: Seq<GameMove>| #[trigger] solves(root, other) implies moves@.len() <= other.len() by {
                                let t = choose|t: GameStateView| is_path(root, other, t) && is_solved_state(t);
                                assert(self.states@[0]@ == root);
                                assert(self.expanded == popped_state.expanded);
                                assert(self.costs == popped_state.costs);
                                if self.expanded@[0] {
                                    lemma_open_node_on_path(self, root, 0, other, t);
                                    let j = choose|j: int|
                                        0 <= j < self.states@.len() && !(#[trigger] self.expanded@[j]) && self.costs@[j] <= other.len();
                                    assert(self.costs@[i as int] <= self.costs@[j]);
                                } else {
                                    assert(self.costs@[i as int] <= self.costs@[0]);
                                }
                            }
                            assert(no_shorter_solution(root, moves@));
                        }
                        return SearchResult::Solved(moves);
                    }
                    self.expand(i);
                    steps = steps + 1;
                },
            }
        }
        SearchResult::Truncated
    }
}

impl StateGraph {
    /// Expands node `i`, just taken from the frontier: records each of its
    /// successors, or gives it a cheaper cost, at one more than its cost, and
    /// queues it.
    #[verifier::rlimit(60)]
    fn expand(&mut self, i: usize)
        requires
            old(self).basics(),
            old(self).queued_except(i as int),
            i < old(self).states@.len(),
            !old(self).expanded@[i as int],
            !is_solved_state(old(self).states@[i as int]@),
            old(self).expansions < MAX_TOTAL_EXPANSIONS,
            !frontier_items(old(self).frontier).contains_key(i),
            old(self).history_ok(),
            old(self).order_ok(),
            forall|x: int| 0 <= x < old(self).states@.len() && #[trigger] old(self).expanded@[x]
                ==> old(self).costs@[x] <= old(self).costs@[i as int],
            forall|j: int| 0 <= j < old(self).states@.len() && !(#[trigger] old(self).expanded@[j])
                ==> old(self).costs@[i as int] <= old(self).costs@[j],
        ensures
            final(self).wf(),
            final(self).root() == old(self).root(),
            final(self).expansions == old(self).expansions + 1,
    {
        self.expansions = self.expansions + 1;
        assert(self.costs@[i as int] <= self.expansions - 1);
        let succ = self.states[i].successors();
        let c: u64 = self.costs[i] + 1;
        let ghost si = self.states@[i as int]@;
        let ghost root = self.root();
        proof {
            assert forall|x: int| 0 <= x < self.states@.len() implies #[trigger] self.node_ok(x) by {
                assert(old(self).node_ok(x));
            }
            assert forall|x: int| 0 <= x < self.states@.len() && #[trigger] self.expanded@[x] implies self.closed_at(x)
                && !is_solved_state(self.states@[x]@) by {
                assert(old(self).closed_at(x));
                assert forall|m2: GameMove, t2: GameStateView|
                    #[trigger] legal_move(self.states@[x]@, m2, t2) implies self.found_within(t2, self.costs@[x] + 1) by {
                    assert(old(self).found_within(t2, old(self).costs@[x] + 1));
                }
            }
            assert(self.basics());
            assert(old(self).history_ok());
            assert forall|h: int| 0 <= h < self.history@.len() implies expanded_state(self.states@, self.expanded@, #[trigger] self.history@[h]) by {
                let j = choose|j: int| 0 <= j < old(self).states@.len() && old(self).expanded@[j] && (#[trigger] old(self).states@[j])@ == old(self).history@[h];
                assert(self.expanded@[j]);
            }
            assert forall|j: int| 0 <= j < self.states@.len() implies reachable(root, (#[trigger] self.states@[j])@) by {
                assert(reachable(old(self).states@[0]@, old(self).states@[j]@));
            }
            assert forall|q: usize| #[trigger] frontier_items(self.frontier).contains_key(q)
                implies self.costs@[i as int] <= self.costs@[q as int] by {
                assert(!self.expanded@[q as int]);
            }
        }
        let mut k: usize = 0;
        while k < succ.len()
            invariant
                self.basics(),
                self.queued_except(i as int),
                i < self.states@.len(),
                !self.expanded@[i as int],
                !is_solved_state(si),
                self.states@[i as int]@ == si,
                self.costs@[i as int] + 1 == c,
                c <= self.expansions,
                self.root() == root,
                self.expansions == old(self).expansions + 1,
                !frontier_items(self.frontier).contains_key(i),
                forall|a: int, b: int|
                    0 <= a < b < self.states@.len() ==> (#[trigger] self.states@[a])@ != (#[trigger] self.states@[b])@,
                forall|j: int| 0 <= j < self.states@.len() ==> reachable(root, (#[trigger] self.states@[j])@),
                self.history == old(self).history,
                self.history@.len() == old(self).expansions,
                self.history@.no_duplicates(),
                forall|h: int| 0 <= h < self.history@.len() ==> expanded_state(self.states@, self.expanded@, #[trigger] self.history@[h]),
                forall|x: int| 0 <= x < self.states@.len() && #[trigger] self.expanded@[x] ==> self.costs@[x] <= self.costs@[i as int],
                forall|x: int, q: usize|
                    0 <= x < self.states@.len() && #[trigger] self.expanded@[x] && #[trigger] frontier_items(
                        self.frontier,
                    ).contains_key(q) ==> self.costs@[x] <= self.costs@[q as int],
                forall|q: usize| #[trigger] frontier_items(self.frontier).contains_key(q) ==> self.costs@[i as int] <= self.costs@[q as int],
                k <= succ@.len(),
                crate::game_state::all_legal(si, succ@),
                forall|m: GameMove, t: GameStateView| #[trigger] legal_move(si, m, t) ==> lists(succ@, m, t),
                forall|kk: int| 0 <= kk < k ==> self.found_within((#[trigger] succ@[kk]).1@, c as int),
            decreases succ@.len() - k,
        {
            let m = succ[k].0;
            let ghost t = succ@[k as int].1@;
            assert(legal_move(si, m, t));
            match self.find(&succ[k].1) {
                Some(j) => {
                    if c < self.costs[j] {
                        let ghost before = *self;
                        assert(!self.expanded@[j as int]);
                        self.costs[j] = c;
                        self.parents[j] = Some((i, m));
                        self.expanded[j] = false;
                        frontier_push(&mut self.frontier, j, -(c as i64));
                        proof {
                            assert(j != i);
                            assert(self.expanded@ =~= before.expanded@);
                            assert forall|h: int| 0 <= h < self.history@.len() implies expanded_state(self.states@, self.expanded@, #[trigger] self.history@[h]) by {
                                let j2 = choose|j2: int| 0 <= j2 < before.states@.len() && before.expanded@[j2] && (#[trigger] before.states@[j2])@ == before.history@[h];
                                assert(self.expanded@[j2]);
                            }
                            assert forall|x: int, q: usize|
                                0 <= x < self.states@.len() && #[trigger] self.expanded@[x] && #[trigger] frontier_items(
                                    self.frontier,
                                ).contains_key(q) implies self.costs@[x] <= self.costs@[q as int] by {
                                assert(x != j);
                                if q != j {
                                    assert(frontier_items(before.frontier).contains_key(q));
                                }
                            }
                            assert forall|q: usize| #[trigger] frontier_items(self.frontier).contains_key(q)
                                implies self.costs@[i as int] <= self.costs@[q as int] by {
                                if q != j {
                                    assert(frontier_items(before.frontier).contains_key(q));
                                }
                            }
                            assert forall|x: int| 0 <= x < self.states@.len() && #[trigger] self.expanded@[x]
                                implies self.costs@[x] <= self.costs@[i as int] by {
                                assert(x != j);
                            }
                            assert forall|x: int| 0 <= x < self.states@.len() implies #[trigger] self.node_ok(x) by {
                                assert(before.node_ok(x));
                            }
                            assert forall|x: int| 0 <= x < self.states@.len() && #[trigger] self.expanded@[x]
                                implies self.closed_at(x) && !is_solved_state(self.states@[x]@) by {
                                assert(x != j);
                                assert(before.expanded@[x]);
                                assert(before.closed_at(x));
                                assert forall|m2: GameMove, t2: GameStateView|
                                    #[trigger] legal_move(self.states@[x]@, m2, t2) implies self.found_within(t2, self.costs@[x] + 1) by {
                                    assert(before.found_within(t2, before.costs@[x] + 1));
                                    let w = choose|w: int| 0 <= w < before.states@.len() && (#[trigger] before.states@[w])@ == t2
                                        && before.costs@[w] <= before.costs@[x] + 1;
                                    assert(self.states@[w] == before.states@[w]);
                                }
                            }
                            assert forall|kk: int| 0 <= kk < k + 1 implies self.found_within((#[trigger] succ@[kk]).1@, c as int) by {
                                if kk < k {
                                    assert(before.found_within(succ@[kk].1@, c as int));
                                    let w = choose|w: int| 0 <= w < before.states@.len() && (#[trigger] before.states@[w])@ == succ@[kk].1@
                                        && before.costs@[w] <= c;
                                    assert(self.states@[w] == before.states@[w]);
                                } else {
                                    assert(self.states@[j as int]@ == t);
                                }
                            }
                            assert(self.parents@[0] == before.parents@[0]);
                            assert(self.costs@[0] == before.costs@[0]);
                            assert forall|x: int| 0 <= x < self.states@.len() implies #[trigger] self.costs@[x] <= self.expansions by {
                                if x != j {
                                    assert(self.costs@[x] == before.costs@[x]);
                                }
                            }
                            assert forall|q: usize| #[trigger] frontier_items(self.frontier).contains_key(q) implies q < self.states@.len()
                                && frontier_items(self.frontier)[q] == -(self.costs@[q as int] as int) by {
                                if q != j {
                                    assert(frontier_items(before.frontier).contains_key(q));
                                }
                            }
                            assert forall|x: usize| x < self.states@.len() && x != i && !(#[trigger] self.expanded@[x as int])
                                implies frontier_items(self.frontier).contains_key(x) by {
                                if x != j {
                                    assert(!before.expanded@[x as int]);
                                }
                            }
                            assert(self.basics());
                            assert(self.queued_except(i as int));
                        }
                    } else {
                        assert(self.states@[j as int]@ == t);
                    }
                },
                None => {
                    let ghost before = *self;
                    let n = self.states.len();
                    let fresh = succ[k].1.duplicate();
                    self.states.push(fresh);
                    self.costs.push(c);
                    self.parents.push(Some((i, m)));
                    self.expanded.push(false);
                    frontier_push(&mut self.frontier, n, -(c as i64));
                    proof {
                        assert(self.states@[n as int]@ == t);
                        assert forall|a: int, b: int|
                            0 <= a < b < self.states@.len() implies (#[trigger] self.states@[a])@ != (#[trigger] self.states@[b])@ by {
                            assert(self.states@[a] == before.states@[a]);
                            if b < n {
                                assert(self.states@[b] == before.states@[b]);
                            } else {
                                assert(!before.found(t));
                                assert(before.states@[a]@ != t);
                            }
                        }
                        assert(reachable(root, si));
                        let pm = choose|pm: Seq<GameMove>| #[trigger] is_path(root, pm, si);
                        lemma_path_push(root, pm, si, m, t);
                        assert(reachable(root, t));
                        assert forall|j2: int| 0 <= j2 < self.states@.len() implies reachable(root, (#[trigger] self.states@[j2])@) by {
                            if j2 < n {
                                assert(self.states@[j2] == before.states@[j2]);
                            }
                        }
                        assert forall|h: int| 0 <= h < self.history@.len() implies expanded_state(self.states@, self.expanded@, #[trigger] self.history@[h]) by {
                            let j2 = choose|j2: int| 0 <= j2 < before.states@.len() && before.expanded@[j2] && (#[trigger] before.states@[j2])@ == before.history@[h];
                            assert(self.states@[j2] == before.states@[j2]);
                            assert(self.expanded@[j2] == before.expanded@[j2]);
                        }
                        assert forall|x: int| 0 <= x < self.states@.len() && #[trigger] self.expanded@[x]
                            implies self.costs@[x] <= self.costs@[i as int] by {
                            assert(x < n);
                            assert(self.expanded@[x] == before.expanded@[x]);
                            assert(self.costs@[x] == before.costs@[x]);
                        }
                        assert forall|x: int, q: usize|
                            0 <= x < self.states@.len() && #[trigger] self.expanded@[x] && #[trigger] frontier_items(
                                self.frontier,
                            ).contains_key(q) implies self.costs@[x] <= self.costs@[q as int] by {
                            assert(x < n);
                            assert(self.expanded@[x] == before.expanded@[x]);
                            assert(self.costs@[x] == before.costs@[x]);
                            if q != n {
                                assert(frontier_items(before.frontier).contains_key(q));
                                assert(self.costs@[q as int] == before.costs@[q as int]);
                            }
                        }
                        assert forall|q: usize| #[trigger] frontier_items(self.frontier).contains_key(q)
                            implies self.costs@[i as int] <= self.costs@[q as int] by {
                            if q != n {
                                assert(frontier_items(before.frontier).contains_key(q));
                                assert(self.costs@[q as int] == before.costs@[q as int]);
                            }
                        }
                        assert forall|x: int| 0 <= x < self.states@.len() implies #[trigger] self.node_ok(x) by {
                            if x < n {
                                assert(before.node_ok(x));
                                assert(self.states@[x] == before.states@[x]);
                            }
                        }
                        assert forall|x: int| 0 <= x < self.states@.len() implies #[trigger] self.costs@[x] <= self.expansions by {
                            if x < n {
                                assert(self.costs@[x] == before.costs@[x]);
                            }
                        }
                        assert forall|x: int| 0 <= x < self.states@.len() && #[trigger] self.expanded@[x]
                            implies self.closed_at(x) && !is_solved_state(self.states@[x]@) by {
                            assert(x < n);
                            assert(before.expanded@[x]);
                            assert(before.closed_at(x));
                            assert(self.states@[x] == before.states@[x]);
                            assert(self.costs@[x] == before.costs@[x]);
                            assert forall|m2: GameMove, t2: GameStateView|
                                #[trigger] legal_move(self.states@[x]@, m2, t2) implies self.found_within(t2, self.costs@[x] + 1) by {
                                assert(before.found_within(t2, before.costs@[x] + 1));
                                let w = choose|w: int| 0 <= w < before.states@.len() && (#[trigger] before.states@[w])@ == t2
                                    && before.costs@[w] <= before.costs@[x] + 1;
                                assert(self.states@[w] == before.states@[w]);
                                assert(self.costs@[w] == before.costs@[w]);
                            }
                        }
                        assert forall|kk: int| 0 <= kk < k + 1 implies self.found_within((#[trigger] succ@[kk]).1@, c as int) by {
                            if kk < k {
                                assert(before.found_within(succ@[kk].1@, c as int));
                                let w = choose|w: int| 0 <= w < before.states@.len() && (#[trigger] before.states@[w])@ == succ@[kk].1@
                                    && before.costs@[w] <= c;
                                assert(self.states@[w] == before.states@[w]);
                                assert(self.costs@[w] == before.costs@[w]);
                            } else {
                                assert(self.costs@[n as int] == c);
                            }
                        }
                        assert forall|x: usize| x < self.states@.len() && x != i && !(#[trigger] self.expanded@[x as int])
                            implies frontier_items(self.frontier).contains_key(x) by {
                            if x < n {
                                assert(self.expanded@[x as int] == before.expanded@[x as int]);
                            }
                        }
                        assert(self.parents@[0] == before.parents@[0]);
                        assert(self.costs@[0] == before.costs@[0]);
                        assert(self.basics());
                        assert(self.queued_except(i as int));
                    }
                },
            }
            k = k + 1;
        }
        let ghost before = *self;
        self.expanded[i] = true;
        self.history = Ghost(self.history@.push(si));
        proof {
            assert forall|h: int| 0 <= h < before.history@.len() implies (#[trigger] before.history@[h]) != si by {
                let j2 = choose|j2: int| 0 <= j2 < before.states@.len() && before.expanded@[j2] && (#[trigger] before.states@[j2])@ == before.history@[h];
                assert(j2 != i);
                if j2 < i {
                    assert(before.states@[j2]@ != before.states@[i as int]@);
                } else {
                    assert(before.states@[i as int]@ != before.states@[j2]@);
                }
            }
            assert forall|h: int| 0 <= h < self.history@.len() implies expanded_state(self.states@, self.expanded@, #[trigger] self.history@[h]) by {
                if h < before.history@.len() {
                    let j2 = choose|j2: int| 0 <= j2 < before.states@.len() && before.expanded@[j2] && (#[trigger] before.states@[j2])@ == before.history@[h];
                    assert(self.expanded@[j2]);
                } else {
                    assert(self.expanded@[i as int]);
                }
            }
            assert(self.history@.no_duplicates());
            assert(self.root() == root);
            assert(self.states@[0]@ == root);
            assert forall|j2: int| 0 <= j2 < self.states@.len() implies reachable(self.states@[0]@, (#[trigger] self.states@[j2])@) by {
                assert(reachable(root, before.states@[j2]@));
            }
            assert(self.history_ok());
            assert forall|x: int, q: usize|
                0 <= x < self.states@.len() && #[trigger] self.expanded@[x] && #[trigger] frontier_items(
                    self.frontier,
                ).contains_key(q) implies self.costs@[x] <= self.costs@[q as int] by {
                if x != i {
                    assert(before.expanded@[x]);
                }
            }
            assert(self.order_ok());
            assert forall|m: GameMove, t: GameStateView| #[trigger] legal_move(si, m, t) implies self.found_within(t, self.costs@[i as int] + 1) by {
                assert(lists(succ@, m, t));
                let kk = choose|kk: int| 0 <= kk < succ@.len() && succ@[kk].0 == m && succ@[kk].1@ == t;
                assert(self.found_within(succ@[kk].1@, c as int));
            }
            assert(self.closed_at(i as int));
            assert forall|x: int| 0 <= x < self.states@.len() && #[trigger] self.expanded@[x]
                implies self.closed_at(x) && !is_solved_state(self.states@[x]@) by {
                if x != i {
                    assert(before.expanded@[x]);
                }
            }
            assert forall|x: int| 0 <= x < self.states@.len() implies #[trigger] self.node_ok(x) by {
                assert(before.node_ok(x));
            }
            assert(self.basics());
            assert(self.queued_except(-1));
        }
    }
}

/// The number of states that `solve` lets its search expand.
pub const SEARCH_EXPANSIONS: u32 = 0xffff_ffff;

/// Searches for a shortest sequence of moves that solves `initial_state`:
/// `Solved` with one, `NoSolution` when every reachable state was seen and
/// none is solved, `Truncated` when the search expanded `SEARCH_EXPANSIONS`
/// distinct reachable states before either was settled.
pub fn solve(initial_state: GameState) -> (r: SearchResult)
    ensures
        r matches SearchResult::Solved(moves) ==> solves(initial_state@, moves@),
        r matches SearchResult::Solved(moves) ==> no_shorter_solution(initial_state@, moves@),
        r is NoSolution ==> forall|moves: Seq<GameMove>| !#[trigger] solves(initial_state@, moves),
        r is Truncated ==> exists|seen: Seq<GameStateView>|
            seen.no_duplicates() && seen.len() >= SEARCH_EXPANSIONS && forall|k: int|
                0 <= k < seen.len() ==> reachable(initial_state@, #[trigger] seen[k]),
        is_solved_state(initial_state@) ==> (r matches SearchResult::Solved(moves) && moves@.len() == 0),
{
    if initial_state.is_solved() {
        let moves: Vec<GameMove> = Vec::new();
        assert(is_path(initial_state@, moves@, initial_state@));
        return SearchResult::Solved(moves);
    }
    let mut state_graph = StateGraph::new(initial_state);
    let r = state_graph.dijkstra(SEARCH_EXPANSIONS);
    proof {
        state_graph.lemma_history();
        if r is Truncated {
            let seen = state_graph.history();
            assert(seen.len() >= SEARCH_EXPANSIONS);
            assert(forall|k: int| 0 <= k < seen.len() ==> reachable(initial_state@, #[trigger] seen[k]));
        }
    }
    r
}
} // verus!
