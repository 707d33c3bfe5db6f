use freecell::cascade::fits_on_top_of;
use freecell::freecells;
use freecell::Suit::{Club, Diamond, Heart, Spade};
use freecell::{
    solve, Card, Cascade, Colour, Foundations, GameMove, GameState, Position, SearchResult,
    StateGraph, Suit, ACE, JACK, KING, QUEEN,
};

fn card(suit: Suit, rank: u8) -> Card {
    Card { suit, rank }
}

fn empty_cascades() -> [Cascade; 8] {
    [
        Cascade::new(),
        Cascade::new(),
        Cascade::new(),
        Cascade::new(),
        Cascade::new(),
        Cascade::new(),
        Cascade::new(),
        Cascade::new(),
    ]
}

fn full_suit(suit: Suit) -> Vec<Card> {
    (1..=13).map(|rank| card(suit, rank)).collect()
}

fn solved_state() -> GameState {
    GameState {
        cascades: empty_cascades(),
        foundations: Foundations([
            full_suit(Club),
            full_suit(Spade),
            full_suit(Heart),
            full_suit(Diamond),
        ]),
        freecells: [None, None, None, None],
    }
}

#[test]
fn test_solved() {
    let expected = GameState {
        cascades: empty_cascades(),
        foundations: Foundations([
            vec![
                Card { suit: Club, rank: ACE },
                Card { suit: Club, rank: 2 },
                Card { suit: Club, rank: 3 },
                Card { suit: Club, rank: 4 },
                Card { suit: Club, rank: 5 },
                Card { suit: Club, rank: 6 },
                Card { suit: Club, rank: 7 },
                Card { suit: Club, rank: 8 },
                Card { suit: Club, rank: 9 },
                Card { suit: Club, rank: 10 },
                Card { suit: Club, rank: JACK },
                Card { suit: Club, rank: QUEEN },
                Card { suit: Club, rank: KING },
            ],
            vec![
                Card { suit: Spade, rank: ACE },
                Card { suit: Spade, rank: 2 },
                Card { suit: Spade, rank: 3 },
                Card { suit: Spade, rank: 4 },
                Card { suit: Spade, rank: 5 },
                Card { suit: Spade, rank: 6 },
                Card { suit: Spade, rank: 7 },
                Card { suit: Spade, rank: 8 },
                Card { suit: Spade, rank: 9 },
                Card { suit: Spade, rank: 10 },
                Card { suit: Spade, rank: JACK },
                Card { suit: Spade, rank: QUEEN },
                Card { suit: Spade, rank: KING },
            ],
            vec![
                Card { suit: Heart, rank: ACE },
                Card { suit: Heart, rank: 2 },
                Card { suit: Heart, rank: 3 },
                Card { suit: Heart, rank: 4 },
                Card { suit: Heart, rank: 5 },
                Card { suit: Heart, rank: 6 },
                Card { suit: Heart, rank: 7 },
                Card { suit: Heart, rank: 8 },
                Card { suit: Heart, rank: 9 },
                Card { suit: Heart, rank: 10 },
                Card { suit: Heart, rank: JACK },
                Card { suit: Heart, rank: QUEEN },
                Card { suit: Heart, rank: KING },
            ],
            vec![
                Card { suit: Diamond, rank: ACE },
                Card { suit: Diamond, rank: 2 },
                Card { suit: Diamond, rank: 3 },
                Card { suit: Diamond, rank: 4 },
                Card { suit: Diamond, rank: 5 },
                Card { suit: Diamond, rank: 6 },
                Card { suit: Diamond, rank: 7 },
                Card { suit: Diamond, rank: 8 },
                Card { suit: Diamond, rank: 9 },
                Card { suit: Diamond, rank: 10 },
                Card { suit: Diamond, rank: JACK },
                Card { suit: Diamond, rank: QUEEN },
                Card { suit: Diamond, rank: KING },
            ],
        ]),
        freecells: [None, None, None, None],
    };

    // Build the same state card by card through the foundations' own rules.
    let mut foundations = Foundations::new();
    for suit in [Club, Spade, Heart, Diamond] {
        for rank in 1..=13 {
            foundations = foundations.add_card(card(suit, rank)).unwrap();
        }
    }
    let actual = GameState {
        cascades: empty_cascades(),
        foundations,
        freecells: [None, None, None, None],
    };

    assert_eq!(actual, expected);
    assert!(actual.is_solved());
}

#[test]
fn cascade_new_is_empty() {
    assert_eq!(Cascade::new(), Cascade(Vec::new()));
}

#[test]
fn cascade_add_and_pop_scenario() {
    let cascade = Cascade(vec![card(Spade, 9), card(Club, ACE), card(Heart, 7)]);
    assert_eq!(
        cascade.add_card(card(Spade, 6)),
        Ok(Cascade(vec![card(Spade, 9), card(Club, ACE), card(Heart, 7), card(Spade, 6)]))
    );
    assert_eq!(
        cascade.pop_card(),
        vec![(Cascade(vec![card(Spade, 9), card(Club, ACE)]), card(Heart, 7))]
    );
    // The receiver is left as it was.
    assert_eq!(cascade, Cascade(vec![card(Spade, 9), card(Club, ACE), card(Heart, 7)]));
}

#[test]
fn cascade_refuses_same_colour() {
    let cascade = Cascade(vec![card(Heart, 7)]);
    assert_eq!(cascade.add_card(card(Diamond, 6)), Err(()));
}

#[test]
fn cascade_refuses_wrong_rank() {
    let cascade = Cascade(vec![card(Heart, 7)]);
    assert_eq!(cascade.add_card(card(Spade, 5)), Err(()));
    assert_eq!(cascade.add_card(card(Spade, 7)), Err(()));
    assert_eq!(cascade.add_card(card(Spade, 8)), Err(()));
}

#[test]
fn empty_cascade_takes_any_card() {
    let cascade = Cascade::new();
    assert_eq!(cascade.add_card(card(Diamond, KING)), Ok(Cascade(vec![card(Diamond, KING)])));
    assert_eq!(cascade.add_card(card(Club, 5)), Ok(Cascade(vec![card(Club, 5)])));
    assert_eq!(cascade.pop_card(), Vec::new());
}

#[test]
fn add_and_pop_are_repeatable() {
    let cascade = Cascade(vec![card(Heart, 7)]);
    assert_eq!(cascade.add_card(card(Club, 6)), cascade.add_card(card(Club, 6)));
    assert_eq!(cascade.pop_card(), cascade.pop_card());
}

#[test]
fn fits_on_top_of_rule() {
    assert!(fits_on_top_of(card(Spade, 6), card(Heart, 7)));
    assert!(!fits_on_top_of(card(Diamond, 6), card(Heart, 7)));
    assert!(!fits_on_top_of(card(Spade, 5), card(Heart, 7)));
}

#[test]
fn suit_colours() {
    assert_eq!(Club.colour(), Colour::Black);
    assert_eq!(Spade.colour(), Colour::Black);
    assert_eq!(Heart.colour(), Colour::Red);
    assert_eq!(Diamond.colour(), Colour::Red);
}

#[test]
fn foundation_builds_by_suit_from_ace() {
    let f = Foundations::new();
    assert_eq!(f.add_card(card(Club, 2)), Err(()));
    let f = f.add_card(card(Heart, ACE)).unwrap();
    assert_eq!(f.0[2], vec![card(Heart, ACE)]);
    assert_eq!(f.add_card(card(Heart, 3)), Err(()));
    let f = f.add_card(card(Heart, 2)).unwrap();
    assert_eq!(f.0[2], vec![card(Heart, ACE), card(Heart, 2)]);
    assert!(f.0[0].is_empty() && f.0[1].is_empty() && f.0[3].is_empty());
}

#[test]
fn complete_foundation_takes_no_more() {
    let state = solved_state();
    assert!(state.foundations.is_complete());
    assert_eq!(state.foundations.add_card(card(Club, KING)), Err(()));
    assert_eq!(state.foundations.add_card(card(Club, ACE)), Err(()));
    assert!(!Foundations::new().is_complete());
}

#[test]
fn freecells_fill_first_empty_slot() {
    let cells = [None, Some(card(Club, 3)), None, None];
    assert_eq!(
        freecells::add_card(&cells, card(Heart, 9)),
        Ok([Some(card(Heart, 9)), Some(card(Club, 3)), None, None])
    );
    let full = [Some(card(Club, 3)), Some(card(Club, 4)), Some(card(Club, 5)), Some(card(Club, 6))];
    assert_eq!(freecells::add_card(&full, card(Heart, 9)), Err(()));
}

#[test]
fn freecells_pop_each_resident_card() {
    assert_eq!(freecells::pop_card(&[None, None, None, None]), Vec::new());
    let cells = [None, Some(card(Club, 3)), None, Some(card(Heart, 9))];
    assert_eq!(
        freecells::pop_card(&cells),
        vec![
            ([None, None, None, Some(card(Heart, 9))], card(Club, 3)),
            ([None, Some(card(Club, 3)), None, None], card(Heart, 9)),
        ]
    );
}

fn state_with(cascades: Vec<Vec<Card>>, freecells: [Option<Card>; 4]) -> GameState {
    let mut all = empty_cascades();
    for (i, cards) in cascades.into_iter().enumerate() {
        all[i] = Cascade(cards);
    }
    GameState { cascades: all, foundations: Foundations::new(), freecells }
}

#[test]
fn successors_of_a_lone_ace() {
    let state = state_with(vec![vec![card(Club, ACE)]], [None, None, None, None]);
    let moves = state.successors();
    // to the foundations, to each of the seven other cascades, to a free cell
    assert_eq!(moves.len(), 9);
    assert!(moves.iter().any(|(m, t)| *m
        == GameMove { from: Position::Cascade(0), to: Position::Foundations, card: card(Club, ACE) }
        && t.is_solved()));
}

#[test]
fn move_keeps_every_card() {
    let state = state_with(
        vec![vec![card(Spade, 9), card(Heart, 7)], vec![card(Club, 8)]],
        [Some(card(Diamond, 4)), None, None, None],
    );
    let count = |s: &GameState| {
        s.cascades.iter().map(|c| c.0.len()).sum::<usize>()
            + s.foundations.0.iter().map(|f| f.len()).sum::<usize>()
            + s.freecells.iter().filter(|c| c.is_some()).count()
    };
    for (_, t) in state.successors() {
        assert_eq!(count(&t), 4);
    }
}

#[test]
fn solved_state_needs_no_moves() {
    assert_eq!(solve(solved_state()), SearchResult::Solved(Vec::new()));
}

#[test]
fn one_move_deal() {
    let state = state_with(vec![vec![card(Club, ACE)]], [None, None, None, None]);
    assert_eq!(
        solve(state),
        SearchResult::Solved(vec![GameMove {
            from: Position::Cascade(0),
            to: Position::Foundations,
            card: card(Club, ACE),
        }])
    );
}

fn solution_len(r: SearchResult) -> Option<usize> {
    match r {
        SearchResult::Solved(moves) => Some(moves.len()),
        _ => None,
    }
}

#[test]
fn last_king_is_one_move_from_solved() {
    let mut clubs = full_suit(Club);
    clubs.pop();
    let mut cascades = empty_cascades();
    cascades[0] = Cascade(vec![card(Club, KING)]);
    let state = GameState {
        cascades,
        foundations: Foundations([clubs, full_suit(Spade), full_suit(Heart), full_suit(Diamond)]),
        freecells: [None, None, None, None],
    };
    assert_eq!(
        solve(state),
        SearchResult::Solved(vec![GameMove {
            from: Position::Cascade(0),
            to: Position::Foundations,
            card: card(Club, KING),
        }])
    );
}

#[test]
fn cascade_clone_and_default() {
    let cascade = Cascade(vec![card(Heart, 7)]);
    assert_eq!(cascade.clone(), cascade);
    assert_eq!(Cascade::default(), Cascade::new());
}

#[test]
fn shortest_solution_length() {
    // The two has to leave the ace first: three moves at the least.
    let state = state_with(vec![vec![card(Club, ACE), card(Club, 2)]], [None, None, None, None]);
    assert_eq!(solution_len(solve(state)), Some(3));
    // Two separate cards: two moves.
    let state = state_with(vec![vec![card(Club, 2)], vec![card(Club, ACE)]], [None, None, None, None]);
    assert_eq!(solution_len(solve(state)), Some(2));
    // An ace in a free cell, and a two of its suit above another ace.
    let state = state_with(
        vec![vec![card(Heart, ACE), card(Club, 2)]],
        [Some(card(Club, ACE)), None, None, None],
    );
    assert_eq!(solution_len(solve(state)), Some(3));
}

#[test]
fn deadlocked_deal_has_no_solution() {
    let cascades = vec![
        vec![card(Heart, 2)],
        vec![card(Heart, 3)],
        vec![card(Heart, 4)],
        vec![card(Heart, 5)],
        vec![card(Heart, 6)],
        vec![card(Heart, 7)],
        vec![card(Diamond, 2)],
        vec![card(Diamond, 3)],
    ];
    let cells = [
        Some(card(Diamond, 4)),
        Some(card(Diamond, 5)),
        Some(card(Diamond, 6)),
        Some(card(Diamond, 7)),
    ];
    let state = state_with(cascades.clone(), cells);
    assert!(state.successors().is_empty());
    let mut graph = StateGraph::new(state);
    assert!(matches!(graph.dijkstra(100), SearchResult::NoSolution));
    assert_eq!(solve(state_with(cascades, cells)), SearchResult::NoSolution);
}

#[test]
fn search_bound_truncates() {
    let state = state_with(vec![vec![card(Club, ACE), card(Club, 2)]], [None, None, None, None]);
    let mut graph = StateGraph::new(state);
    assert!(matches!(graph.dijkstra(1), SearchResult::Truncated));
    assert!(matches!(graph.dijkstra(u32::MAX), SearchResult::Solved(ref m) if m.len() == 3));
}

#[test]
fn same_as_compares_every_pile() {
    let a = state_with(vec![vec![card(Club, ACE)]], [None, None, None, None]);
    let b = state_with(vec![vec![card(Club, ACE)]], [None, None, None, None]);
    let c = state_with(vec![vec![], vec![card(Club, ACE)]], [None, None, None, None]);
    assert!(a.same_as(&b));
    assert!(!a.same_as(&c));
}

#[test]
fn parse_cascade_text() {
    let expected = Cascade(vec![card(Spade, 9), card(Club, ACE), card(Heart, 7)]);
    assert_eq!("9S AC 7H".parse::<Cascade>(), Ok(Cascade(vec![card(Spade, 9), card(Club, ACE), card(Heart, 7)])));
    assert_eq!(Cascade::parse(b"9s,ac, 7h"), Ok(expected));
    assert_eq!(Cascade::parse(b" 10D KC"), Ok(Cascade(vec![card(Diamond, 10), card(Club, KING)])));
    assert_eq!(Cascade::parse(b"TH2S"), Ok(Cascade(vec![card(Heart, 10), card(Spade, 2)])));
    assert_eq!(Cascade::parse(b""), Ok(Cascade::new()));
    assert_eq!("  ".parse::<Cascade>(), Ok(Cascade::new()));
}

#[test]
fn parse_cascade_rejects_other_text() {
    assert_eq!(Cascade::parse(b"9S XX"), Err(()));
    assert_eq!(Cascade::parse(b"9"), Err(()));
    assert_eq!(Cascade::parse(b"1S"), Err(()));
    assert_eq!("9S; 7H".parse::<Cascade>(), Err(()));
}

#[test]
fn parse_cascade_unicode_white_space() {
    assert_eq!("\u{c}".parse::<Cascade>(), Ok(Cascade::new()));
    assert_eq!("\u{b}\u{a0}\u{3000} ".parse::<Cascade>(), Ok(Cascade::new()));
    let expected = Cascade(vec![card(Spade, 9), card(Club, ACE)]);
    assert_eq!("9S\u{c}AC".parse::<Cascade>(), Ok(Cascade(vec![card(Spade, 9), card(Club, ACE)])));
    assert_eq!("9S\u{a0}AC".parse::<Cascade>(), Ok(Cascade(vec![card(Spade, 9), card(Club, ACE)])));
    assert_eq!("9S\u{2003}\u{85}AC".parse::<Cascade>(), Ok(expected));
    assert_eq!("9S\u{2010}AC".parse::<Cascade>(), Err(()));
}

#[test]
fn complete_foundation_refuses_rank_above_king() {
    let state = solved_state();
    assert_eq!(state.foundations.add_card(card(Spade, 14)), Err(()));
}
