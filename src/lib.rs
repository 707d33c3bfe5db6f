//! A FreeCell solitaire solver: the piles and their rules, the game state,
//! move generation, and a shortest-path search over game states.

pub mod card;
pub mod cascade;
pub mod foundation;
pub mod freecells;
mod frontier;
pub mod game_state;
pub mod laws;
pub mod parse;
pub mod position;
pub mod state_graph;

pub use card::{Card, Colour, Suit, ACE, JACK, KING, QUEEN};
pub use cascade::{Cascade, Cascades};
pub use foundation::Foundations;
pub use freecells::Freecells;
pub use game_state::GameState;
pub use position::{GameMove, Position};
pub use state_graph::{solve, SearchResult, StateGraph};
