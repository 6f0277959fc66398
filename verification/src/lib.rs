//! Ascacou, a game for two on a board of 5 by 5 cells: the rules of the game on a
//! bitboard, a negamax search with alpha-beta pruning over a table of positions, an
//! evaluation of positions from their partly filled tiles, and a Monte-Carlo tree search.
//!
//! Every function of the library is verified against its contract; the few items that
//! are believed without proof stand for functions of `std`, `rand` and `indextree`, and
//! say so.

/// The game as texts: solve, play and list moves from the text of a position.
pub mod api;
/// Words as lists of bits.
pub mod bits;
/// The board, its legal moves and its score.
pub mod board;
/// The two colours.
pub mod color;
/// The evaluation of a position from its tiles, full and partly filled.
pub mod evaluation;
/// The text of a position.
pub mod fen;
/// A game between two players at a console.
pub mod game;
/// Tiles on masks of cells.
pub mod grid;
/// The order of moves by colour and cell.
pub mod heuristic;
/// The key of a position.
pub mod key;
/// What holds of every position and every move.
pub mod laws;
/// The Monte-Carlo tree search.
pub mod mcts;
/// Moves and their text.
pub mod mov;
/// The two players and their tiles.
pub mod player;
/// The alpha-beta search.
pub mod solver;
/// Sets of tile values.
pub mod tileset;
/// The table of positions of a search.
pub mod transposition_table;

pub use board::Board;
pub use color::Color;
pub use game::Game;
pub use mov::Move;
pub use player::Player;
pub use tileset::TileSet;
