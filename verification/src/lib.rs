//! The eight puzzle: nine cells in a three by three grid, eight tiles and a
//! blank, and the search for the moves of the blank that bring the tiles
//! back into order.
//!
//! * [`board`] holds the board and the moves of the blank, [`walk`] what
//!   sequences of moves do, and [`shuffle`] random moves.
//! * [`heuristic`] holds the two estimates of the distance to the goal.
//! * [`astar`] searches best-first and finds shortest paths; [`beam`] keeps
//!   only the best few boards of every layer. What the two searches answer
//!   is described step by step in [`hunt`] and [`sweep`], over the notions of
//!   [`model`]; [`node`], [`frontier`] and [`explored`] are their parts.
//! * [`puzzle`] and [`command`] are the textual surface: the operations as
//!   the command line names them, and the execution of one command line.
//! * [`text`] holds the handling of characters and numbers, and [`trusted`]
//!   the few statements about other code that are taken on trust.

pub mod astar;
pub mod beam;
pub mod board;
pub mod command;
pub mod explored;
pub mod frontier;
pub mod heuristic;
pub mod hunt;
pub mod model;
pub mod node;
pub mod puzzle;
pub mod search;
pub mod shuffle;
pub mod sweep;
pub mod text;
pub mod trusted;
pub mod walk;

pub use crate::board::{Direction, State};
pub use crate::command::{Command, Response, execute_statement, is_quit, is_solve};
pub use crate::heuristic::{Heuristic, h1, h2};
pub use crate::node::Node;
pub use crate::puzzle::{Puzzle, Reply, Request};
pub use crate::search::Outcome;
pub use crate::text::convert_str_to_int;
