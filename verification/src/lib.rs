//! A solver for the Countdown numbers game.
//!
//! Given a multiset of source numbers and a goal, the solver searches
//! breadth-first for a sequence of binary operations (`+`, `-`, `×`, `÷`) that
//! uses each number at most once and reaches the goal, or comes as close to it
//! as it can.
//!
//! - [`operation`]: one arithmetic move, when it is legal, and what it gives.
//! - [`number_list`]: the numbers that are left, as a sorted multiset.
//! - [`pairs`]: the operand pairs of a list, each pair of values once.
//! - [`candidate`]: a state of the game, and the moves that led to it.
//! - [`visited`]: the set of lists that a search has met.
//! - [`search`]: the search as a mathematical object, and what holds of it.
//! - [`reach`]: what can be reached in a game, and that the search finds it.
//! - [`solve`]: the solver itself.
//! - [`sorting`], [`text`]: ascending order, and decimal notation.
//!
//! Numbers are `u32`. An operation whose result would not fit is treated as
//! one that cannot be made: the search passes it over.

pub mod text;
pub mod operation;
pub mod sorting;
pub mod pairs;
pub mod number_list;
pub mod candidate;
pub mod visited;
pub mod search;
pub mod reach;
pub mod solve;
