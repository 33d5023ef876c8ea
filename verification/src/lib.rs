//! Exhaustive solvability search for a free-cell solitaire layout:
//! 4 goal (foundation) piles, 4 single-card free cells, 10 tableau piles.
//!
//! The crate models the board, the legality rules for moves, the pruning
//! heuristics that keep the search tractable, an order-independent board
//! signature used to avoid revisiting configurations, and the depth-first
//! backtracking engine that drives them.

pub mod board;
pub mod card;
pub mod game;
pub mod model;
pub mod rules;
pub mod sig;
pub mod visited;
