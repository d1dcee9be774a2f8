//! Placement search and search-state bookkeeping for a block-stacking game.
//!
//! The crate finds every resting place a piece can reach on a board, and keeps
//! the simulated board, preview queue and hold slot that a search over such
//! placements walks through.
//!
//! - [`matrix`]: the grid of occupied cells.
//! - [`shape`] and [`table`]: the pieces, how they move and turn on a
//!   matrix, and the seven tetrominoes.
//! - [`place`] and [`finder`]: placements, and the search for all of them
//!   that a piece can reach.
//! - [`node`] and [`score`]: the state and the nodes of a search over
//!   placements, and how a matrix is scored.
//! - [`controls`]: key bindings.
//!
//! Every function states what it returns in its `ensures`, over the `spec`
//! functions beside it, and Verus proves that it does.

pub mod controls;
pub mod finder;
pub mod matrix;
pub mod node;
pub mod piece;
pub mod place;
pub mod score;
pub mod shape;
pub mod table;

pub use controls::{Action, Controls, EngineOp, KeyStroke};
pub use finder::{FinderView, PlaceFinder};
pub use matrix::BasicMatrix;
pub use node::{Node, Snapshot, State};
pub use piece::{Color, Input, Orientation, Transform};
pub use place::Place;
pub use score::{eval, penalty, Features, ScoreParams};
pub use shape::{NormalizedShapeTransform, Shape};
pub use table::{srs, ShapeRef, ShapeTable};
