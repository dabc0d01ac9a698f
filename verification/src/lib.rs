//! The integer side of a vibe field: a scalar field over a 2D grid of
//! cells stored row by row.
//!
//! - `grid`: the row-major layout, and reading and writing cells;
//! - `ranks`: an order on binary64 values that agrees with IEEE 754 `>`;
//! - `extrema`: local maxima and minima over the eight neighbours;
//! - `neighborhood`: the cells within a Euclidean radius;
//! - `ledger`: when a deposit or a withdrawal of energy goes ahead;
//! - `stencil`: the samples of gradients, Laplacians and divergences;
//! - `registry`: named fields, each name once;
//! - `agents`: the readers that sample a field.

pub mod agents;
pub mod extrema;
pub mod grid;
pub mod ledger;
pub mod neighborhood;
pub mod ranks;
pub mod registry;
pub mod stencil;
