//! A sparse two-dimensional matrix over a fixed grid of cells.
//!
//! Almost every cell of the grid holds one fixed default value; only the cells
//! that differ from it are stored, in rows sorted by row index, each row sorted
//! by column index.
pub mod axis;
pub mod error;
pub mod mat;
pub mod count;
pub mod sample;
pub mod render;
pub mod laws;
