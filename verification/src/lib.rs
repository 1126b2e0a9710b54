//! A minesweeper core, verified: grid generation with mine placement and
//! derived neighbor counts, pointer-to-cell coordinate mapping, and the
//! reveal rules with their flood fill.

pub mod board;
pub mod cell;
pub mod grid;
pub mod reach;
