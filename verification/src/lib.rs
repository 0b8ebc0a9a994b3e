//! A sliding-block parking-puzzle core: a rectangular grid of cars that
//! slide along their own axis, a ray-cast view engine reporting the distance
//! from each car to its nearest obstruction, and a backtracking search that
//! finds a sequence of single-cell shifts driving the objective car to the
//! exit wall.
//!
//! Coordinates are `u8`, so boards of up to 255 rows by 255 columns are
//! supported; larger maps are rejected at construction.

pub mod board;
pub mod geometry;
pub mod parse;
pub mod raycast;
pub mod search;
pub mod stats;
