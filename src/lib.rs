//! Game of Life on square boards, one generation at a time, through a
//! quadtree of overlapping regions and a cache keyed by region content.
//!
//! - `cell`: the two cell states and the survive/birth rule.
//! - `grid`: flat boards, their next generation stated cell by cell, and the
//!   index arithmetic on them.
//! - `node`: the tree of a board, how it is built, and how it is advanced.
//! - `cache`: the store of regions already advanced.
//! - `universe`: a board that is advanced and edited step by step.
pub mod cell;
pub mod grid;
pub mod node;
pub mod cache;
pub mod universe;
