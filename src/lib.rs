//! Generation of rectangular labyrinths on a fixed six-by-six grid.
//!
//! A board starts from the full lattice of orthogonal adjacencies between
//! cells and turns randomly chosen connections into walls ("barriers"),
//! never accepting a wall that would cut some cell off from the others.
pub mod board;
pub mod chance;
pub mod grid;
pub mod live_graph;
pub mod render;
pub mod tier;
