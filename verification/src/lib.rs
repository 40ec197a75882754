//! Synthetic directed graphs over a dense space of integer vertex ids:
//! a layered lattice, a grid of cells repeated over timesteps, and a random
//! edge set grown under a conservative cycle check.
//!
//! Every builder returns its edges as pairs `(tail, head)` of 32-bit ids. The
//! contracts speak of those pairs as pairs of mathematical integers, see
//! [`link::links_of`].

pub mod link;
pub mod comm;
pub mod grid;
pub mod grid_laws;
pub mod cube_flat;
pub mod cube_table;
pub mod cycle;
pub mod random;
pub mod render;
pub mod util;
