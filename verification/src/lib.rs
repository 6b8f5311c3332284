//! A verified engine for Conway's Game of Life on a bounded square grid.
//!
//! The grid is sparse: it tracks only the cells that are alive together with
//! the cells adjacent to a live cell, so a generation step touches only the
//! active frontier instead of the whole board. A driver type implements the
//! reset policy of the simulation loop (stagnation and generation-count
//! triggers); randomized seeding draws its coordinates from the `rand` crate.

pub mod driver;
pub mod grid;
mod rng;
