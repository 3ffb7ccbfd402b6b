//! A maze-exploration library. A maze is a grid of walled cells; a population
//! of walkers explores it in lockstep discrete ticks, each walker advancing,
//! forking at junctions, or dying at dead ends and blocked paths, so that the
//! wavefront floods the maze breadth-first until a walker reaches the Target
//! cell. The grid model, the bitmap-flag decoder, and the per-tick stepping
//! engine are all specified against mathematical models and verified.

pub mod grid;
pub mod walker;
pub mod engine;
pub mod loader;
