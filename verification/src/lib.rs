//! A 3-dimensional multi-state cellular automaton over a toroidal grid,
//! partitioned into fixed-size chunks.
//!
//! The engine advances the automaton in two phases per generation: a value
//! phase that ages every cell independently, and a neighbour-propagation
//! phase that pushes spawn and death events into the neighbour counters of
//! the surrounding cells.  All coordinate arithmetic, the grid invariants,
//! and the generation step itself are verified.

pub mod coords;
pub mod engine;
pub mod grid;
pub mod props;
pub mod rule;
