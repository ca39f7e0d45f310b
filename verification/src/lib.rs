//! A verified core for a finite-grid Game of Life: a dense N-dimensional
//! array container, the simulation engine with snapshot and editing
//! operations, rotation-aware prefab placement, and a bit-packed binary
//! codec for board persistence.

pub mod dyn_array;
pub mod codec;
pub mod config;
pub mod engine;
pub mod laws;
pub mod prefab;
