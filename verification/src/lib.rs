//! Blue-noise placement of blocks on a street map.
//!
//! A map is a rectangular area of whole-numbered coordinates, cut into
//! square chunks so that the blocks near a point are found without looking
//! at all of them. Blocks are placed by best-candidate sampling: every round
//! draws some random candidates and keeps the one farthest from the boundary
//! and from the blocks around it. Blocks can be joined by directed edges,
//! kept as linked lists in one flat store.
//!
//! - [`grid`]: the arithmetic of the chunk grid.
//! - [`model`]: what a map is, as a mathematical value, and what holds of it.
//! - [`setting`]: the map itself, its blocks, chunks and edges.
//! - [`sampler`]: scoring candidates and placing the best of them.
//! - [`random`]: the random source, the one part that is not verified.
//! - [`actor`]: the inhabitants of a settlement.

pub mod actor;
pub mod grid;
pub mod model;
pub mod random;
pub mod sampler;
pub mod setting;
