//! Combined piece-square and threat features of chess positions.
pub mod attacks;
pub mod bits;
pub mod board;
pub mod bounds;
pub mod collisions;
pub mod corpus;
pub mod features;
pub mod fen;
pub mod geometry;
pub mod inputs;
pub mod laws;
pub mod magics;
pub mod meaning;
pub mod mirrored;
pub mod packed;
pub mod precompute;
pub mod premapped;
pub mod reach;
pub mod reading;
pub mod roundtrip;
pub mod sorting;
pub mod subsets;
pub mod sums;
pub mod tables;
pub mod text;
pub mod threats;
pub mod turned;
pub mod types;
