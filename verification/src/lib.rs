//! Mesh topology and index logic of a Multiradius Bridge-Current thin-wire
//! Method of Moments solver.
//!
//! Real numbers (coordinates, radii, ground constants) are carried as the bit
//! patterns of IEEE-754 binary64 values; `binary64` says how the library reads
//! those patterns.
pub mod binary64;

pub mod geometry;
pub mod radiators;
pub mod matrix;
pub mod ground;
pub mod lookup;
