//! A turn-minimizing maze pathfinder, together with a converter from binary
//! numerals to arbitrary-precision integers.

pub mod maze;
pub mod numbers;
pub mod paths;
