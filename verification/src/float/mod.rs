//! Binary floating point on plain integers.
//!
//! Positions travel as single precision numbers and the map is drawn from double precision
//! coordinates. Both are held here by their encoding, and every operation is computed with
//! integers, so that its result is the one that IEEE 754 asks for on every machine: the exact
//! result, rounded to the nearest representable number, ties going to the even one.

pub mod bits;
pub mod double;
pub mod error;
pub mod exact;
pub mod laws;
pub mod model;
pub mod ops;
pub mod order;
pub mod round;
pub mod single;

pub use double::F64;
pub use single::F32;

