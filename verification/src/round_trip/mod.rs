//! There and back between the tiles and the globe, and how both lie to each other.
//!
//! One conversion and its reverse take nine rounded operations. What they are off by adds up to
//! far less than half a tile, and to less than a millionth of a degree.

pub mod compass;
pub mod globe;
pub mod places;
pub mod steps;
pub mod tiles;
