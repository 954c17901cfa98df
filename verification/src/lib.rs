//! The broad phase of collision detection for a gas of circular particles in a
//! rectangular box: a uniform grid of square cells laid over the box, the
//! filing of particles into cells, the enumeration of the pairs of particles
//! that sit in neighbouring cells, and the selection of the pairs that an exact
//! overlap test has confirmed.
//!
//! Everything here works on whole numbers: a particle is known to the grid by
//! its position rounded down to whole length units and by its index in the
//! caller's particle array. Every function is verified against its contract.

pub mod error;
pub mod candidates;
pub mod grid;
pub mod neighbors;
pub mod overlap;
