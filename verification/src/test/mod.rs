//! Testing utilities: random value generation and randomized checks of set implementations.

pub mod adt;
pub mod random;

pub use self::random::RandGen;
