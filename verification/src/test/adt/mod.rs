//! Randomized checks of abstract data types.

pub mod set;
