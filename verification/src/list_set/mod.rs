//! Sorted list sets.

mod sorted;
pub mod fine_grained;
pub mod optimistic_fine_grained;

pub use fine_grained::FineGrainedListSet;
pub use optimistic_fine_grained::OptimisticFineGrainedListSet;
