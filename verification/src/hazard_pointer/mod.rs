//! Hazard pointers.
//!
//! A thread that wants to read a shared block first announces the block in a hazard slot that it
//! owns (`Shield::protect`). A thread that unlinked a block retires it (`RetiredSet::retire`) and
//! frees it only once no active slot announces it (`RetiredSet::collect`).
//!
//! Blocks are named by their addresses (plain `usize` values, `0` for the null pointer). Slots
//! live in a `HazardBag` and a `Shield` names the slot it owns by its position in the bag.

pub mod hazard;
pub mod retire;

pub use hazard::{HazardBag, Shield};
pub use retire::{collect, RetiredSet};
