//! Lock-free data structures.

pub mod list;
pub mod queue;
pub mod stack;

pub use list::List;
pub use queue::Queue;
pub use stack::Stack;
