//! Concurrent data structures and synchronization protocols: locks, lock-free containers,
//! hazard pointers, reference counting, behaviour-oriented concurrency and a split-ordered hash
//! table. Each is stated and proved as a state machine: shared memory is an owned value, a
//! pointer is a position, and each atomic step is a call that changes that value.

pub mod adt;
pub mod arc;
pub mod boc;
pub mod elim_stack;
pub mod hash_table;
pub mod hazard_pointer;
pub mod hello_server;
pub mod list_set;
pub mod lock;
pub mod lockfree;
pub mod test;

pub use adt::{ConcurrentMap, ConcurrentSet};
pub use hash_table::{GrowableArray, SplitOrderedList};
