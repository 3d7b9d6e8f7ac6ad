//! Locks.

pub mod api;
pub mod clhlock;
pub mod mcslock;
pub mod seqlock;

pub use api::{Lock, LockGuard, RawLock, RawTryLock};
pub use clhlock::ClhLock;
pub use mcslock::McsLock;
pub use seqlock::{RawSeqLock, SeqLock};
