//! Elimination-backoff stack.

pub mod base;
pub mod elim;

pub use base::{ElimStack, Stack};
pub use elim::{PopAttempt, PushAttempt};
