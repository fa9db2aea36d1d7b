//! What the operations promise.
//!
//! Each law here speaks of calls: of what goes into an operation and of what
//! comes out of it.

pub mod copying;
pub mod executing;
pub mod filtering;
pub mod hashing;
pub mod mirroring;
pub mod places;
pub mod planning;
pub mod preparing;
pub mod resolving;
pub mod running;
pub mod scanning;
pub mod wording;
