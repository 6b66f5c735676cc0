//! Generic traits: how producers and consumers coordinate, how bytes are
//! stored, and how the two halves notify each other.
pub mod coordination;
pub mod notifier;
pub mod storage;
