//! BBQueue: a single producer, single consumer bipbuffer queue of bytes.
//!
//! The coordination between producer and consumer is modelled as a sequential
//! state machine over plain integer indices, whose every step is verified to
//! keep the bipbuffer invariant and to behave as a first-in, first-out queue.
use vstd::prelude::*;

pub mod atomic;
pub mod bbqueue;
pub mod classic;
pub mod prod_cons;
pub mod nicknames;
pub mod queue;
pub mod signal;
pub mod traits;
pub mod vusize;
pub mod waker;

verus! {

} // verus!
