//! Short names for the common flavors of [`BBQueue`].
//!
//! A queue is chosen by where its bytes are stored (inline, const-generic, or
//! on the heap), by how producer and consumer coordinate (a lock-free step,
//! or a critical section), and by how they are notified (blocking, or any
//! notifier `A`).
use crate::queue::BBQueue;
use crate::traits::coordination::cas::AtomicCoord;
use crate::traits::coordination::cs::CsCoord;
use crate::traits::notifier::Blocking;
use crate::traits::storage::{BoxedSlice, Inline};
use vstd::prelude::*;

verus! {

/// Inline storage, critical-section coordination, blocking.
pub type Jerk<const N: usize> = BBQueue<Inline<N>, CsCoord, Blocking>;

/// Inline storage, critical-section coordination, notifier `A`.
pub type Memphis<const N: usize, A> = BBQueue<Inline<N>, CsCoord, A>;

/// Inline storage, lock-free coordination, blocking.
pub type Churrasco<const N: usize> = BBQueue<Inline<N>, AtomicCoord, Blocking>;

/// Inline storage, lock-free coordination, notifier `A`.
pub type Texas<const N: usize, A> = BBQueue<Inline<N>, AtomicCoord, A>;

/// Heap storage, critical-section coordination, blocking.
pub type Braai = BBQueue<BoxedSlice, CsCoord, Blocking>;

/// Heap storage, critical-section coordination, notifier `A`.
pub type SiuMei<A> = BBQueue<BoxedSlice, CsCoord, A>;

/// Heap storage, lock-free coordination, blocking.
pub type YakiNiku = BBQueue<BoxedSlice, AtomicCoord, Blocking>;

/// Heap storage, lock-free coordination, notifier `A`.
pub type Tandoori<A> = BBQueue<BoxedSlice, AtomicCoord, A>;

} // verus!
