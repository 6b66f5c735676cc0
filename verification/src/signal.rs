//! A one-value signal between a producer of the value and a task waiting for
//! it.
//!
//! The signal is either idle, waited on by a task, or holding a value that
//! was signaled and not yet taken. Taking the value through `poll_wait`
//! makes it idle again.
use crate::waker::{clone_waker, wake_recorded};
use std::task::Waker;
use vstd::prelude::*;

verus! {

enum State<T> {
    Idle,
    Waiting(Waker),
    Signaled(T),
}

/// A signal that carries one value of type `T` to one waiting task.
///
/// The signal records, as a ghost log, every waker it has woken.
pub struct Signal<T> {
    state: State<T>,
    woken: Ghost<Seq<Waker>>,
}

impl<T> Signal<T> {
    /// The value that was signaled and not yet taken, if any.
    pub closed spec fn value(&self) -> Option<T> {
        match self.state {
            State::Signaled(v) => Some(v),
            _ => None,
        }
    }

    /// The waker of the task waiting for a value, if one is waiting.
    pub closed spec fn waiter(&self) -> Option<Waker> {
        match self.state {
            State::Waiting(w) => Some(w),
            _ => None,
        }
    }

    /// A task is waiting for a value.
    pub open spec fn is_waiting(&self) -> bool {
        self.waiter() is Some
    }

    /// The wakers this signal has woken, in order.
    pub closed spec fn woken(&self) -> Seq<Waker> {
        self.woken@
    }

    /// An idle signal, that has woken nothing.
    pub fn new() -> (s: Self)
        ensures
            s.value() is None,
            !s.is_waiting(),
            s.woken() == Seq::<Waker>::empty(),
    {
        Signal { state: State::Idle, woken: Ghost(Seq::empty()) }
    }

    /// Signal `val`, replacing a value not yet taken, and wake the waiting
    /// task if there is one.
    pub fn signal(&mut self, val: T)
        ensures
            final(self).value() == Some(val),
            !final(self).is_waiting(),
            final(self).woken() == match old(self).waiter() {
                Some(w) => old(self).woken().push(w),
                None => old(self).woken(),
            },
    {
        let mut prev = State::Signaled(val);
        core::mem::swap(&mut self.state, &mut prev);
        match prev {
            State::Waiting(waker) => wake_recorded(waker, &mut self.woken),
            _ => {},
        }
    }

    /// Take the signaled value (`Some`, ready); or else (`None`, pending)
    /// register `waker` as the task to wake when a value is signaled, unless
    /// a task is already waiting.
    pub fn poll_wait(&mut self, waker: &Waker) -> (r: Option<T>)
        ensures
            r == old(self).value(),
            final(self).value() is None,
            r is Some ==> !final(self).is_waiting(),
            r is None ==> final(self).is_waiting(),
            old(self).is_waiting() ==> final(self).waiter() == old(self).waiter(),
            final(self).woken() == old(self).woken(),
    {
        let mut prev = State::Idle;
        core::mem::swap(&mut self.state, &mut prev);
        match prev {
            State::Idle => {
                self.state = State::Waiting(clone_waker(waker));
                None
            },
            // A task is already waiting: it stays the one to wake.
            State::Waiting(w) => {
                self.state = State::Waiting(w);
                None
            },
            State::Signaled(res) => Some(res),
        }
    }
}

} // verus!
