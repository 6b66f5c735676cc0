//! Lock-free coordination, as used on targets with compare-and-swap atomics.
use super::{Coord, CoordState, ReadGrantError, WriteGrantError};
use vstd::prelude::*;

verus! {

/// Coordination in which each step updates the shared indices directly.
pub struct AtomicCoord {
    st: CoordState,
}

impl AtomicCoord {
    /// A coordination handler for an empty queue.
    pub fn new() -> (c: Self)
        ensures
            c.state() == CoordState::initial(),
    {
        AtomicCoord { st: CoordState::new() }
    }
}

impl Default for AtomicCoord {
    fn default() -> (c: Self)
        ensures
            c.state() == CoordState::initial(),
    {
        AtomicCoord::new()
    }
}

impl Coord for AtomicCoord {
    closed spec fn state(&self) -> CoordState {
        self.st
    }

    fn init() -> (c: Self) {
        AtomicCoord::new()
    }

    fn reset(&mut self) {
        self.st.reset();
    }

    fn grant_max_remaining(&mut self, capacity: usize, sz: usize) -> (r: Result<
        (usize, usize),
        WriteGrantError,
    >) {
        self.st.grant_max_remaining(capacity, sz)
    }

    fn grant_exact(&mut self, capacity: usize, sz: usize) -> (r: Result<usize, WriteGrantError>) {
        self.st.grant_exact(capacity, sz)
    }

    fn commit_inner(&mut self, capacity: usize, grant_len: usize, used: usize) {
        self.st.commit_inner(capacity, grant_len, used)
    }

    fn read(&mut self) -> (r: Result<(usize, usize), ReadGrantError>) {
        self.st.read()
    }

    fn split_read(&mut self) -> (r: Result<[(usize, usize); 2], ReadGrantError>) {
        self.st.split_read()
    }

    fn release_inner(&mut self, used: usize) {
        self.st.release_inner(used)
    }

    fn split_release_inner(&mut self, used1: usize, used2: usize) {
        self.st.split_release_inner(used1, used2)
    }
}

} // verus!
