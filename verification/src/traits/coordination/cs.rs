//! Critical-section based coordination, for targets without compare-and-swap
//! atomics. Each step of the state is computed inside
//! `critical_section::with`; the handler is reached through `&mut`, so nothing
//! else observes the state between the step and its write-back.
use super::{Coord, CoordState, ReadGrantError, WriteGrantError};
use vstd::prelude::*;

verus! {

/// Coordination that takes a critical section for each step.
///
/// The critical section is only taken for a short time to obtain or release
/// grants, not for the entire duration of the grant.
pub struct CsCoord {
    st: CoordState,
}

impl CsCoord {
    /// A coordination handler for an empty queue.
    pub fn new() -> (c: Self)
        ensures
            c.state() == CoordState::initial(),
    {
        CsCoord { st: CoordState::new() }
    }
}

impl Default for CsCoord {
    fn default() -> (c: Self)
        ensures
            c.state() == CoordState::initial(),
    {
        CsCoord::new()
    }
}

/// Runs `f` on `arg` inside a critical section: calls
/// `critical_section::with`, which acquires the critical section, runs its
/// closure once, releases the section, and returns the closure's result.
#[verifier::external_body]
fn with_critical_section<A, R, F: FnOnce(A) -> R>(f: F, arg: A) -> (r: R)
    requires
        f.requires((arg,)),
    ensures
        f.ensures((arg,), r),
{
    critical_section::with(|_cs| f(arg))
}

/// One `grant_max_remaining` step on a copy of the state: the result, and
/// the state after it.
fn grant_max_remaining_step(args: (CoordState, usize, usize)) -> (out: (
    Result<(usize, usize), WriteGrantError>,
    CoordState,
))
    requires
        args.0.write <= args.1,
    ensures
        CoordState::grant_max_remaining_post(args.0, out.1, args.1 as nat, args.2 as nat, out.0),
{
    let (mut s, capacity, sz) = args;
    let r = s.grant_max_remaining(capacity, sz);
    (r, s)
}

/// One `grant_exact` step on a copy of the state.
fn grant_exact_step(args: (CoordState, usize, usize)) -> (out: (
    Result<usize, WriteGrantError>,
    CoordState,
))
    requires
        args.0.write <= args.1,
    ensures
        CoordState::grant_exact_post(args.0, out.1, args.1 as nat, args.2 as nat, out.0),
{
    let (mut s, capacity, sz) = args;
    let r = s.grant_exact(capacity, sz);
    (r, s)
}

/// One `commit_inner` step on a copy of the state.
fn commit_step(args: (CoordState, usize, usize, usize)) -> (out: CoordState)
    requires
        args.0.write_in_progress ==> args.2 <= args.0.reserve,
    ensures
        out == args.0.commit_next(args.1 as nat, args.2 as nat, args.3 as nat),
{
    let (mut s, capacity, grant_len, used) = args;
    s.commit_inner(capacity, grant_len, used);
    s
}

/// One `read` step on a copy of the state.
fn read_step(st: CoordState) -> (out: (Result<(usize, usize), ReadGrantError>, CoordState))
    requires
        st.ordered(),
    ensures
        CoordState::read_post(st, out.1, out.0),
{
    let mut s = st;
    let r = s.read();
    (r, s)
}

/// One `split_read` step on a copy of the state.
fn split_read_step(st: CoordState) -> (out: (Result<[(usize, usize); 2], ReadGrantError>, CoordState))
    requires
        st.ordered(),
    ensures
        CoordState::split_read_post(st, out.1, out.0),
{
    let mut s = st;
    let r = s.split_read();
    (r, s)
}

/// One `release_inner` step on a copy of the state.
fn release_step(args: (CoordState, usize)) -> (out: CoordState)
    requires
        args.0.release_pre(args.1 as nat),
    ensures
        out == args.0.release_next(args.1 as nat),
{
    let (mut s, used) = args;
    s.release_inner(used);
    s
}

/// One `split_release_inner` step on a copy of the state.
fn split_release_step(args: (CoordState, usize, usize)) -> (out: CoordState)
    requires
        args.0.split_release_pre(args.1 as nat, args.2 as nat),
    ensures
        out == args.0.split_release_next(args.1 as nat, args.2 as nat),
{
    let (mut s, used1, used2) = args;
    s.split_release_inner(used1, used2);
    s
}

impl Coord for CsCoord {
    closed spec fn state(&self) -> CoordState {
        self.st
    }

    fn init() -> (c: Self) {
        CsCoord::new()
    }

    fn reset(&mut self) {
        self.st.reset();
    }

    fn grant_max_remaining(&mut self, capacity: usize, sz: usize) -> (r: Result<
        (usize, usize),
        WriteGrantError,
    >) {
        let (r, next) = with_critical_section(grant_max_remaining_step, (self.st, capacity, sz));
        self.st = next;
        r
    }

    fn grant_exact(&mut self, capacity: usize, sz: usize) -> (r: Result<usize, WriteGrantError>) {
        let (r, next) = with_critical_section(grant_exact_step, (self.st, capacity, sz));
        self.st = next;
        r
    }

    fn commit_inner(&mut self, capacity: usize, grant_len: usize, used: usize) {
        self.st = with_critical_section(commit_step, (self.st, capacity, grant_len, used));
    }

    fn read(&mut self) -> (r: Result<(usize, usize), ReadGrantError>) {
        let (r, next) = with_critical_section(read_step, self.st);
        self.st = next;
        r
    }

    fn split_read(&mut self) -> (r: Result<[(usize, usize); 2], ReadGrantError>) {
        let (r, next) = with_critical_section(split_read_step, self.st);
        self.st = next;
        r
    }

    fn release_inner(&mut self, used: usize) {
        self.st = with_critical_section(release_step, (self.st, used));
    }

    fn split_release_inner(&mut self, used1: usize, used2: usize) {
        self.st = with_critical_section(split_release_step, (self.st, used1, used2));
    }
}

} // verus!
