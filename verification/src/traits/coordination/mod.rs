//! "Coordination" functionality
//!
//! The coordination state arbitrates between one producer and one consumer
//! sharing a ring of `capacity` bytes. It hands out at most one write grant
//! and at most one read grant at a time, and never lets the two overlap.
//!
//! The state is held in [`CoordState`]; its transitions are exact functions of
//! the state before the call, and the proof functions at the end of this file
//! state what those transitions mean for the bytes that are queued.
use crate::atomic::{fetch_add, fetch_sub, swap};
use vstd::prelude::*;

pub mod cas;
pub mod cs;

verus! {

/// Errors associated with obtaining a write grant
#[derive(PartialEq, Eq, Structural, Debug, Clone, Copy)]
pub enum WriteGrantError {
    /// Unable to create write grant due to not enough room in the buffer
    InsufficientSize,
    /// Unable to create write grant due to existing write grant
    GrantInProgress,
}

/// Errors associated with obtaining a read grant
#[derive(PartialEq, Eq, Structural, Debug, Clone, Copy)]
pub enum ReadGrantError {
    /// Unable to create read grant due to no available bytes
    Empty,
    /// Unable to create read grant due to existing read grant
    GrantInProgress,
    /// A frame header was observed that does not fit the readable bytes. This
    /// only happens when a stream producer feeds a framed consumer.
    InconsistentFrameHeader,
}

/// Coordination handler: arbitrates access to the storage between one
/// producer and one consumer.
///
/// Every method is an exact transition of [`CoordState`]: an implementation
/// hands out exactly the grants that the bipbuffer rules allow.
pub trait Coord: Sized {
    /// The indices and flags this handler currently holds.
    spec fn state(&self) -> CoordState;

    /// A handler for an empty queue.
    fn init() -> (c: Self)
        ensures
            c.state() == CoordState::initial(),
    ;

    /// Reset all values except the grant flags back to the initial empty state.
    fn reset(&mut self)
        ensures
            final(self).state() == old(self).state().reset_next(),
    ;

    /// Obtain a non-zero length grant up to `sz` bytes of available writing space.
    ///
    /// On success the result is `(offset, len)` of the region granted.
    fn grant_max_remaining(&mut self, capacity: usize, sz: usize) -> (r: Result<
        (usize, usize),
        WriteGrantError,
    >)
        requires
            old(self).state().write <= capacity,
        ensures
            CoordState::grant_max_remaining_post(
                old(self).state(),
                final(self).state(),
                capacity as nat,
                sz as nat,
                r,
            ),
    ;

    /// Obtain a grant of exactly `sz` bytes; on success the result is its offset.
    fn grant_exact(&mut self, capacity: usize, sz: usize) -> (r: Result<usize, WriteGrantError>)
        requires
            old(self).state().write <= capacity,
        ensures
            CoordState::grant_exact_post(
                old(self).state(),
                final(self).state(),
                capacity as nat,
                sz as nat,
                r,
            ),
    ;

    /// Make `used` bytes of the active write grant of `grant_len` bytes available.
    fn commit_inner(&mut self, capacity: usize, grant_len: usize, used: usize)
        requires
            old(self).state().write_in_progress ==> grant_len <= old(self).state().reserve,
        ensures
            final(self).state() == old(self).state().commit_next(
                capacity as nat,
                grant_len as nat,
                used as nat,
            ),
    ;

    /// Attempt to obtain a read grant. Returns `Ok((start, size))` on success.
    fn read(&mut self) -> (r: Result<(usize, usize), ReadGrantError>)
        requires
            old(self).state().ordered(),
        ensures
            CoordState::read_post(old(self).state(), final(self).state(), r),
    ;

    /// Attempt to obtain a split read grant: `Ok([(start1, size1), (start2, size2)])`.
    fn split_read(&mut self) -> (r: Result<[(usize, usize); 2], ReadGrantError>)
        requires
            old(self).state().ordered(),
        ensures
            CoordState::split_read_post(old(self).state(), final(self).state(), r),
    ;

    /// Mark `used` bytes as available for writing.
    fn release_inner(&mut self, used: usize)
        requires
            old(self).state().release_pre(used as nat),
        ensures
            final(self).state() == old(self).state().release_next(used as nat),
    ;

    /// Mark `used1 + used2` bytes of a split read grant as available for writing.
    fn split_release_inner(&mut self, used1: usize, used2: usize)
        requires
            old(self).state().split_release_pre(used1 as nat, used2 as nat),
        ensures
            final(self).state() == old(self).state().split_release_next(
                used1 as nat,
                used2 as nat,
            ),
    ;
}

/// The indices `lo, lo + 1, ..., hi - 1`, in order.
pub open spec fn span(lo: int, hi: int) -> Seq<int> {
    Seq::new((hi - lo) as nat, |k: int| lo + k)
}

/// The smaller of two naturals.
pub open spec fn min_nat(a: nat, b: nat) -> nat {
    if a <= b {
        a
    } else {
        b
    }
}

/// The indices and flags through which producer and consumer share a ring.
#[derive(Clone, Copy, Debug)]
pub struct CoordState {
    /// Where the next byte will be written
    pub write: usize,
    /// Where the next byte will be read from
    pub read: usize,
    /// In the inverted case, the end of the readable streak at the end of the ring
    pub last: usize,
    /// The end of the region reserved by the writer and not yet committed
    pub reserve: usize,
    /// Is there an active read grant?
    pub read_in_progress: bool,
    /// Is there an active write grant?
    pub write_in_progress: bool,
}

impl CoordState {
    /// The state of a fresh queue: every index zero, no grant active.
    pub open spec fn initial() -> CoordState {
        CoordState {
            write: 0,
            read: 0,
            last: 0,
            reserve: 0,
            read_in_progress: false,
            write_in_progress: false,
        }
    }

    /// The writer has wrapped around and the reader has not yet followed.
    pub open spec fn inverted(self) -> bool {
        self.write < self.read
    }

    /// In the inverted case the reader has not passed `last`.
    pub open spec fn ordered(self) -> bool {
        self.inverted() ==> self.read <= self.last
    }

    /// The bipbuffer invariant, for a ring of `cap` bytes.
    pub open spec fn wf(self, cap: nat) -> bool {
        &&& cap <= usize::MAX
        &&& self.write <= cap
        &&& self.read <= cap
        &&& self.last <= cap
        &&& self.reserve <= cap
        &&& self.inverted() ==> self.read <= self.last
        &&& !self.inverted() ==> self.write <= self.last
        &&& !self.write_in_progress ==> self.reserve == self.write
        &&& self.write_in_progress ==> if self.reserve >= self.write {
            self.inverted() ==> self.reserve < self.read
        } else {
            !self.inverted() && self.reserve < self.read
        }
    }

    /// Where the active write grant starts: at `write`, or at the start of the
    /// ring when the grant wrapped around.
    pub open spec fn grant_start(self) -> nat {
        if self.reserve >= self.write {
            self.write as nat
        } else {
            0
        }
    }

    /// Storage indices of the queued bytes, oldest first.
    pub open spec fn content(self) -> Seq<int> {
        if self.inverted() {
            span(self.read as int, self.last as int) + span(0, self.write as int)
        } else {
            span(self.read as int, self.write as int)
        }
    }

    /// Storage indices reserved by the active write grant.
    pub open spec fn reserved(self) -> Seq<int> {
        if self.write_in_progress {
            span(self.grant_start() as int, self.reserve as int)
        } else {
            Seq::empty()
        }
    }

    /// Length of the contiguous run of queued bytes that starts at `read`.
    pub open spec fn read_avail(self) -> nat {
        if self.inverted() {
            (self.last - self.read) as nat
        } else {
            (self.write - self.read) as nat
        }
    }

    /// Where a read starts: the reader follows the writer to the start of the
    /// ring once it has consumed everything up to `last`.
    pub open spec fn read_start(self) -> nat {
        if self.read == self.last && self.inverted() {
            0
        } else {
            self.read as nat
        }
    }

    /// Start of an exact grant of `sz` bytes, if there is room for one.
    pub open spec fn exact_start(self, cap: nat, sz: nat) -> Option<nat> {
        if self.inverted() {
            if self.write + sz < self.read {
                Some(self.write as nat)
            } else {
                None
            }
        } else if self.write + sz <= cap {
            Some(self.write as nat)
        } else if sz < self.read {
            Some(0)
        } else {
            None
        }
    }

    /// Start and length of a grant of up to `sz` bytes, if any room is left
    /// and `sz` is not zero: a grant handed out is never empty. It wraps to the
    /// start of the ring only when `write` is at the end.
    pub open spec fn max_remaining_grant(self, cap: nat, sz: nat) -> Option<(nat, nat)> {
        if sz == 0 {
            None
        } else if self.inverted() {
            let remain = (self.read - self.write - 1) as nat;
            if remain != 0 {
                Some((self.write as nat, min_nat(remain, sz)))
            } else {
                None
            }
        } else if self.write != cap {
            Some((self.write as nat, min_nat((cap - self.write) as nat, sz)))
        } else if self.read > 1 {
            Some((0, min_nat((self.read - 1) as nat, sz)))
        } else {
            None
        }
    }

    /// The state after a write grant `(start, len)` has been handed out.
    pub open spec fn granted(self, start: nat, len: nat) -> CoordState {
        CoordState { write_in_progress: true, reserve: (start + len) as usize, ..self }
    }

    /// The state after committing `used` bytes of a write grant of `glen` bytes.
    pub open spec fn commit_next(self, cap: nat, glen: nat, used: nat) -> CoordState {
        if !self.write_in_progress {
            self
        } else {
            let used = min_nat(glen, used);
            let new_write = self.reserve - (glen - used);
            let new_last = if new_write < self.write && self.write != cap {
                self.write
            } else if new_write > self.last {
                cap as usize
            } else {
                self.last
            };
            CoordState {
                write: new_write as usize,
                reserve: new_write as usize,
                last: new_last,
                write_in_progress: false,
                ..self
            }
        }
    }

    /// The state after releasing `used` bytes of the active read grant.
    pub open spec fn release_next(self, used: nat) -> CoordState {
        if !self.read_in_progress {
            self
        } else {
            CoordState { read: (self.read + used) as usize, read_in_progress: false, ..self }
        }
    }

    /// The state after `reset`: every index back to zero, flags kept.
    pub open spec fn reset_next(self) -> CoordState {
        CoordState { write: 0, read: 0, last: 0, reserve: 0, ..self }
    }

    /// What `grant_exact` does: refuse while a write grant is active, else
    /// hand out `sz` bytes at [`CoordState::exact_start`] or refuse for size.
    pub open spec fn grant_exact_post(
        old: CoordState,
        new: CoordState,
        cap: nat,
        sz: nat,
        r: Result<usize, WriteGrantError>,
    ) -> bool {
        if old.write_in_progress {
            r == Err::<usize, WriteGrantError>(WriteGrantError::GrantInProgress) && new == old
        } else {
            match old.exact_start(cap, sz) {
                Some(start) => r == Ok::<usize, WriteGrantError>(start as usize) && new == old.granted(
                    start,
                    sz,
                ),
                None => r == Err::<usize, WriteGrantError>(WriteGrantError::InsufficientSize) && new
                    == old,
            }
        }
    }

    /// What `grant_max_remaining` does: refuse while a write grant is active,
    /// else hand out [`CoordState::max_remaining_grant`] or refuse for size.
    pub open spec fn grant_max_remaining_post(
        old: CoordState,
        new: CoordState,
        cap: nat,
        sz: nat,
        r: Result<(usize, usize), WriteGrantError>,
    ) -> bool {
        if old.write_in_progress {
            r == Err::<(usize, usize), WriteGrantError>(WriteGrantError::GrantInProgress) && new
                == old
        } else {
            match old.max_remaining_grant(cap, sz) {
                Some((start, len)) => r == Ok::<(usize, usize), WriteGrantError>(
                    (start as usize, len as usize),
                ) && new == old.granted(start, len),
                None => r == Err::<(usize, usize), WriteGrantError>(
                    WriteGrantError::InsufficientSize,
                ) && new == old,
            }
        }
    }

    /// What `read` does: refuse while a read grant is active; else move the
    /// reader to [`CoordState::read_start`] and hand out the contiguous run of
    /// queued bytes there, or report `Empty` when there is none.
    pub open spec fn read_post(
        old: CoordState,
        new: CoordState,
        r: Result<(usize, usize), ReadGrantError>,
    ) -> bool {
        if old.read_in_progress {
            r == Err::<(usize, usize), ReadGrantError>(ReadGrantError::GrantInProgress) && new
                == old
        } else {
            let mid = CoordState { read: old.read_start() as usize, ..old };
            if mid.read_avail() == 0 {
                r == Err::<(usize, usize), ReadGrantError>(ReadGrantError::Empty) && new == mid
            } else {
                r == Ok::<(usize, usize), ReadGrantError>(
                    (mid.read as usize, mid.read_avail() as usize),
                ) && new == CoordState { read_in_progress: true, ..mid }
            }
        }
    }

    /// What `split_read` does: like `read`, but hands out both runs of queued
    /// bytes, the second one (at the start of the ring) empty unless inverted.
    pub open spec fn split_read_post(
        old: CoordState,
        new: CoordState,
        r: Result<[(usize, usize); 2], ReadGrantError>,
    ) -> bool {
        if old.read_in_progress {
            r == Err::<[(usize, usize); 2], ReadGrantError>(ReadGrantError::GrantInProgress)
                && new == old
        } else {
            let mid = CoordState { read: old.read_start() as usize, ..old };
            let second: nat = if mid.inverted() {
                mid.write as nat
            } else {
                0
            };
            if mid.read_avail() == 0 {
                r == Err::<[(usize, usize); 2], ReadGrantError>(ReadGrantError::Empty) && new
                    == mid
            } else {
                &&& r is Ok
                &&& r->Ok_0@ == seq![
                    (mid.read as usize, mid.read_avail() as usize),
                    (0usize, second as usize),
                ]
                &&& new == CoordState { read_in_progress: true, ..mid }
            }
        }
    }

    /// The state after releasing `used1` bytes of the first run of a split read
    /// grant and `used2` bytes of its second run.
    pub open spec fn split_release_next(self, used1: nat, used2: nat) -> CoordState {
        if !self.read_in_progress {
            self
        } else if used2 == 0 {
            CoordState { read: (self.read + used1) as usize, read_in_progress: false, ..self }
        } else {
            CoordState { read: used2 as usize, read_in_progress: false, ..self }
        }
    }

    /// What `split_release_inner` requires: the first run is released in full
    /// before anything of the second run is.
    pub open spec fn split_release_pre(self, used1: nat, used2: nat) -> bool {
        &&& self.ordered()
        &&& self.read_in_progress ==> {
            &&& used1 <= self.read_avail()
            &&& used2 > 0 ==> self.inverted() && used1 == self.read_avail() && used2
                <= self.write
        }
    }

    /// What `commit_inner` requires to keep the invariant: a grant length
    /// that does not exceed the active grant.
    pub open spec fn commit_pre(self, cap: nat, glen: nat) -> bool {
        &&& self.wf(cap)
        &&& self.write_in_progress ==> glen <= self.reserve - self.grant_start()
    }

    /// What `release_inner` requires: no more than the readable run is released.
    pub open spec fn release_pre(self, used: nat) -> bool {
        &&& self.ordered()
        &&& self.read_in_progress ==> used <= self.read_avail()
    }

    /// A fresh coordination state.
    pub fn new() -> (s: Self)
        ensures
            s == CoordState::initial(),
    {
        CoordState {
            write: 0,
            read: 0,
            last: 0,
            reserve: 0,
            read_in_progress: false,
            write_in_progress: false,
        }
    }

    /// Re-initialize every index, keeping the grant flags.
    pub fn reset(&mut self)
        ensures
            *final(self) == old(self).reset_next(),
    {
        self.write = 0;
        self.read = 0;
        self.reserve = 0;
        self.last = 0;
    }

    /// Obtain a non-empty grant of up to `sz` bytes without wrapping, unless
    /// `write` sits at the very end of the ring; zero bytes are refused.
    pub fn grant_max_remaining(&mut self, capacity: usize, sz: usize) -> (r: Result<
        (usize, usize),
        WriteGrantError,
    >)
        requires
            old(self).write <= capacity,
        ensures
            CoordState::grant_max_remaining_post(
                *old(self),
                *final(self),
                capacity as nat,
                sz as nat,
                r,
            ),
    {
        if swap(&mut self.write_in_progress, true) {
            return Err(WriteGrantError::GrantInProgress);
        }
        if sz == 0 {
            // A grant handed out is never empty.
            self.write_in_progress = false;
            return Err(WriteGrantError::InsufficientSize);
        }
        let write = self.write;
        let read = self.read;
        let max = capacity;
        let mut sz = sz;
        let start: usize;
        if write < read {
            let remain = read - write - 1;
            if remain != 0 {
                if remain < sz {
                    sz = remain;
                }
                start = write;
            } else {
                self.write_in_progress = false;
                return Err(WriteGrantError::InsufficientSize);
            }
        } else {
            if write != max {
                if max - write < sz {
                    sz = max - write;
                }
                start = write;
            } else {
                if read > 1 {
                    if read - 1 < sz {
                        sz = read - 1;
                    }
                    start = 0;
                } else {
                    self.write_in_progress = false;
                    return Err(WriteGrantError::InsufficientSize);
                }
            }
        }
        self.reserve = start + sz;
        Ok((start, sz))
    }

    /// Obtain a grant of exactly `sz` bytes, wrapping to the start of the ring
    /// when the end of the ring has too little room.
    pub fn grant_exact(&mut self, capacity: usize, sz: usize) -> (r: Result<usize, WriteGrantError>)
        requires
            old(self).write <= capacity,
        ensures
            CoordState::grant_exact_post(*old(self), *final(self), capacity as nat, sz as nat, r),
    {
        if swap(&mut self.write_in_progress, true) {
            return Err(WriteGrantError::GrantInProgress);
        }
        let write = self.write;
        let read = self.read;
        let max = capacity;
        let start: usize;
        if write < read {
            if sz < read - write {
                start = write;
            } else {
                self.write_in_progress = false;
                return Err(WriteGrantError::InsufficientSize);
            }
        } else {
            if sz <= max - write {
                start = write;
            } else {
                if sz < read {
                    start = 0;
                } else {
                    self.write_in_progress = false;
                    return Err(WriteGrantError::InsufficientSize);
                }
            }
        }
        self.reserve = start + sz;
        Ok(start)
    }

    /// Obtain the contiguous run of queued bytes at the reader's position.
    pub fn read(&mut self) -> (r: Result<(usize, usize), ReadGrantError>)
        requires
            old(self).ordered(),
        ensures
            CoordState::read_post(*old(self), *final(self), r),
    {
        if swap(&mut self.read_in_progress, true) {
            return Err(ReadGrantError::GrantInProgress);
        }
        let write = self.write;
        let last = self.last;
        let mut read = self.read;
        if read == last && write < read {
            read = 0;
            self.read = 0;
        }
        let sz = if write < read {
            last - read
        } else {
            write - read
        };
        if sz == 0 {
            self.read_in_progress = false;
            return Err(ReadGrantError::Empty);
        }
        Ok((read, sz))
    }

    /// Obtain both runs of queued bytes: the one at the reader's position and,
    /// when inverted, the one at the start of the ring.
    pub fn split_read(&mut self) -> (r: Result<[(usize, usize); 2], ReadGrantError>)
        requires
            old(self).ordered(),
        ensures
            CoordState::split_read_post(*old(self), *final(self), r),
    {
        if swap(&mut self.read_in_progress, true) {
            return Err(ReadGrantError::GrantInProgress);
        }
        let write = self.write;
        let last = self.last;
        let mut read = self.read;
        if read == last && write < read {
            read = 0;
            self.read = 0;
        }
        let (sz1, sz2) = if write < read {
            (last - read, write)
        } else {
            (write - read, 0)
        };
        if sz1 == 0 {
            self.read_in_progress = false;
            return Err(ReadGrantError::Empty);
        }
        let r = [(read, sz1), (0, sz2)];
        assert(r@ =~= seq![(read, sz1), (0usize, sz2)]);
        Ok(r)
    }

    /// Free the first `used1` bytes of the first run and the first `used2`
    /// bytes of the second run of a split read grant.
    pub fn split_release_inner(&mut self, used1: usize, used2: usize)
        requires
            old(self).split_release_pre(used1 as nat, used2 as nat),
        ensures
            *final(self) == old(self).split_release_next(used1 as nat, used2 as nat),
    {
        if !self.read_in_progress {
            return;
        }
        if used2 == 0 {
            self.read = self.read + used1;
        } else {
            self.read = used2;
        }
        self.read_in_progress = false;
    }

    /// Make `used` (at most `grant_len`) bytes of the active write grant
    /// readable; does nothing when no write grant is active.
    pub fn commit_inner(&mut self, capacity: usize, grant_len: usize, used: usize)
        requires
            old(self).write_in_progress ==> grant_len <= old(self).reserve,
        ensures
            *final(self) == old(self).commit_next(capacity as nat, grant_len as nat, used as nat),
    {
        if !self.write_in_progress {
            return;
        }
        let len = grant_len;
        let used = if len < used {
            len
        } else {
            used
        };
        let write = self.write;
        fetch_sub(&mut self.reserve, len - used);
        let max = capacity;
        let last = self.last;
        let new_write = self.reserve;
        if new_write < write && write != max {
            self.last = write;
        } else if new_write > last {
            self.last = max;
        }
        self.write = new_write;
        self.write_in_progress = false;
    }

    /// Free `used` bytes at the front of the queue; does nothing when no read
    /// grant is active.
    pub fn release_inner(&mut self, used: usize)
        requires
            old(self).release_pre(used as nat),
        ensures
            *final(self) == old(self).release_next(used as nat),
    {
        if !self.read_in_progress {
            return;
        }
        fetch_add(&mut self.read, used);
        self.read_in_progress = false;
    }
}

/// A fresh coordination state satisfies the invariant for every capacity.
pub proof fn lemma_initial_wf(cap: nat)
    requires
        cap <= usize::MAX,
    ensures
        CoordState::initial().wf(cap),
        CoordState::initial().content() == Seq::<int>::empty(),
        CoordState::initial().reserved() == Seq::<int>::empty(),
{
    assert(CoordState::initial().content() =~= Seq::<int>::empty());
}

/// The invariant holds after any `grant_exact`.
pub proof fn lemma_grant_exact_keeps_wf(
    old: CoordState,
    new: CoordState,
    cap: nat,
    sz: nat,
    r: Result<usize, WriteGrantError>,
)
    requires
        old.wf(cap),
        CoordState::grant_exact_post(old, new, cap, sz, r),
    ensures
        new.wf(cap),
        new.content() == old.content(),
{
}

/// The invariant holds after any `grant_max_remaining`.
pub proof fn lemma_grant_max_remaining_keeps_wf(
    old: CoordState,
    new: CoordState,
    cap: nat,
    sz: nat,
    r: Result<(usize, usize), WriteGrantError>,
)
    requires
        old.wf(cap),
        CoordState::grant_max_remaining_post(old, new, cap, sz, r),
    ensures
        new.wf(cap),
        new.content() == old.content(),
{
}

/// A grant of up to `sz` bytes is never empty and never longer than `sz`, a
/// request for zero bytes is refused, and a grant wraps to the start of the
/// ring only when `write` is at the end of it.
pub proof fn lemma_max_remaining_shape(s: CoordState, cap: nat, sz: nat)
    requires
        s.wf(cap),
    ensures
        sz == 0 ==> s.max_remaining_grant(cap, sz) is None,
        match s.max_remaining_grant(cap, sz) {
            Some((start, len)) => {
                &&& 0 < len <= sz
                &&& start + len <= cap
                &&& (!s.inverted() && s.write < cap) ==> start == s.write
            },
            None => true,
        },
{
}

/// On a fresh ring of `cap` bytes an exact grant of `sz` bytes is handed out,
/// at the start of the ring, exactly when `sz <= cap`.
pub proof fn lemma_fresh_exact_grant(cap: nat, sz: nat)
    ensures
        CoordState::initial().exact_start(cap, sz) == (if sz <= cap {
            Some(0nat)
        } else {
            None
        }),
{
}

/// Reading never changes which bytes are queued; it hands out a non-empty
/// run at the front of the queue, which is either all of the queued bytes or
/// ends where they continue at the start of the ring, and reports `Empty`
/// exactly when nothing is queued.
pub proof fn lemma_read_front(
    old: CoordState,
    new: CoordState,
    cap: nat,
    r: Result<(usize, usize), ReadGrantError>,
)
    requires
        old.wf(cap),
        CoordState::read_post(old, new, r),
    ensures
        new.wf(cap),
        new.content() == old.content(),
        new.write == old.write,
        new.reserve == old.reserve,
        new.write_in_progress == old.write_in_progress,
        new.grant_start() == old.grant_start(),
        new.reserved() == old.reserved(),
        match r {
            Ok((start, len)) => {
                &&& !old.read_in_progress
                &&& new.read_in_progress
                &&& new.read == start
                &&& len == new.read_avail()
                &&& 0 < len <= old.content().len()
                &&& old.content().take(len as int) == span(start as int, start + len)
                &&& len < old.content().len() ==> old.content()[len as int] == 0
            },
            Err(ReadGrantError::Empty) => !old.read_in_progress && old.content().len() == 0
                && !new.read_in_progress,
            Err(ReadGrantError::GrantInProgress) => old.read_in_progress && new == old,
            Err(ReadGrantError::InconsistentFrameHeader) => false,
        },
{
    if !old.read_in_progress {
        let mid = CoordState { read: old.read_start() as usize, ..old };
        assert(mid.content() =~= old.content());
        if mid.inverted() {
            assert(mid.content().take(mid.read_avail() as int) =~= span(
                mid.read as int,
                mid.read + mid.read_avail(),
            ));
        } else {
            assert(mid.content().take(mid.read_avail() as int) =~= span(
                mid.read as int,
                mid.read + mid.read_avail(),
            ));
        }
    }
}

/// Committing `used` bytes of the active write grant appends the first
/// `min(used, glen)` reserved indices to the queue, and keeps the invariant.
pub proof fn lemma_commit_appends(s: CoordState, cap: nat, glen: nat, used: nat)
    requires
        s.wf(cap),
        s.write_in_progress,
        glen == s.reserve - s.grant_start(),
    ensures
        s.commit_next(cap, glen, used).wf(cap),
        s.commit_next(cap, glen, used).content() == s.content() + span(
            s.grant_start() as int,
            (s.grant_start() + min_nat(glen, used)) as int,
        ),
        s.commit_next(cap, glen, used).read == s.read,
        s.commit_next(cap, glen, used).read_in_progress == s.read_in_progress,
        s.commit_next(cap, glen, used).read_avail() >= s.read_avail(),
        !s.commit_next(cap, glen, used).write_in_progress,
{
    let n = s.commit_next(cap, glen, used);
    let u = min_nat(glen, used);
    let st = s.grant_start() as int;
    if s.inverted() {
        assert(n.content() =~= s.content() + span(st, st + u));
    } else if s.reserve >= s.write {
        assert(n.content() =~= s.content() + span(st, st + u));
    } else {
        assert(n.content() =~= s.content() + span(st, st + u));
    }
}

/// Committing any amount up to the active grant keeps the invariant, even
/// with a grant length shorter than the reserved region.
pub proof fn lemma_commit_keeps_wf(s: CoordState, cap: nat, glen: nat, used: nat)
    requires
        s.commit_pre(cap, glen),
    ensures
        s.commit_next(cap, glen, used).wf(cap),
{
}

/// Releasing `used` bytes of the active read grant drops them from the front
/// of the queue, and keeps the invariant.
pub proof fn lemma_release_drops(s: CoordState, cap: nat, used: nat)
    requires
        s.wf(cap),
        s.read_in_progress,
        used <= s.read_avail(),
    ensures
        s.release_next(used).wf(cap),
        s.release_next(used).content() == s.content().skip(used as int),
        s.release_next(used).reserved() == s.reserved(),
        s.release_next(used).write == s.write,
        s.release_next(used).reserve == s.reserve,
        s.release_next(used).write_in_progress == s.write_in_progress,
        !s.release_next(used).read_in_progress,
{
    let n = s.release_next(used);
    assert(n.content() =~= s.content().skip(used as int));
    assert(n.reserved() =~= s.reserved());
}

/// A split read never changes which bytes are queued; its two runs together
/// are exactly the queued bytes, and it reports `Empty` exactly when nothing is
/// queued.
pub proof fn lemma_split_read_covers(
    old: CoordState,
    new: CoordState,
    cap: nat,
    r: Result<[(usize, usize); 2], ReadGrantError>,
)
    requires
        old.wf(cap),
        CoordState::split_read_post(old, new, r),
    ensures
        new.wf(cap),
        new.content() == old.content(),
        new.reserved() == old.reserved(),
        new.write == old.write,
        new.reserve == old.reserve,
        new.write_in_progress == old.write_in_progress,
        match r {
            Ok(runs) => {
                &&& !old.read_in_progress
                &&& new.read_in_progress
                &&& runs@[0].0 == new.read
                &&& runs@[0].1 == new.read_avail()
                &&& runs@[0].1 > 0
                &&& runs@[1].0 == 0
                &&& (runs@[1].1 > 0 ==> new.inverted() && runs@[1].1 == new.write)
                &&& old.content() == span(runs@[0].0 as int, runs@[0].0 + runs@[0].1) + span(
                    0,
                    runs@[1].1 as int,
                )
            },
            Err(ReadGrantError::Empty) => !old.read_in_progress && old.content().len() == 0
                && !new.read_in_progress,
            Err(ReadGrantError::GrantInProgress) => old.read_in_progress && new == old,
            Err(ReadGrantError::InconsistentFrameHeader) => false,
        },
{
    if !old.read_in_progress {
        let mid = CoordState { read: old.read_start() as usize, ..old };
        assert(mid.content() =~= old.content());
        if mid.inverted() {
        } else {
            assert(mid.content() =~= span(mid.read as int, mid.write as int) + span(0, 0));
        }
    }
}

/// Releasing from a split read grant drops the released bytes from the front
/// of the queue, and keeps the invariant.
pub proof fn lemma_split_release_drops(s: CoordState, cap: nat, used1: nat, used2: nat)
    requires
        s.wf(cap),
        s.read_in_progress,
        s.split_release_pre(used1, used2),
    ensures
        s.split_release_next(used1, used2).wf(cap),
        s.split_release_next(used1, used2).content() == s.content().skip((used1 + used2) as int),
        s.split_release_next(used1, used2).reserved() == s.reserved(),
        s.split_release_next(used1, used2).write == s.write,
        s.split_release_next(used1, used2).reserve == s.reserve,
        s.split_release_next(used1, used2).write_in_progress == s.write_in_progress,
        !s.split_release_next(used1, used2).read_in_progress,
{
    let n = s.split_release_next(used1, used2);
    assert(n.content() =~= s.content().skip((used1 + used2) as int));
    assert(n.reserved() =~= s.reserved());
}

/// The first `len` queued indices, for any `len` up to the readable run, are
/// the contiguous indices starting at `read`.
pub proof fn lemma_front_run(s: CoordState, cap: nat, len: nat)
    requires
        s.wf(cap),
        len <= s.read_avail(),
    ensures
        len <= s.content().len(),
        s.read + len <= cap,
        s.content().take(len as int) == span(s.read as int, s.read + len),
{
    assert(s.content().take(len as int) =~= span(s.read as int, s.read + len));
}

/// `reset` keeps the invariant and empties the queue.
pub proof fn lemma_reset_empties(s: CoordState, cap: nat)
    requires
        cap <= usize::MAX,
    ensures
        s.reset_next().wf(cap),
        s.reset_next().content() == Seq::<int>::empty(),
{
    assert(s.reset_next().content() =~= Seq::<int>::empty());
}

/// What is written is read back: on a queue with nothing queued and no grant
/// active, an exact grant of `n` bytes at `start`, committed in full, is
/// handed out whole by the next read, at the same place in the ring.
pub proof fn lemma_write_then_read(
    s: CoordState,
    cap: nat,
    n: nat,
    s1: CoordState,
    start: usize,
    s3: CoordState,
    r: Result<(usize, usize), ReadGrantError>,
)
    requires
        s.wf(cap),
        s.content().len() == 0,
        !s.write_in_progress,
        !s.read_in_progress,
        n > 0,
        CoordState::grant_exact_post(s, s1, cap, n, Ok(start)),
        CoordState::read_post(s1.commit_next(cap, n, n), s3, r),
    ensures
        r == Ok::<(usize, usize), ReadGrantError>((start, n as usize)),
{
    let s2 = s1.commit_next(cap, n, n);
    lemma_grant_exact_keeps_wf(s, s1, cap, n, Ok(start));
    lemma_commit_appends(s1, cap, n, n);
    assert(s1.content() =~= s.content());
    assert(s2.content() =~= span(start as int, start + n));
    lemma_read_front(s2, s3, cap, r);
    let mid = CoordState { read: s2.read_start() as usize, ..s2 };
    assert(mid.content() =~= s2.content());
    if mid.inverted() {
        if mid.read_avail() < n {
            assert(mid.content()[mid.read_avail() as int] == 0);
            assert(mid.content()[0] == start);
            if mid.read_avail() > 0 {
                assert(mid.content()[mid.read_avail() - 1] == mid.last - 1);
            }
        }
    }
}

/// No index of the ring holds two queued bytes.
pub proof fn lemma_content_distinct(s: CoordState, cap: nat)
    requires
        s.wf(cap),
    ensures
        forall|j: int, k: int|
            0 <= j < s.content().len() && 0 <= k < s.content().len() && j != k
                ==> #[trigger] s.content()[j] != #[trigger] s.content()[k],
{
}

/// Every queued index and every reserved index lies in the ring, and no
/// index is both queued and reserved: the producer never writes where the
/// consumer reads.
pub proof fn lemma_regions_disjoint(s: CoordState, cap: nat)
    requires
        s.wf(cap),
    ensures
        forall|k: int| 0 <= k < s.content().len() ==> 0 <= #[trigger] s.content()[k] < cap,
        forall|k: int| 0 <= k < s.reserved().len() ==> 0 <= #[trigger] s.reserved()[k] < cap,
        forall|j: int, k: int|
            0 <= j < s.content().len() && 0 <= k < s.reserved().len() ==> #[trigger] s.content()[j]
                != #[trigger] s.reserved()[k],
{
}


/// The invariant is kept by every step: from a well-formed state, each grant,
/// read, commit of at most the active grant, release of at most the readable
/// run, and reset leads to a well-formed state again. So `write`, `read`,
/// `last` and `reserve` stay within the ring, and the conditions on the active
/// write grant keep holding, whatever sequence of steps is taken.
pub proof fn lemma_every_step_keeps_wf(s: CoordState, cap: nat)
    requires
        s.wf(cap),
    ensures
        forall|n: CoordState, sz: nat, r: Result<usize, WriteGrantError>|
            #[trigger] CoordState::grant_exact_post(s, n, cap, sz, r) ==> n.wf(cap),
        forall|n: CoordState, sz: nat, r: Result<(usize, usize), WriteGrantError>|
            #[trigger] CoordState::grant_max_remaining_post(s, n, cap, sz, r) ==> n.wf(cap),
        forall|n: CoordState, r: Result<(usize, usize), ReadGrantError>|
            #[trigger] CoordState::read_post(s, n, r) ==> n.wf(cap),
        forall|n: CoordState, r: Result<[(usize, usize); 2], ReadGrantError>|
            #[trigger] CoordState::split_read_post(s, n, r) ==> n.wf(cap),
        forall|glen: nat, used: nat|
            s.commit_pre(cap, glen) ==> #[trigger] s.commit_next(cap, glen, used).wf(cap),
        forall|used: nat| s.release_pre(used) ==> #[trigger] s.release_next(used).wf(cap),
        forall|used1: nat, used2: nat|
            s.split_release_pre(used1, used2) ==> #[trigger] s.split_release_next(
                used1,
                used2,
            ).wf(cap),
        s.reset_next().wf(cap),
{
    assert forall|n: CoordState, r: Result<(usize, usize), ReadGrantError>|
        #[trigger] CoordState::read_post(s, n, r) implies n.wf(cap) by {
        lemma_read_front(s, n, cap, r);
    }
    assert forall|n: CoordState, r: Result<[(usize, usize); 2], ReadGrantError>|
        #[trigger] CoordState::split_read_post(s, n, r) implies n.wf(cap) by {
        lemma_split_read_covers(s, n, cap, r);
    }
    assert forall|used: nat| s.release_pre(used) implies #[trigger] s.release_next(used).wf(
        cap,
    ) by {
        if s.read_in_progress {
            lemma_release_drops(s, cap, used);
        }
    }
    assert forall|used1: nat, used2: nat| s.split_release_pre(used1, used2) implies
        #[trigger] s.split_release_next(used1, used2).wf(cap) by {
        if s.read_in_progress {
            lemma_split_release_drops(s, cap, used1, used2);
        }
    }
    lemma_reset_empties(s, cap);
}

/// Every step is decided by the state before it: two coordination handlers
/// of any kind (critical-section or lock-free) that hold the same indices and
/// flags and take the same `grant_exact` return the same result and end in the
/// same state.
pub proof fn lemma_handlers_agree_grant_exact<A: Coord, B: Coord>(
    a: A,
    a_next: A,
    ra: Result<usize, WriteGrantError>,
    b: B,
    b_next: B,
    rb: Result<usize, WriteGrantError>,
    cap: nat,
    sz: nat,
)
    requires
        a.state() == b.state(),
        CoordState::grant_exact_post(a.state(), a_next.state(), cap, sz, ra),
        CoordState::grant_exact_post(b.state(), b_next.state(), cap, sz, rb),
    ensures
        ra == rb,
        a_next.state() == b_next.state(),
{
}

/// Two handlers that hold the same indices and flags and take the same
/// `grant_max_remaining` return the same result and end in the same state.
pub proof fn lemma_handlers_agree_grant_max_remaining<A: Coord, B: Coord>(
    a: A,
    a_next: A,
    ra: Result<(usize, usize), WriteGrantError>,
    b: B,
    b_next: B,
    rb: Result<(usize, usize), WriteGrantError>,
    cap: nat,
    sz: nat,
)
    requires
        a.state() == b.state(),
        CoordState::grant_max_remaining_post(a.state(), a_next.state(), cap, sz, ra),
        CoordState::grant_max_remaining_post(b.state(), b_next.state(), cap, sz, rb),
    ensures
        ra == rb,
        a_next.state() == b_next.state(),
{
}

/// Two handlers that hold the same indices and flags and take a `read`
/// return the same result and end in the same state, the move of the reader
/// to the start of the ring included.
pub proof fn lemma_handlers_agree_read<A: Coord, B: Coord>(
    a: A,
    a_next: A,
    ra: Result<(usize, usize), ReadGrantError>,
    b: B,
    b_next: B,
    rb: Result<(usize, usize), ReadGrantError>,
)
    requires
        a.state() == b.state(),
        CoordState::read_post(a.state(), a_next.state(), ra),
        CoordState::read_post(b.state(), b_next.state(), rb),
    ensures
        ra == rb,
        a_next.state() == b_next.state(),
{
}

/// Two handlers that hold the same indices and flags and take a
/// `split_read` return the same runs and end in the same state.
pub proof fn lemma_handlers_agree_split_read<A: Coord, B: Coord>(
    a: A,
    a_next: A,
    ra: Result<[(usize, usize); 2], ReadGrantError>,
    b: B,
    b_next: B,
    rb: Result<[(usize, usize); 2], ReadGrantError>,
)
    requires
        a.state() == b.state(),
        CoordState::split_read_post(a.state(), a_next.state(), ra),
        CoordState::split_read_post(b.state(), b_next.state(), rb),
    ensures
        ra == rb,
        a_next.state() == b_next.state(),
{
    if ra is Ok && rb is Ok {
        let x = ra->Ok_0;
        let y = rb->Ok_0;
        assert(x[0] == x@[0] && x[1] == x@[1]);
        assert(y[0] == y@[0] && y[1] == y@[1]);
        assert(x =~= y);
    }
}

/// A grant of up to `sz` bytes takes all the room there is at its start, up
/// to `sz`: it is handed out exactly when a one-byte exact grant would be, at
/// the same place; an exact grant of its length fits there too; and when it is
/// shorter than `sz`, an exact grant of one byte more would not be placed
/// there.
pub proof fn lemma_max_remaining_is_largest(s: CoordState, cap: nat, sz: nat)
    requires
        s.wf(cap),
    ensures
        sz > 0 ==> (s.max_remaining_grant(cap, sz) is Some <==> s.exact_start(cap, 1) is Some),
        match s.max_remaining_grant(cap, sz) {
            Some((start, len)) => {
                &&& s.exact_start(cap, 1) == Some(start)
                &&& s.exact_start(cap, len) == Some(start)
                &&& len <= sz
                &&& len < sz ==> s.exact_start(cap, len + 1) != Some(start)
            },
            None => true,
        },
{
}

/// An exact grant is handed out wherever there is room for it, and only
/// there. Unless inverted, it is given at `write` when it fits before the end
/// of the ring, and otherwise at the start of the ring when it ends before
/// `read`; when inverted, it is given at `write` when it ends before `read`.
/// Whatever it is given, it lies in the ring, covers no queued byte, and leaves
/// at least one byte between its end and a reader ahead of it.
pub proof fn lemma_exact_grant_where_room(s: CoordState, cap: nat, sz: nat)
    requires
        s.wf(cap),
    ensures
        (!s.inverted() && s.write + sz <= cap) ==> s.exact_start(cap, sz) == Some(s.write as nat),
        (!s.inverted() && s.write + sz > cap && sz < s.read) ==> s.exact_start(cap, sz) == Some(
            0nat,
        ),
        (s.inverted() && s.write + sz < s.read) ==> s.exact_start(cap, sz) == Some(s.write as nat),
        match s.exact_start(cap, sz) {
            Some(start) => {
                &&& start + sz <= cap
                &&& forall|j: int|
                    0 <= j < s.content().len() ==> !(start <= #[trigger] s.content()[j] < start
                        + sz)
                &&& (start < s.read ==> start + sz < s.read)
            },
            None => (s.inverted() ==> s.write + sz >= s.read) && (!s.inverted() ==> s.write + sz
                > cap && sz >= s.read),
        },
{
}

} // verus!
