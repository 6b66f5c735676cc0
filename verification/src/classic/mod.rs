//! The classic interface: a buffer that is split once into a producer and a
//! consumer, whose grants can be set to commit (or release) a chosen amount
//! when they are finished, and whose reads can cover both runs of queued
//! bytes at once.
use crate::atomic::swap;
use crate::prod_cons::stream::{StreamConsumer, StreamGrantR, StreamGrantW, StreamProducer};
use crate::queue::{bytes_at, BBQueue};
use crate::traits::coordination::{
    lemma_front_run, lemma_initial_wf, lemma_regions_disjoint, min_nat, Coord, CoordState,
    ReadGrantError, WriteGrantError,
};
use crate::traits::notifier::Polling;
use crate::traits::storage::Inline;
use core::hash::BuildHasher;
use std::collections::hash_map::RandomState;
use vstd::prelude::*;

pub mod framed;

verus! {

/// Error type used by the classic interfaces
#[derive(Debug, PartialEq, Eq, Structural, Copy, Clone)]
pub enum Error {
    /// The buffer does not contain sufficient size for the requested action
    InsufficientSize,
    /// Unable to produce another grant, a grant of this type is already in
    /// progress
    GrantInProgress,
    /// Unable to split the buffer, as it has already been split
    AlreadySplit,
}

/// The classic error for a refused write grant.
pub open spec fn write_error(e: WriteGrantError) -> Error {
    match e {
        WriteGrantError::InsufficientSize => Error::InsufficientSize,
        WriteGrantError::GrantInProgress => Error::GrantInProgress,
    }
}

/// The classic error for a refused read grant: an empty queue reports
/// `InsufficientSize`.
pub open spec fn read_error(e: ReadGrantError) -> Error {
    match e {
        ReadGrantError::GrantInProgress => Error::GrantInProgress,
        _ => Error::InsufficientSize,
    }
}

fn from_write_error(e: WriteGrantError) -> (r: Error)
    ensures
        r == write_error(e),
{
    match e {
        WriteGrantError::InsufficientSize => Error::InsufficientSize,
        WriteGrantError::GrantInProgress => Error::GrantInProgress,
    }
}

fn from_read_error(e: ReadGrantError) -> (r: Error)
    ensures
        r == read_error(e),
{
    match e {
        ReadGrantError::GrantInProgress => Error::GrantInProgress,
        _ => Error::InsufficientSize,
    }
}

/// The shared header: the indices and grant flags through which producer and
/// consumer coordinate.
pub struct BBHeader {
    st: CoordState,
}

impl Coord for BBHeader {
    closed spec fn state(&self) -> CoordState {
        self.st
    }

    fn init() -> (c: Self) {
        BBHeader { st: CoordState::new() }
    }

    fn reset(&mut self) {
        self.st.reset();
    }

    fn grant_max_remaining(&mut self, capacity: usize, sz: usize) -> (r: Result<
        (usize, usize),
        WriteGrantError,
    >) {
        self.st.grant_max_remaining(capacity, sz)
    }

    fn grant_exact(&mut self, capacity: usize, sz: usize) -> (r: Result<usize, WriteGrantError>) {
        self.st.grant_exact(capacity, sz)
    }

    fn commit_inner(&mut self, capacity: usize, grant_len: usize, used: usize) {
        self.st.commit_inner(capacity, grant_len, used)
    }

    fn read(&mut self) -> (r: Result<(usize, usize), ReadGrantError>) {
        self.st.read()
    }

    fn split_read(&mut self) -> (r: Result<[(usize, usize); 2], ReadGrantError>) {
        self.st.split_read()
    }

    fn release_inner(&mut self, used: usize) {
        self.st.release_inner(used)
    }

    fn split_release_inner(&mut self, used1: usize, used2: usize) {
        self.st.split_release_inner(used1, used2)
    }
}

/// The queue a classic buffer holds: inline storage, the classic header, and
/// no notification.
pub type ClassicQueue<const N: usize> = BBQueue<Inline<N>, BBHeader, Polling>;

/// A fresh `RandomState`: std's `RandomState::new`, whose keys are random.
/// Nothing is stated of it.
#[verifier::external_body]
fn new_random_state() -> (s: RandomState) {
    RandomState::new()
}

/// std's `BuildHasher::hash_one` of `x` under `s`. The value rests on the
/// random keys of `s`, so nothing is stated of it.
#[verifier::external_body]
fn hash_one(s: &RandomState, x: u8) -> (h: u64) {
    s.hash_one(x)
}

/// The header and the storage of a classic buffer, whether it has been
/// split, and the identity that its producer and consumer carry.
///
/// The identity is drawn from random keys: two buffers get different ones
/// but for a chance collision, which nothing here rules out.
pub struct OwnedBBBuffer<const N: usize> {
    q: ClassicQueue<N>,
    already_split: bool,
    id: u64,
}

impl<const N: usize> OwnedBBBuffer<N> {
    /// The queue of this buffer.
    pub closed spec fn queue(&self) -> ClassicQueue<N> {
        self.q
    }

    /// The buffer has been split into a producer and a consumer.
    pub closed spec fn is_split(&self) -> bool {
        self.already_split
    }

    /// The identity that this buffer's producer and consumer carry.
    pub closed spec fn id(&self) -> u64 {
        self.id
    }

    /// A new, empty, zeroed buffer that has not been split.
    pub fn new() -> (b: Self)
        ensures
            b.queue().state() == CoordState::initial(),
            b.queue().wf(),
            b.queue().bytes().len() == N,
            forall|i: int| 0 <= i < N ==> b.queue().bytes()[i] == 0u8,
            b.queue().contents() == Seq::<u8>::empty(),
            !b.is_split(),
    {
        let q: ClassicQueue<N> = BBQueue::new_with_storage(Inline::new());
        let keys = new_random_state();
        let id = hash_one(&keys, 0);
        OwnedBBBuffer { q, already_split: false, id }
    }
}

/// The header and the storage of a classic buffer, under the name that
/// constant initialisation uses: `BBBuffer` holds one.
pub type ConstBBBuffer<const N: usize> = OwnedBBBuffer<N>;

/// A classic buffer: split it into a producer and a consumer to use it.
pub struct BBBuffer<const N: usize> {
    buf: OwnedBBBuffer<N>,
}

/// `Producer` is the primary interface for pushing data into a `BBBuffer`.
/// It carries the identity of the buffer it was split from, and acts on that
/// buffer only.
#[derive(Debug, PartialEq, Eq)]
pub struct Producer {
    buffer: u64,
}

/// `Consumer` is the primary interface for reading data from a `BBBuffer`.
/// It carries the identity of the buffer it was split from, and acts on that
/// buffer only.
#[derive(Debug, PartialEq, Eq)]
pub struct Consumer {
    buffer: u64,
}

impl Producer {
    /// The identity of the buffer this producer was split from.
    pub closed spec fn buffer_id(&self) -> u64 {
        self.buffer
    }
}

impl Consumer {
    /// The identity of the buffer this consumer was split from.
    pub closed spec fn buffer_id(&self) -> u64 {
        self.buffer
    }
}

impl<const N: usize> BBBuffer<N> {
    /// The queue of this buffer.
    pub closed spec fn queue(&self) -> ClassicQueue<N> {
        self.buf.q
    }

    /// The buffer has been split into a producer and a consumer.
    pub closed spec fn is_split(&self) -> bool {
        self.buf.already_split
    }

    /// The identity that this buffer's producer and consumer carry.
    pub closed spec fn id(&self) -> u64 {
        self.buf.id
    }

    /// The buffer holds `N` bytes and is consistent with its coordination
    /// state.
    pub open spec fn wf(&self) -> bool {
        &&& self.queue().wf()
        &&& self.queue().bytes().len() == N
        &&& !self.is_split() ==> self.queue().state() == CoordState::initial()
    }

    /// The queued bytes, oldest first.
    pub open spec fn contents(&self) -> Seq<u8> {
        self.queue().contents()
    }

    /// A new, empty buffer of `N` bytes that has not been split.
    pub fn new() -> (b: Self)
        ensures
            b.queue().state() == CoordState::initial(),
            b.wf(),
            b.queue().bytes().len() == N,
            forall|i: int| 0 <= i < N ==> b.queue().bytes()[i] == 0u8,
            b.contents() == Seq::<u8>::empty(),
            !b.is_split(),
    {
        BBBuffer { buf: OwnedBBBuffer::new() }
    }

    /// Returns the size of the backing storage.
    ///
    /// This is the maximum number of bytes that can be stored in this queue.
    pub fn capacity(&self) -> (n: usize)
        ensures
            n == self.queue().bytes().len(),
    {
        self.buf.q.capacity()
    }

    /// Attempt to split the buffer into `Producer` and `Consumer` halves to gain
    /// access to the buffer. If the buffer has already been split, an error
    /// is returned.
    pub fn try_split(&mut self) -> (r: Result<(Producer, Consumer), Error>)
        requires
            old(self).wf(),
        ensures
            final(self).wf(),
            r is Ok ==> old(self).queue().state() == CoordState::initial(),
            r is Ok <==> !old(self).is_split(),
            r is Err ==> r == Err::<(Producer, Consumer), Error>(Error::AlreadySplit),
            final(self).is_split(),
            final(self).queue().state() == old(self).queue().state(),
            final(self).queue().bytes() == old(self).queue().bytes(),
            final(self).id() == old(self).id(),
            r is Ok ==> r->Ok_0.0.buffer_id() == old(self).id() && r->Ok_0.1.buffer_id() == old(
                self,
            ).id(),
    {
        if swap(&mut self.buf.already_split, true) {
            return Err(Error::AlreadySplit);
        }
        let id = self.buf.id;
        Ok((Producer { buffer: id }, Consumer { buffer: id }))
    }

    /// Attempt to release the `Producer` and `Consumer`.
    ///
    /// This re-initializes the buffer so it may be split in a different mode
    /// at a later time. There must be no read or write grants active, or an
    /// error will be returned, with the two halves handed back.
    ///
    /// The `Producer` and `Consumer` must be from THIS buffer, or an error will
    /// be returned.
    pub fn try_release(&mut self, prod: Producer, cons: Consumer) -> (r: Result<
        (),
        (Producer, Consumer),
    >)
        requires
            old(self).wf(),
        ensures
            r is Ok <==> prod.buffer_id() == old(self).id() && cons.buffer_id() == old(self).id()
                && !old(self).queue().state().write_in_progress
                && !old(self).queue().state().read_in_progress,
            r is Err ==> r == Err::<(), (Producer, Consumer)>((prod, cons)),
            final(self).id() == old(self).id(),
            r is Ok ==> {
                &&& final(self).queue().state() == CoordState::initial()
                &&& !final(self).is_split()
                &&& final(self).contents() == Seq::<u8>::empty()
                &&& final(self).wf()
            },
            r is Err ==> *final(self) == *old(self),
            final(self).queue().bytes() == old(self).queue().bytes(),
    {
        // Are these our producer and consumer?
        if prod.buffer != self.buf.id || cons.buffer != self.buf.id {
            return Err((prod, cons));
        }
        let wr_in_progress = self.buf.q.cor.st.write_in_progress;
        let rd_in_progress = self.buf.q.cor.st.read_in_progress;
        if wr_in_progress || rd_in_progress {
            return Err((prod, cons));
        }
        self.buf.q.cor.st.reset();
        self.buf.already_split = false;
        proof {
            lemma_initial_wf(self.queue().bytes().len());
            assert(self.contents() =~= Seq::<u8>::empty());
        }
        Ok(())
    }
}

/// A write grant of the classic interface, which can be set to commit a
/// number of bytes when it is finished.
#[derive(Debug, PartialEq, Eq)]
pub struct GrantW {
    inner: StreamGrantW,
    to_commit: usize,
}

/// A read grant of the classic interface, which can be set to release a
/// number of bytes when it is finished.
#[derive(Debug, PartialEq, Eq)]
pub struct GrantR {
    inner: StreamGrantR,
    to_release: usize,
}

/// A read grant over both runs of queued bytes: `len1` bytes at `off1`, then
/// `len2` bytes at the start of the ring.
#[derive(Debug, PartialEq, Eq)]
pub struct SplitGrantR {
    off1: usize,
    len1: usize,
    len2: usize,
    to_release: usize,
}

impl View for GrantW {
    /// Offset in the ring and length of the grant.
    type V = (nat, nat);

    closed spec fn view(&self) -> (nat, nat) {
        self.inner@
    }
}

impl View for GrantR {
    /// Offset in the ring and length of the grant.
    type V = (nat, nat);

    closed spec fn view(&self) -> (nat, nat) {
        self.inner@
    }
}

impl View for SplitGrantR {
    /// Offset of the first run, length of the first run, length of the second run.
    type V = (nat, nat, nat);

    closed spec fn view(&self) -> (nat, nat, nat) {
        (self.off1 as nat, self.len1 as nat, self.len2 as nat)
    }
}

impl Producer {
    /// Request a writable, contiguous section of memory of exactly `sz`
    /// bytes. If the buffer size requested is not available, an error will
    /// be returned.
    ///
    /// This may cause the buffer to wrap around early if the requested space
    /// is not available at the end of the buffer, but is available at the
    /// beginning.
    pub fn grant_exact<const N: usize>(&mut self, bb: &mut BBBuffer<N>, sz: usize) -> (r: Result<
        GrantW,
        Error,
    >)
        requires
            old(bb).wf(),
            old(bb).is_split(),
            self.buffer_id() == old(bb).id(),
        ensures
            *final(self) == *old(self),
            final(bb).id() == old(bb).id(),
            final(bb).wf(),
            final(bb).queue().bytes() == old(bb).queue().bytes(),
            final(bb).contents() == old(bb).contents(),
            final(bb).is_split() == old(bb).is_split(),
            match r {
                Ok(g) => {
                    &&& CoordState::grant_exact_post(
                        old(bb).queue().state(),
                        final(bb).queue().state(),
                        N as nat,
                        sz as nat,
                        Ok(g@.0 as usize),
                    )
                    &&& g@.1 == sz
                    &&& g.is_grant_of(*final(bb))
                    &&& g.pending() == 0
                },
                Err(e) => exists|we: WriteGrantError|
                    e == write_error(we) && #[trigger] CoordState::grant_exact_post(
                        old(bb).queue().state(),
                        final(bb).queue().state(),
                        N as nat,
                        sz as nat,
                        Err(we),
                    ),
            },
    {
        let p = StreamProducer::new();
        let _cap = bb.buf.q.capacity();
        match p.grant_exact(&mut bb.buf.q, sz) {
            Ok(g) => Ok(GrantW { inner: g, to_commit: 0 }),
            Err(e) => Err(from_write_error(e)),
        }
    }

    /// Request a writable, contiguous section of memory of up to `sz` bytes.
    /// If `sz` bytes are not available without wrapping, but some are, a
    /// grant for the remaining size at the end of the buffer is given. If no
    /// space is available for writing, an error is returned.
    ///
    /// A grant has `0 < len <= sz` bytes: a request for zero bytes is refused
    /// with `InsufficientSize`.
    pub fn grant_max_remaining<const N: usize>(&mut self, bb: &mut BBBuffer<N>, sz: usize) -> (r:
        Result<GrantW, Error>)
        requires
            old(bb).wf(),
            old(bb).is_split(),
            self.buffer_id() == old(bb).id(),
        ensures
            *final(self) == *old(self),
            final(bb).id() == old(bb).id(),
            final(bb).wf(),
            final(bb).queue().bytes() == old(bb).queue().bytes(),
            final(bb).contents() == old(bb).contents(),
            final(bb).is_split() == old(bb).is_split(),
            match r {
                Ok(g) => {
                    &&& CoordState::grant_max_remaining_post(
                        old(bb).queue().state(),
                        final(bb).queue().state(),
                        N as nat,
                        sz as nat,
                        Ok((g@.0 as usize, g@.1 as usize)),
                    )
                    &&& g.is_grant_of(*final(bb))
                    &&& g.pending() == 0
                },
                Err(e) => exists|we: WriteGrantError|
                    e == write_error(we) && #[trigger] CoordState::grant_max_remaining_post(
                        old(bb).queue().state(),
                        final(bb).queue().state(),
                        N as nat,
                        sz as nat,
                        Err(we),
                    ),
            },
            r is Ok ==> 0 < r->Ok_0@.1 <= sz,
            (sz == 0 && !old(bb).queue().state().write_in_progress) ==> r == Err::<GrantW, Error>(
                Error::InsufficientSize,
            ),
    {
        let p = StreamProducer::new();
        let _cap = bb.buf.q.capacity();
        match p.grant_max_remaining(&mut bb.buf.q, sz) {
            Ok(g) => Ok(GrantW { inner: g, to_commit: 0 }),
            Err(e) => Err(from_write_error(e)),
        }
    }
}

impl Consumer {
    /// Obtains a contiguous slice of committed bytes. This slice may not
    /// contain ALL available bytes, if the writer has wrapped around. The
    /// remaining bytes will be available after all readable bytes are
    /// released.
    pub fn read<const N: usize>(&mut self, bb: &mut BBBuffer<N>) -> (r: Result<GrantR, Error>)
        requires
            old(bb).wf(),
            old(bb).is_split(),
            self.buffer_id() == old(bb).id(),
        ensures
            *final(self) == *old(self),
            final(bb).id() == old(bb).id(),
            final(bb).wf(),
            final(bb).queue().bytes() == old(bb).queue().bytes(),
            final(bb).contents() == old(bb).contents(),
            final(bb).is_split() == old(bb).is_split(),
            match r {
                Ok(g) => {
                    &&& CoordState::read_post(
                        old(bb).queue().state(),
                        final(bb).queue().state(),
                        Ok((g@.0 as usize, g@.1 as usize)),
                    )
                    &&& g.is_grant_of(*final(bb))
                    &&& 0 < g@.1 <= old(bb).contents().len()
                    &&& g.pending() == 0
                },
                Err(e) => exists|re: ReadGrantError|
                    e == read_error(re) && #[trigger] CoordState::read_post(
                        old(bb).queue().state(),
                        final(bb).queue().state(),
                        Err(re),
                    ) && (re == ReadGrantError::Empty ==> old(bb).contents().len() == 0),
            },
            r is Ok <==> !old(bb).queue().state().read_in_progress && old(bb).contents().len() > 0,
    {
        let c = StreamConsumer::new();
        match c.read(&mut bb.buf.q) {
            Ok(g) => Ok(GrantR { inner: g, to_release: 0 }),
            Err(e) => Err(from_read_error(e)),
        }
    }

    /// Obtains two disjoint slices, which are each contiguous, of committed
    /// bytes. Combined these contain all previously committed data.
    pub fn split_read<const N: usize>(&mut self, bb: &mut BBBuffer<N>) -> (r: Result<
        SplitGrantR,
        Error,
    >)
        requires
            old(bb).wf(),
            old(bb).is_split(),
            self.buffer_id() == old(bb).id(),
        ensures
            *final(self) == *old(self),
            final(bb).id() == old(bb).id(),
            final(bb).wf(),
            final(bb).queue().bytes() == old(bb).queue().bytes(),
            final(bb).contents() == old(bb).contents(),
            final(bb).is_split() == old(bb).is_split(),
            match r {
                Ok(g) => {
                    &&& !old(bb).queue().state().read_in_progress
                    &&& g@.0 == old(bb).queue().state().read_start()
                    &&& final(bb).queue().state() == (CoordState {
                        read: g@.0 as usize,
                        read_in_progress: true,
                        ..old(bb).queue().state()
                    })
                    &&& g@.1 == final(bb).queue().state().read_avail()
                    &&& g@.2 == (if final(bb).queue().state().inverted() {
                        final(bb).queue().state().write as nat
                    } else {
                        0nat
                    })
                    &&& g.is_grant_of(*final(bb))
                    &&& g@.1 > 0
                    &&& g@.1 + g@.2 == old(bb).contents().len()
                    &&& g.pending() == 0
                },
                Err(e) => exists|re: ReadGrantError|
                    e == read_error(re) && #[trigger] CoordState::split_read_post(
                        old(bb).queue().state(),
                        final(bb).queue().state(),
                        Err(re),
                    ) && (re == ReadGrantError::Empty ==> old(bb).contents().len() == 0),
            },
            r is Ok <==> !old(bb).queue().state().read_in_progress && old(bb).contents().len() > 0,
    {
        let r = bb.buf.q.coord_split_read();
        match r {
            Ok(runs) => {
                proof {
                    crate::traits::coordination::lemma_split_read_covers(
                        old(bb).queue().state(),
                        bb.queue().state(),
                        N as nat,
                        r,
                    );
                    assert(old(bb).contents().len() == old(bb).queue().state().content().len());
                }
                let (off1, len1) = runs[0];
                let (_off2, len2) = runs[1];
                let g = SplitGrantR { off1, len1, len2, to_release: 0 };
                assert(g@.1 + g@.2 == old(bb).contents().len());
                Ok(g)
            },
            Err(e) => {
                assert(CoordState::split_read_post(
                    old(bb).queue().state(),
                    bb.queue().state(),
                    Err(e),
                ));
                Err(from_read_error(e))
            },
        }
    }
}

impl GrantW {
    /// This grant is the active write grant of `bb`.
    pub open spec fn is_grant_of<const N: usize>(self, bb: BBBuffer<N>) -> bool {
        &&& bb.queue().state().write_in_progress
        &&& self@.0 == bb.queue().state().grant_start()
        &&& self@.0 + self@.1 == bb.queue().state().reserve
    }

    /// The number of bytes to commit when the grant is finished.
    pub closed spec fn pending(&self) -> nat {
        self.to_commit as nat
    }

    /// The number of bytes in the grant.
    pub fn len(&self) -> (n: usize)
        ensures
            n == self@.1,
    {
        self.inner.len()
    }

    /// Write `v` at index `i` of the grant. The queued bytes are kept.
    pub fn set<const N: usize>(&self, bb: &mut BBBuffer<N>, i: usize, v: u8)
        requires
            old(bb).wf(),
            self.is_grant_of(*old(bb)),
            i < self@.1,
        ensures
            final(bb).id() == old(bb).id(),
            final(bb).wf(),
            final(bb).queue().state() == old(bb).queue().state(),
            final(bb).queue().bytes() == old(bb).queue().bytes().update(self@.0 + i, v),
            final(bb).contents() == old(bb).contents(),
            final(bb).is_split() == old(bb).is_split(),
    {
        self.inner.set(&mut bb.buf.q, i, v);
    }

    /// Copy `src` into the grant, starting at index `start` of the grant.
    pub(crate) fn write_at<const N: usize>(&self, bb: &mut BBBuffer<N>, start: usize, src: &[u8])
        requires
            old(bb).wf(),
            self.is_grant_of(*old(bb)),
            start + src@.len() <= self@.1,
        ensures
            final(bb).id() == old(bb).id(),
            final(bb).wf(),
            final(bb).queue().state() == old(bb).queue().state(),
            final(bb).queue().bytes().len() == old(bb).queue().bytes().len(),
            final(bb).queue().bytes().subrange(
                self@.0 + start,
                self@.0 + start + src@.len(),
            ) == src@,
            forall|j: int|
                0 <= j < old(bb).queue().bytes().len() && !(self@.0 + start <= j < self@.0 + start
                    + src@.len()) ==> final(bb).queue().bytes()[j] == old(bb).queue().bytes()[j],
            final(bb).contents() == old(bb).contents(),
            final(bb).is_split() == old(bb).is_split(),
    {
        bb.buf.q.write_reserved_slice(self.inner.offset() + start, src);
    }

    /// Copy `src` into the grant, which must be exactly as long.
    pub fn copy_from_slice<const N: usize>(&self, bb: &mut BBBuffer<N>, src: &[u8])
        requires
            old(bb).wf(),
            self.is_grant_of(*old(bb)),
            src@.len() == self@.1,
        ensures
            final(bb).id() == old(bb).id(),
            final(bb).wf(),
            final(bb).queue().state() == old(bb).queue().state(),
            final(bb).queue().bytes().subrange(self@.0 as int, (self@.0 + self@.1) as int) == src@,
            final(bb).queue().bytes().len() == old(bb).queue().bytes().len(),
            forall|j: int|
                0 <= j < old(bb).queue().bytes().len() && !(self@.0 <= j < self@.0 + self@.1)
                    ==> final(bb).queue().bytes()[j] == old(bb).queue().bytes()[j],
            final(bb).contents() == old(bb).contents(),
            final(bb).is_split() == old(bb).is_split(),
    {
        self.inner.copy_from_slice(&mut bb.buf.q, src);
    }

    /// Finalizes the grant: the first `used` bytes (at most the whole grant)
    /// are appended to the queue.
    pub fn commit<const N: usize>(self, bb: &mut BBBuffer<N>, used: usize)
        requires
            old(bb).wf(),
            self.is_grant_of(*old(bb)),
        ensures
            final(bb).id() == old(bb).id(),
            final(bb).wf(),
            final(bb).queue().bytes() == old(bb).queue().bytes(),
            final(bb).queue().state() == old(bb).queue().state().commit_next(
                N as nat,
                self@.1,
                used as nat,
            ),
            final(bb).contents() == old(bb).contents() + old(bb).queue().bytes().subrange(
                self@.0 as int,
                (self@.0 + min_nat(self@.1, used as nat)) as int,
            ),
            final(bb).is_split() == old(bb).is_split(),
    {
        let _cap = bb.buf.q.capacity();
        self.inner.commit(&mut bb.buf.q, used);
    }

    /// Configures the amount of bytes to be committed when the grant is finished.
    pub fn to_commit(&mut self, amt: usize)
        ensures
            final(self)@ == old(self)@,
            final(self).pending() == min_nat(old(self)@.1, amt as nat),
    {
        let len = self.inner.len();
        self.to_commit = if len < amt {
            len
        } else {
            amt
        };
    }

    /// Finish the grant: commit the amount set with `to_commit` (none unless
    /// set), as dropping a grant does.
    pub fn finish<const N: usize>(self, bb: &mut BBBuffer<N>)
        requires
            old(bb).wf(),
            self.is_grant_of(*old(bb)),
        ensures
            final(bb).id() == old(bb).id(),
            final(bb).wf(),
            final(bb).queue().bytes() == old(bb).queue().bytes(),
            final(bb).contents() == old(bb).contents() + old(bb).queue().bytes().subrange(
                self@.0 as int,
                (self@.0 + min_nat(self@.1, self.pending())) as int,
            ),
            final(bb).queue().state() == old(bb).queue().state().commit_next(
                N as nat,
                self@.1,
                self.pending(),
            ),
            final(bb).is_split() == old(bb).is_split(),
    {
        let amt = self.to_commit;
        self.commit(bb, amt);
    }
}

impl GrantR {
    /// This grant is the active read grant of `bb`.
    pub open spec fn is_grant_of<const N: usize>(self, bb: BBBuffer<N>) -> bool {
        &&& bb.queue().state().read_in_progress
        &&& self@.0 == bb.queue().state().read
        &&& self@.1 <= bb.queue().state().read_avail()
    }

    /// The number of bytes to release when the grant is finished.
    pub closed spec fn pending(&self) -> nat {
        self.to_release as nat
    }

    /// The number of bytes in the grant.
    pub fn len(&self) -> (n: usize)
        ensures
            n == self@.1,
    {
        self.inner.len()
    }

    /// The bytes of the grant: the oldest queued bytes.
    pub fn buf<const N: usize>(&self, bb: &BBBuffer<N>) -> (v: Vec<u8>)
        requires
            bb.wf(),
            self.is_grant_of(*bb),
        ensures
            v@ == bb.contents().take(self@.1 as int),
    {
        self.inner.to_vec(&bb.buf.q)
    }

    /// Overwrite the byte at index `i` of the grant, in place: the queued
    /// byte changes.
    pub fn set<const N: usize>(&self, bb: &mut BBBuffer<N>, i: usize, v: u8)
        requires
            old(bb).wf(),
            self.is_grant_of(*old(bb)),
            i < self@.1,
        ensures
            final(bb).id() == old(bb).id(),
            final(bb).wf(),
            final(bb).queue().state() == old(bb).queue().state(),
            final(bb).queue().bytes() == old(bb).queue().bytes().update(self@.0 + i, v),
            final(bb).contents() == old(bb).contents().update(i as int, v),
            final(bb).is_split() == old(bb).is_split(),
    {
        self.inner.set(&mut bb.buf.q, i, v);
    }

    /// The byte at index `i` of the grant.
    pub fn get<const N: usize>(&self, bb: &BBBuffer<N>, i: usize) -> (b: u8)
        requires
            bb.wf(),
            self.is_grant_of(*bb),
            i < self@.1,
        ensures
            b == bb.contents()[i as int],
    {
        self.inner.get(&bb.buf.q, i)
    }

    /// `n` bytes of the grant, from index `start` of the grant.
    pub(crate) fn range<const N: usize>(&self, bb: &BBBuffer<N>, start: usize, n: usize) -> (v: Vec<
        u8,
    >)
        requires
            bb.wf(),
            self.is_grant_of(*bb),
            start + n <= self@.1,
        ensures
            v@ == bb.contents().subrange(start as int, start + n),
    {
        proof {
            lemma_front_run(bb.queue().state(), bb.queue().bytes().len(), self@.1);
            assert(bb.contents().subrange(start as int, start + n) =~= bb.contents().take(
                self@.1 as int,
            ).subrange(start as int, start + n));
        }
        bb.buf.q.copy_out(self.inner.offset() + start, n)
    }

    /// The same grant, cut down to its first `len` bytes.
    pub(crate) fn shrink(self, len: usize) -> (g: GrantR)
        requires
            len <= self@.1,
        ensures
            g@ == (self@.0, len as nat),
            g.pending() == self.pending(),
    {
        GrantR { inner: self.inner.shrink(len), to_release: self.to_release }
    }

    /// Release the first `used` bytes of the grant (at most the whole grant):
    /// they leave the queue.
    pub fn release<const N: usize>(self, bb: &mut BBBuffer<N>, used: usize)
        requires
            old(bb).wf(),
            self.is_grant_of(*old(bb)),
        ensures
            final(bb).id() == old(bb).id(),
            final(bb).wf(),
            final(bb).queue().bytes() == old(bb).queue().bytes(),
            final(bb).queue().state() == old(bb).queue().state().release_next(
                min_nat(self@.1, used as nat),
            ),
            final(bb).contents() == old(bb).contents().skip(min_nat(self@.1, used as nat) as int),
            final(bb).is_split() == old(bb).is_split(),
    {
        self.inner.release(&mut bb.buf.q, used);
    }

    /// Configures the amount of bytes to be released when the grant is finished.
    pub fn to_release(&mut self, amt: usize)
        ensures
            final(self)@ == old(self)@,
            final(self).pending() == min_nat(old(self)@.1, amt as nat),
    {
        let len = self.inner.len();
        self.to_release = if len < amt {
            len
        } else {
            amt
        };
    }

    /// Finish the grant: release the amount set with `to_release` (none
    /// unless set), as dropping a grant does.
    pub fn finish<const N: usize>(self, bb: &mut BBBuffer<N>)
        requires
            old(bb).wf(),
            self.is_grant_of(*old(bb)),
        ensures
            final(bb).id() == old(bb).id(),
            final(bb).wf(),
            final(bb).queue().bytes() == old(bb).queue().bytes(),
            final(bb).contents() == old(bb).contents().skip(
                min_nat(self@.1, self.pending()) as int,
            ),
            final(bb).queue().state() == old(bb).queue().state().release_next(
                min_nat(self@.1, self.pending()),
            ),
            final(bb).is_split() == old(bb).is_split(),
    {
        let amt = self.to_release;
        self.release(bb, amt);
    }
}

impl SplitGrantR {
    /// This grant is the active split read grant of `bb`.
    pub open spec fn is_grant_of<const N: usize>(self, bb: BBBuffer<N>) -> bool {
        let s = bb.queue().state();
        &&& s.read_in_progress
        &&& self@.0 == s.read
        &&& self@.1 <= s.read_avail()
        &&& self@.2 > 0 ==> s.inverted() && self@.1 == s.read_avail() && self@.2 <= s.write
    }

    /// The number of bytes to release when the grant is finished.
    pub closed spec fn pending(&self) -> nat {
        self.to_release as nat
    }

    /// The combined length of both buffers
    pub fn combined_len(&self) -> (n: usize)
        requires
            self@.1 + self@.2 <= usize::MAX,
        ensures
            n == self@.1 + self@.2,
    {
        self.len1 + self.len2
    }

    /// Obtain both parts of the grant: together, the oldest queued bytes.
    pub fn bufs<const N: usize>(&self, bb: &BBBuffer<N>) -> (r: (Vec<u8>, Vec<u8>))
        requires
            bb.wf(),
            self.is_grant_of(*bb),
        ensures
            r.0@ == bb.contents().take(self@.1 as int),
            r.0@ + r.1@ == bb.contents().take((self@.1 + self@.2) as int),
    {
        let q = &bb.buf.q;
        proof {
            let s = q.state();
            let cap = q.bytes().len();
            lemma_front_run(s, cap, self@.1);
            assert(bb.contents().take(self@.1 as int) =~= q.bytes().subrange(
                self@.0 as int,
                (self@.0 + self@.1) as int,
            ));
            if self@.2 > 0 {
                lemma_regions_disjoint(s, cap);
                assert(s.content()[self@.1 + self@.2 - 1] == self@.2 - 1);
                assert(bb.contents().take((self@.1 + self@.2) as int) =~= q.bytes().subrange(
                    self@.0 as int,
                    (self@.0 + self@.1) as int,
                ) + q.bytes().subrange(0, self@.2 as int));
            } else {
                assert(q.bytes().subrange(0, 0) =~= Seq::<u8>::empty());
                assert(bb.contents().take((self@.1 + self@.2) as int) =~= q.bytes().subrange(
                    self@.0 as int,
                    (self@.0 + self@.1) as int,
                ) + q.bytes().subrange(0, self@.2 as int));
            }
        }
        let v1 = q.copy_out(self.off1, self.len1);
        let v2 = q.copy_out(0, self.len2);
        (v1, v2)
    }

    /// Overwrite the byte at index `i` of the grant, counting through the first
    /// part and then the second, in place: the queued byte changes.
    pub fn set<const N: usize>(&self, bb: &mut BBBuffer<N>, i: usize, v: u8)
        requires
            old(bb).wf(),
            self.is_grant_of(*old(bb)),
            i < self@.1 + self@.2,
        ensures
            final(bb).id() == old(bb).id(),
            final(bb).wf(),
            final(bb).queue().state() == old(bb).queue().state(),
            final(bb).contents() == old(bb).contents().update(i as int, v),
            final(bb).is_split() == old(bb).is_split(),
    {
        let _cap = bb.buf.q.capacity();
        proof {
            let s = bb.queue().state();
            lemma_front_run(s, N as nat, self@.1);
            if i < self@.1 {
                assert(s.content().take(self@.1 as int)[i as int] == s.content()[i as int]);
            } else {
                assert(s.content()[i as int] == i - self@.1);
            }
        }
        if i < self.len1 {
            bb.buf.q.write_queued(i, self.off1 + i, v);
        } else {
            bb.buf.q.write_queued(i, i - self.len1, v);
        }
    }

    /// Release a sequence of bytes from the buffer, allowing the space to be
    /// used by later writes. If `used` is larger than the given grant, the
    /// full grant is released.
    pub fn release<const N: usize>(self, bb: &mut BBBuffer<N>, used: usize)
        requires
            old(bb).wf(),
            self.is_grant_of(*old(bb)),
        ensures
            final(bb).id() == old(bb).id(),
            final(bb).wf(),
            final(bb).queue().bytes() == old(bb).queue().bytes(),
            final(bb).contents() == old(bb).contents().skip(
                min_nat(self@.1 + self@.2, used as nat) as int,
            ),
            ({
                let u = min_nat(self@.1 + self@.2, used as nat);
                final(bb).queue().state() == old(bb).queue().state().split_release_next(
                    min_nat(self@.1, u),
                    (u - min_nat(self@.1, u)) as nat,
                )
            }),
            final(bb).is_split() == old(bb).is_split(),
    {
        let _cap = bb.buf.q.capacity();
        let total = self.len1 + self.len2;
        let used = if total < used {
            total
        } else {
            used
        };
        let used1 = if used <= self.len1 {
            used
        } else {
            self.len1
        };
        let used2 = used - used1;
        bb.buf.q.coord_split_release(used1, used2);
    }

    /// Configures the amount of bytes to be released when the grant is finished.
    pub fn to_release(&mut self, amt: usize)
        requires
            old(self)@.1 + old(self)@.2 <= usize::MAX,
        ensures
            final(self)@ == old(self)@,
            final(self).pending() == min_nat(old(self)@.1 + old(self)@.2, amt as nat),
    {
        let total = self.len1 + self.len2;
        self.to_release = if total < amt {
            total
        } else {
            amt
        };
    }

    /// Finish the grant: release the amount set with `to_release` (none
    /// unless set), as dropping a grant does.
    pub fn finish<const N: usize>(self, bb: &mut BBBuffer<N>)
        requires
            old(bb).wf(),
            self.is_grant_of(*old(bb)),
        ensures
            final(bb).id() == old(bb).id(),
            final(bb).wf(),
            final(bb).queue().bytes() == old(bb).queue().bytes(),
            final(bb).contents() == old(bb).contents().skip(
                min_nat(self@.1 + self@.2, self.pending()) as int,
            ),
            ({
                let u = min_nat(self@.1 + self@.2, self.pending());
                final(bb).queue().state() == old(bb).queue().state().split_release_next(
                    min_nat(self@.1, u),
                    (u - min_nat(self@.1, u)) as nat,
                )
            }),
            final(bb).is_split() == old(bb).is_split(),
    {
        let amt = self.to_release;
        self.release(bb, amt);
    }
}

} // verus!
