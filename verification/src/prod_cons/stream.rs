//! Stream byte queue interfaces
//!
//! Useful for sending stream-oriented data where the consumer doesn't care
//! about how the data was pushed, e.g. a serial port stream where multiple
//! writes from the software may be transferred out over DMA in a single
//! transfer.
//!
//! Producer, consumer and grants refer to their queue by the `bbq` argument
//! of each call. A grant that is given up without committing (or releasing)
//! anything is finished with `commit(bbq, 0)` (or `release(bbq, 0)`), which
//! wakes nobody. A commit (or release) of some bytes wakes the consumer (or
//! producer) once; the queue's `wakes()` counts these wake-ups.
use crate::queue::BBQueue;
use crate::traits::coordination::{
    lemma_front_run, lemma_max_remaining_shape, min_nat, CoordState, ReadGrantError,
    WriteGrantError,
};
use crate::traits::coordination::Coord;
use crate::traits::notifier::Notifier;
use crate::traits::storage::Storage;
use vstd::prelude::*;

verus! {

/// A producer handle that may write data into the buffer
#[derive(Debug, PartialEq, Eq)]
pub struct StreamProducer {
    _priv: (),
}

/// A consumer handle that may read data from the buffer
#[derive(Debug, PartialEq, Eq)]
pub struct StreamConsumer {
    _priv: (),
}

/// A writing grant into the storage buffer: `len` bytes starting at `offset`.
#[derive(Debug, PartialEq, Eq)]
pub struct StreamGrantW {
    offset: usize,
    len: usize,
}

/// A reading grant into the storage buffer: `len` bytes starting at `offset`.
///
/// Write access is provided for read grants in case it is necessary to mutate
/// the storage in-place for decoding.
#[derive(Debug, PartialEq, Eq)]
pub struct StreamGrantR {
    offset: usize,
    len: usize,
}

impl View for StreamGrantW {
    /// Offset in the ring and length of the grant.
    type V = (nat, nat);

    closed spec fn view(&self) -> (nat, nat) {
        (self.offset as nat, self.len as nat)
    }
}

impl View for StreamGrantR {
    /// Offset in the ring and length of the grant.
    type V = (nat, nat);

    closed spec fn view(&self) -> (nat, nat) {
        (self.offset as nat, self.len as nat)
    }
}

impl StreamGrantW {
    /// This grant is the active write grant of `bbq`.
    pub open spec fn is_grant_of<S: Storage, C: Coord, N: Notifier>(
        self,
        bbq: BBQueue<S, C, N>,
    ) -> bool {
        &&& bbq.state().write_in_progress
        &&& self@.0 == bbq.state().grant_start()
        &&& self@.0 + self@.1 == bbq.state().reserve
    }
}

impl StreamGrantR {
    /// This grant is the active read grant of `bbq`.
    pub open spec fn is_grant_of<S: Storage, C: Coord, N: Notifier>(
        self,
        bbq: BBQueue<S, C, N>,
    ) -> bool {
        &&& bbq.state().read_in_progress
        &&& self@.0 == bbq.state().read
        &&& self@.1 <= bbq.state().read_avail()
    }
}

impl StreamProducer {
    pub(crate) fn new() -> Self {
        StreamProducer { _priv: () }
    }

    /// Obtain a grant UP TO the given `max` size.
    ///
    /// If we return a grant, it will have a nonzero amount of space: a request
    /// for zero bytes is refused with `InsufficientSize`. If the grant is
    /// smaller than `max`, either there is less
    /// free space, or the grant covers the room left before the end of the
    /// ring: this never causes an early wraparound.
    pub fn grant_max_remaining<S: Storage, C: Coord, N: Notifier>(
        &self,
        bbq: &mut BBQueue<S, C, N>,
        max: usize,
    ) -> (r: Result<StreamGrantW, WriteGrantError>)
        requires
            old(bbq).wf(),
        ensures
            final(bbq).wakes() == old(bbq).wakes(),
            final(bbq).wf(),
            final(bbq).bytes() == old(bbq).bytes(),
            final(bbq).contents() == old(bbq).contents(),
            match r {
                Ok(g) => {
                    &&& CoordState::grant_max_remaining_post(
                        old(bbq).state(),
                        final(bbq).state(),
                        old(bbq).bytes().len(),
                        max as nat,
                        Ok((g@.0 as usize, g@.1 as usize)),
                    )
                    &&& g.is_grant_of(*final(bbq))
                },
                Err(e) => CoordState::grant_max_remaining_post(
                    old(bbq).state(),
                    final(bbq).state(),
                    old(bbq).bytes().len(),
                    max as nat,
                    Err(e),
                ),
            },
            r is Ok ==> 0 < r->Ok_0@.1 <= max,
            (max == 0 && !old(bbq).state().write_in_progress) ==> r == Err::<
                StreamGrantW,
                WriteGrantError,
            >(WriteGrantError::InsufficientSize),
    {
        proof {
            lemma_max_remaining_shape(bbq.state(), bbq.bytes().len(), max as nat);
        }
        match bbq.coord_grant_max_remaining(max) {
            Ok((offset, len)) => Ok(StreamGrantW { offset, len }),
            Err(e) => Err(e),
        }
    }

    /// Obtain a grant with EXACTLY `sz` capacity
    ///
    /// Unlike `grant_max_remaining`, if there is insufficient size at the "tail" of
    /// the ring buffer, this method WILL cause a wrap-around to occur to attempt to
    /// find the requested write capacity.
    pub fn grant_exact<S: Storage, C: Coord, N: Notifier>(
        &self,
        bbq: &mut BBQueue<S, C, N>,
        sz: usize,
    ) -> (r: Result<StreamGrantW, WriteGrantError>)
        requires
            old(bbq).wf(),
        ensures
            final(bbq).wakes() == old(bbq).wakes(),
            final(bbq).wf(),
            final(bbq).bytes() == old(bbq).bytes(),
            final(bbq).contents() == old(bbq).contents(),
            match r {
                Ok(g) => {
                    &&& CoordState::grant_exact_post(
                        old(bbq).state(),
                        final(bbq).state(),
                        old(bbq).bytes().len(),
                        sz as nat,
                        Ok(g@.0 as usize),
                    )
                    &&& g@.1 == sz
                    &&& g.is_grant_of(*final(bbq))
                },
                Err(e) => CoordState::grant_exact_post(
                    old(bbq).state(),
                    final(bbq).state(),
                    old(bbq).bytes().len(),
                    sz as nat,
                    Err(e),
                ),
            },
    {
        match bbq.coord_grant_exact(sz) {
            Ok(offset) => Ok(StreamGrantW { offset, len: sz }),
            Err(e) => Err(e),
        }
    }
}

impl StreamConsumer {
    pub(crate) fn new() -> Self {
        StreamConsumer { _priv: () }
    }

    /// Obtain a chunk of readable data
    ///
    /// The returned chunk holds the oldest queued bytes; it may NOT hold all
    /// of them if they wrap around the ring. `Empty` is returned exactly when
    /// nothing is queued.
    pub fn read<S: Storage, C: Coord, N: Notifier>(&self, bbq: &mut BBQueue<S, C, N>) -> (r:
        Result<StreamGrantR, ReadGrantError>)
        requires
            old(bbq).wf(),
        ensures
            final(bbq).wakes() == old(bbq).wakes(),
            final(bbq).wf(),
            final(bbq).bytes() == old(bbq).bytes(),
            final(bbq).contents() == old(bbq).contents(),
            match r {
                Ok(g) => {
                    &&& CoordState::read_post(
                        old(bbq).state(),
                        final(bbq).state(),
                        Ok((g@.0 as usize, g@.1 as usize)),
                    )
                    &&& g.is_grant_of(*final(bbq))
                    &&& 0 < g@.1 <= old(bbq).contents().len()
                },
                Err(e) => {
                    &&& CoordState::read_post(old(bbq).state(), final(bbq).state(), Err(e))
                    &&& e == ReadGrantError::Empty ==> old(bbq).contents().len() == 0
                },
            },
            r is Ok <==> !old(bbq).state().read_in_progress && old(bbq).contents().len() > 0,
    {
        match bbq.coord_read() {
            Ok((offset, len)) => Ok(StreamGrantR { offset, len }),
            Err(e) => Err(e),
        }
    }
}

impl StreamGrantW {
    /// The number of bytes in the grant.
    pub fn len(&self) -> (n: usize)
        ensures
            n == self@.1,
    {
        self.len
    }

    /// Where the grant starts in the ring.
    pub(crate) fn offset(&self) -> (o: usize)
        ensures
            o == self@.0,
    {
        self.offset
    }

    /// Write `v` at index `i` of the grant. The queued bytes are kept.
    pub fn set<S: Storage, C: Coord, N: Notifier>(
        &self,
        bbq: &mut BBQueue<S, C, N>,
        i: usize,
        v: u8,
    )
        requires
            old(bbq).wf(),
            self.is_grant_of(*old(bbq)),
            i < self@.1,
        ensures
            final(bbq).wakes() == old(bbq).wakes(),
            final(bbq).wf(),
            final(bbq).state() == old(bbq).state(),
            final(bbq).bytes() == old(bbq).bytes().update(self@.0 + i, v),
            final(bbq).contents() == old(bbq).contents(),
    {
        bbq.write_reserved(self.offset + i, v);
    }

    /// Copy `src` into the grant, which must be exactly as long.
    pub fn copy_from_slice<S: Storage, C: Coord, N: Notifier>(
        &self,
        bbq: &mut BBQueue<S, C, N>,
        src: &[u8],
    )
        requires
            old(bbq).wf(),
            self.is_grant_of(*old(bbq)),
            src@.len() == self@.1,
        ensures
            final(bbq).wakes() == old(bbq).wakes(),
            final(bbq).wf(),
            final(bbq).state() == old(bbq).state(),
            final(bbq).bytes().subrange(self@.0 as int, (self@.0 + self@.1) as int) == src@,
            final(bbq).bytes().len() == old(bbq).bytes().len(),
            forall|j: int|
                0 <= j < old(bbq).bytes().len() && !(self@.0 <= j < self@.0 + self@.1) ==> final(bbq).bytes()[j] == old(bbq).bytes()[j],
            final(bbq).contents() == old(bbq).contents(),
    {
        bbq.write_reserved_slice(self.offset, src);
    }

    /// Finalizes the grant: the first `used` bytes (at most the whole grant)
    /// are appended to the queue, readable by the consumer.
    pub fn commit<S: Storage, C: Coord, N: Notifier>(self, bbq: &mut BBQueue<S, C, N>, used: usize)
        requires
            old(bbq).wf(),
            self.is_grant_of(*old(bbq)),
        ensures
            final(bbq).wakes() == (
                old(bbq).wakes().0 + if min_nat(self@.1, used as nat) > 0 {
                    1nat
                } else {
                    0nat
                },
                old(bbq).wakes().1,
            ),
            final(bbq).wf(),
            final(bbq).bytes() == old(bbq).bytes(),
            final(bbq).state() == old(bbq).state().commit_next(
                old(bbq).bytes().len(),
                self@.1,
                used as nat,
            ),
            final(bbq).contents() == old(bbq).contents() + old(bbq).bytes().subrange(
                self@.0 as int,
                (self@.0 + min_nat(self@.1, used as nat)) as int,
            ),
    {
        let used = if used < self.len {
            used
        } else {
            self.len
        };
        bbq.coord_commit(self.len, used);
        if used != 0 {
            bbq.wake_consumer();
        }
    }
}

impl StreamGrantR {
    /// The number of bytes in the grant.
    pub fn len(&self) -> (n: usize)
        ensures
            n == self@.1,
    {
        self.len
    }

    /// Where the grant starts in the ring.
    pub(crate) fn offset(&self) -> (o: usize)
        ensures
            o == self@.0,
    {
        self.offset
    }

    /// The same grant, cut down to its first `len` bytes.
    pub(crate) fn shrink(self, len: usize) -> (g: StreamGrantR)
        requires
            len <= self@.1,
        ensures
            g@ == (self@.0, len as nat),
    {
        StreamGrantR { offset: self.offset, len }
    }

    /// The bytes of the grant: the oldest queued bytes.
    pub fn to_vec<S: Storage, C: Coord, N: Notifier>(&self, bbq: &BBQueue<S, C, N>) -> (v: Vec<u8>)
        requires
            bbq.wf(),
            self.is_grant_of(*bbq),
        ensures
            v@ == bbq.contents().take(self@.1 as int),
    {
        proof {
            lemma_front_run(bbq.state(), bbq.bytes().len(), self@.1);
            assert(bbq.contents().take(self@.1 as int) =~= bbq.bytes().subrange(
                self@.0 as int,
                (self@.0 + self@.1) as int,
            ));
        }
        bbq.copy_out(self.offset, self.len)
    }

    /// Overwrite the byte at index `i` of the grant, in place: the queued
    /// byte changes.
    pub fn set<S: Storage, C: Coord, N: Notifier>(
        &self,
        bbq: &mut BBQueue<S, C, N>,
        i: usize,
        v: u8,
    )
        requires
            old(bbq).wf(),
            self.is_grant_of(*old(bbq)),
            i < self@.1,
        ensures
            final(bbq).wakes() == old(bbq).wakes(),
            final(bbq).wf(),
            final(bbq).state() == old(bbq).state(),
            final(bbq).bytes() == old(bbq).bytes().update(self@.0 + i, v),
            final(bbq).contents() == old(bbq).contents().update(i as int, v),
    {
        proof {
            lemma_front_run(bbq.state(), bbq.bytes().len(), self@.1);
            assert(bbq.state().content().take(self@.1 as int)[i as int] == bbq.state().content()[i as int]);
        }
        bbq.write_queued(i, self.offset + i, v);
    }

    /// The byte at index `i` of the grant.
    pub fn get<S: Storage, C: Coord, N: Notifier>(&self, bbq: &BBQueue<S, C, N>, i: usize) -> (b:
        u8)
        requires
            bbq.wf(),
            self.is_grant_of(*bbq),
            i < self@.1,
        ensures
            b == bbq.contents()[i as int],
    {
        proof {
            lemma_front_run(bbq.state(), bbq.bytes().len(), self@.1);
            assert(bbq.contents().take(self@.1 as int)[i as int] == bbq.contents()[i as int]);
        }
        bbq.byte_at(self.offset + i)
    }

    /// Release the first `used` bytes of the grant (at most the whole grant):
    /// they leave the queue, and their room can be written again.
    pub fn release<S: Storage, C: Coord, N: Notifier>(
        self,
        bbq: &mut BBQueue<S, C, N>,
        used: usize,
    )
        requires
            old(bbq).wf(),
            self.is_grant_of(*old(bbq)),
        ensures
            final(bbq).wakes() == (
                old(bbq).wakes().0,
                old(bbq).wakes().1 + if min_nat(self@.1, used as nat) > 0 {
                    1nat
                } else {
                    0nat
                },
            ),
            final(bbq).wf(),
            final(bbq).bytes() == old(bbq).bytes(),
            final(bbq).state() == old(bbq).state().release_next(min_nat(self@.1, used as nat)),
            final(bbq).contents() == old(bbq).contents().skip(min_nat(self@.1, used as nat) as int),
    {
        let used = if used < self.len {
            used
        } else {
            self.len
        };
        bbq.coord_release(used);
        if used != 0 {
            bbq.wake_producer();
        }
    }
}

/// Stream handles carry nothing of their own: every producer handle is the
/// same value as every other, and so is every consumer handle. So any two
/// producers (or consumers) taken from one queue act on it interchangeably,
/// each call depending only on the queue it is given.
pub proof fn lemma_handles_interchangeable(
    p1: StreamProducer,
    p2: StreamProducer,
    c1: StreamConsumer,
    c2: StreamConsumer,
)
    ensures
        p1 == p2,
        c1 == c2,
{
}

} // verus!
