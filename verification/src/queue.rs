//! Queue storage: the bytes of the ring together with the coordination state
//! and the notifier.
use crate::prod_cons::framed::{FramedConsumer, FramedProducer};
use crate::prod_cons::stream::{StreamConsumer, StreamProducer};
use crate::traits::coordination::{
    lemma_commit_appends, lemma_content_distinct, lemma_grant_exact_keeps_wf, lemma_grant_max_remaining_keeps_wf,
    lemma_read_front, lemma_regions_disjoint, lemma_release_drops, lemma_split_read_covers,
    lemma_split_release_drops, min_nat, span, Coord, CoordState, ReadGrantError,
    WriteGrantError,
};
use crate::traits::notifier::Notifier;
use crate::traits::storage::{ConstStorage, Storage};
use vstd::prelude::*;

verus! {

/// A standard bbqueue
pub struct BBQueue<S, C, N> {
    pub(crate) sto: S,
    pub(crate) cor: C,
    pub(crate) not: N,
}

/// The bytes at the given storage indices, in order.
pub open spec fn bytes_at(bytes: Seq<u8>, idx: Seq<int>) -> Seq<u8> {
    idx.map_values(|i: int| bytes[i])
}

impl<S: Storage, C: Coord, N: Notifier> BBQueue<S, C, N> {
    /// The coordination state.
    pub open(crate) spec fn state(&self) -> CoordState {
        self.cor.state()
    }

    /// The bytes of the ring.
    pub open(crate) spec fn bytes(&self) -> Seq<u8> {
        self.sto.bytes()
    }

    /// The notifier that the queue holds.
    pub closed spec fn stored_notifier(&self) -> N {
        self.not
    }

    /// How many times the queue woke a consumer, and a producer.
    pub open spec fn wakes(&self) -> (nat, nat) {
        self.stored_notifier().wakes()
    }

    /// The ring is consistent with its coordination state.
    pub open spec fn wf(&self) -> bool {
        self.state().wf(self.bytes().len())
    }

    /// The queued bytes, oldest first.
    pub open spec fn contents(&self) -> Seq<u8> {
        bytes_at(self.bytes(), self.state().content())
    }

    /// Create a new [`BBQueue`] with the given [`Storage`] impl
    pub fn new_with_storage(sto: S) -> (q: Self)
        ensures
            q.state() == CoordState::initial(),
            q.bytes() == sto.bytes(),
            q.wakes() == (0nat, 0nat),
            q.wf(),
            q.contents() == Seq::<u8>::empty(),
    {
        let _cap = sto.capacity();
        let q = BBQueue { sto, cor: C::init(), not: N::init() };
        proof {
            assert(q.state().content() =~= Seq::<int>::empty());
            assert(q.contents() =~= Seq::<u8>::empty());
        }
        q
    }

    /// Get the total capacity of the buffer, e.g. how much space is present in [`Storage`]
    pub fn capacity(&self) -> (n: usize)
        ensures
            n == self.bytes().len(),
    {
        self.sto.capacity()
    }

    /// The notifier of this queue, through which producer and consumer can
    /// wait for each other.
    pub fn notifier(&self) -> (n: &N)
        ensures
            *n == self.stored_notifier(),
    {
        &self.not
    }

    /// Create a new [`FramedProducer`] for this [`BBQueue`]
    ///
    /// Although mixing stream and framed consumer/producers will not result in UB,
    /// it will also not work correctly.
    pub fn framed_producer(&self) -> FramedProducer<u16> {
        FramedProducer::new()
    }

    /// Create a new [`FramedConsumer`] for this [`BBQueue`]
    ///
    /// Although mixing stream and framed consumer/producers will not result in UB,
    /// it will also not work correctly.
    pub fn framed_consumer(&self) -> FramedConsumer<u16> {
        FramedConsumer::new()
    }

    /// Create a new [`StreamProducer`] for this [`BBQueue`]
    ///
    /// Although mixing stream and framed consumer/producers will not result in UB,
    /// it will also not work correctly.
    pub fn stream_producer(&self) -> StreamProducer {
        StreamProducer::new()
    }

    /// Create a new [`StreamConsumer`] for this [`BBQueue`]
    ///
    /// Although mixing stream and framed consumer/producers will not result in UB,
    /// it will also not work correctly.
    pub fn stream_consumer(&self) -> StreamConsumer {
        StreamConsumer::new()
    }

    /// The byte at index `i` of the ring.
    pub(crate) fn byte_at(&self, i: usize) -> (b: u8)
        requires
            i < self.bytes().len(),
        ensures
            b == self.bytes()[i as int],
    {
        self.sto.get_byte(i)
    }

    /// Write a byte into the active write grant. The queued bytes are kept.
    pub(crate) fn write_reserved(&mut self, i: usize, b: u8)
        requires
            old(self).wf(),
            old(self).state().write_in_progress,
            old(self).state().grant_start() <= i < old(self).state().reserve,
        ensures
            final(self).wakes() == old(self).wakes(),
            final(self).state() == old(self).state(),
            final(self).bytes() == old(self).bytes().update(i as int, b),
            final(self).wf(),
            final(self).contents() == old(self).contents(),
    {
        proof {
            let st = self.state();
            lemma_regions_disjoint(st, self.bytes().len());
            assert(st.reserved()[i - st.grant_start()] == i);
        }
        self.sto.set_byte(i, b);
        proof {
            let st = self.state();
            lemma_regions_disjoint(st, self.bytes().len());
            assert forall|k: int| 0 <= k < st.content().len() implies #[trigger] st.content()[k]
                != i by {
                assert(st.reserved()[i - st.grant_start()] == i);
            }
            assert(self.contents() =~= old(self).contents());
        }
    }

    /// Overwrite the byte at position `k` of the queue, which is stored at
    /// index `i` of the ring. The other queued bytes are kept.
    pub(crate) fn write_queued(&mut self, k: usize, i: usize, b: u8)
        requires
            old(self).wf(),
            k < old(self).state().content().len(),
            old(self).state().content()[k as int] == i,
        ensures
            final(self).wakes() == old(self).wakes(),
            final(self).state() == old(self).state(),
            final(self).bytes() == old(self).bytes().update(i as int, b),
            final(self).wf(),
            final(self).contents() == old(self).contents().update(k as int, b),
    {
        proof {
            lemma_regions_disjoint(self.state(), self.bytes().len());
        }
        self.sto.set_byte(i, b);
        proof {
            lemma_content_distinct(self.state(), self.bytes().len());
            assert(self.contents() =~= old(self).contents().update(k as int, b));
        }
    }

    /// Copy `src` into the active write grant, starting at index `start` of
    /// the ring. The queued bytes are kept.
    pub(crate) fn write_reserved_slice(&mut self, start: usize, src: &[u8])
        requires
            old(self).wf(),
            old(self).state().write_in_progress,
            old(self).state().grant_start() <= start,
            start + src@.len() <= old(self).state().reserve,
        ensures
            final(self).wakes() == old(self).wakes(),
            final(self).wf(),
            final(self).state() == old(self).state(),
            final(self).bytes().len() == old(self).bytes().len(),
            final(self).bytes().subrange(start as int, start + src@.len()) == src@,
            forall|j: int|
                0 <= j < old(self).bytes().len() && !(start <= j < start + src@.len()) ==> final(self).bytes()[j] == old(self).bytes()[j],
            final(self).contents() == old(self).contents(),
    {
        let mut k: usize = 0;
        while k < src.len()
            invariant
                k <= src@.len(),
                self.wf(),
                self.state() == old(self).state(),
                self.state().write_in_progress,
                self.state().grant_start() <= start,
                start + src@.len() <= self.state().reserve,
                self.bytes().len() == old(self).bytes().len(),
                forall|j: int| 0 <= j < k ==> self.bytes()[start + j] == src@[j],
                forall|j: int|
                    0 <= j < old(self).bytes().len() && !(start <= j < start + k) ==> self.bytes()[j]
                        == old(self).bytes()[j],
                self.contents() == old(self).contents(),
                self.wakes() == old(self).wakes(),
            decreases src@.len() - k,
        {
            self.write_reserved(start + k, src[k]);
            k = k + 1;
        }
        assert(self.bytes().subrange(start as int, start + src@.len()) =~= src@);
    }

    /// Obtain an exact write grant from the coordination state.
    pub(crate) fn coord_grant_exact(&mut self, sz: usize) -> (r: Result<usize, WriteGrantError>)
        requires
            old(self).wf(),
        ensures
            final(self).wakes() == old(self).wakes(),
            CoordState::grant_exact_post(
                old(self).state(),
                final(self).state(),
                old(self).bytes().len(),
                sz as nat,
                r,
            ),
            final(self).bytes() == old(self).bytes(),
            final(self).wf(),
            final(self).contents() == old(self).contents(),
    {
        let cap = self.sto.capacity();
        let r = self.cor.grant_exact(cap, sz);
        proof {
            lemma_grant_exact_keeps_wf(old(self).state(), self.state(), cap as nat, sz as nat, r);
        }
        r
    }

    /// Obtain a write grant of up to `sz` bytes from the coordination state.
    pub(crate) fn coord_grant_max_remaining(&mut self, sz: usize) -> (r: Result<
        (usize, usize),
        WriteGrantError,
    >)
        requires
            old(self).wf(),
        ensures
            final(self).wakes() == old(self).wakes(),
            CoordState::grant_max_remaining_post(
                old(self).state(),
                final(self).state(),
                old(self).bytes().len(),
                sz as nat,
                r,
            ),
            final(self).bytes() == old(self).bytes(),
            final(self).wf(),
            final(self).contents() == old(self).contents(),
    {
        let cap = self.sto.capacity();
        let r = self.cor.grant_max_remaining(cap, sz);
        proof {
            lemma_grant_max_remaining_keeps_wf(
                old(self).state(),
                self.state(),
                cap as nat,
                sz as nat,
                r,
            );
        }
        r
    }

    /// Commit `used` bytes of the active write grant of `glen` bytes: they
    /// are appended to the queued bytes.
    pub(crate) fn coord_commit(&mut self, glen: usize, used: usize)
        requires
            old(self).wf(),
            old(self).state().write_in_progress ==> glen == old(self).state().reserve - old(self).state().grant_start(),
        ensures
            final(self).wakes() == old(self).wakes(),
            final(self).state() == old(self).state().commit_next(
                old(self).bytes().len(),
                glen as nat,
                used as nat,
            ),
            final(self).bytes() == old(self).bytes(),
            final(self).wf(),
            old(self).state().write_in_progress ==> final(self).contents() == old(self).contents()
                + old(self).bytes().subrange(
                old(self).state().grant_start() as int,
                (old(self).state().grant_start() + min_nat(glen as nat, used as nat)) as int,
            ),
            !old(self).state().write_in_progress ==> final(self).contents() == old(self).contents(),
    {
        let cap = self.sto.capacity();
        self.cor.commit_inner(cap, glen, used);
        proof {
            let s = old(self).state();
            if s.write_in_progress {
                lemma_commit_appends(s, cap as nat, glen as nat, used as nat);
                lemma_regions_disjoint(s, cap as nat);
                let st = s.grant_start() as int;
                let u = min_nat(glen as nat, used as nat) as int;
                assert(bytes_at(self.bytes(), span(st, st + u)) =~= self.bytes().subrange(
                    st,
                    st + u,
                ));
                assert(self.contents() =~= old(self).contents() + bytes_at(
                    self.bytes(),
                    span(st, st + u),
                ));
            }
        }
    }

    /// Obtain a read grant from the coordination state.
    pub(crate) fn coord_read(&mut self) -> (r: Result<(usize, usize), ReadGrantError>)
        requires
            old(self).wf(),
        ensures
            final(self).wakes() == old(self).wakes(),
            CoordState::read_post(old(self).state(), final(self).state(), r),
            final(self).bytes() == old(self).bytes(),
            final(self).wf(),
            final(self).contents() == old(self).contents(),
            match r {
                Ok((start, len)) => {
                    &&& 0 < len <= old(self).contents().len()
                    &&& start + len <= old(self).bytes().len()
                    &&& old(self).contents().take(len as int) == old(self).bytes().subrange(
                        start as int,
                        start + len,
                    )
                },
                Err(ReadGrantError::Empty) => old(self).contents().len() == 0,
                _ => true,
            },
    {
        let r = self.cor.read();
        proof {
            let cap = self.bytes().len();
            lemma_read_front(old(self).state(), self.state(), cap, r);
            lemma_regions_disjoint(old(self).state(), cap);
            if let Ok((start, len)) = r {
                let c = old(self).state().content();
                assert(c[len - 1] == start + len - 1);
                assert(old(self).contents().take(len as int) =~= old(self).bytes().subrange(
                    start as int,
                    start + len,
                ));
            }
            assert(self.contents() =~= old(self).contents());
        }
        r
    }

    /// Obtain a split read grant from the coordination state.
    pub(crate) fn coord_split_read(&mut self) -> (r: Result<[(usize, usize); 2], ReadGrantError>)
        requires
            old(self).wf(),
        ensures
            final(self).wakes() == old(self).wakes(),
            CoordState::split_read_post(old(self).state(), final(self).state(), r),
            final(self).bytes() == old(self).bytes(),
            final(self).wf(),
            final(self).contents() == old(self).contents(),
            match r {
                Ok(runs) => {
                    &&& runs@[0].1 > 0
                    &&& runs@[1].0 == 0
                    &&& runs@[0].0 + runs@[0].1 <= old(self).bytes().len()
                    &&& runs@[1].1 <= old(self).bytes().len()
                    &&& old(self).contents() == old(self).bytes().subrange(
                        runs@[0].0 as int,
                        runs@[0].0 + runs@[0].1,
                    ) + old(self).bytes().subrange(0, runs@[1].1 as int)
                },
                Err(ReadGrantError::Empty) => old(self).contents().len() == 0,
                _ => true,
            },
    {
        let r = self.cor.split_read();
        proof {
            let cap = self.bytes().len();
            lemma_split_read_covers(old(self).state(), self.state(), cap, r);
            lemma_regions_disjoint(old(self).state(), cap);
            if let Ok(runs) = r {
                let c = old(self).state().content();
                let a = runs@[0].0 as int;
                let l1 = runs@[0].1 as int;
                let l2 = runs@[1].1 as int;
                assert(c[l1 - 1] == a + l1 - 1);
                if l2 > 0 {
                    assert(c[l1 + l2 - 1] == l2 - 1);
                }
                assert(old(self).contents() =~= old(self).bytes().subrange(a, a + l1) + old(self).bytes().subrange(0, l2));
            }
            assert(self.contents() =~= old(self).contents());
        }
        r
    }

    /// Release `used` bytes of the active read grant: they leave the queue.
    pub(crate) fn coord_release(&mut self, used: usize)
        requires
            old(self).wf(),
            old(self).state().release_pre(used as nat),
        ensures
            final(self).wakes() == old(self).wakes(),
            final(self).state() == old(self).state().release_next(used as nat),
            final(self).bytes() == old(self).bytes(),
            final(self).wf(),
            old(self).state().read_in_progress ==> final(self).contents() == old(self).contents().skip(used as int),
            !old(self).state().read_in_progress ==> final(self).contents() == old(self).contents(),
    {
        self.cor.release_inner(used);
        proof {
            let s = old(self).state();
            if s.read_in_progress {
                lemma_release_drops(s, self.bytes().len(), used as nat);
                assert(self.contents() =~= old(self).contents().skip(used as int));
            }
        }
    }

    /// Release `used1 + used2` bytes of the active split read grant.
    pub(crate) fn coord_split_release(&mut self, used1: usize, used2: usize)
        requires
            old(self).wf(),
            old(self).state().split_release_pre(used1 as nat, used2 as nat),
        ensures
            final(self).wakes() == old(self).wakes(),
            final(self).state() == old(self).state().split_release_next(used1 as nat, used2 as nat),
            final(self).bytes() == old(self).bytes(),
            final(self).wf(),
            old(self).state().read_in_progress ==> final(self).contents() == old(self).contents().skip(used1 + used2),
            !old(self).state().read_in_progress ==> final(self).contents() == old(self).contents(),
    {
        self.cor.split_release_inner(used1, used2);
        proof {
            let s = old(self).state();
            if s.read_in_progress {
                lemma_split_release_drops(s, self.bytes().len(), used1 as nat, used2 as nat);
                assert(self.contents() =~= old(self).contents().skip(used1 + used2));
            }
        }
    }

    /// The bytes of the ring from `start` to `start + len`.
    pub(crate) fn copy_out(&self, start: usize, len: usize) -> (v: Vec<u8>)
        requires
            start + len <= self.bytes().len(),
        ensures
            v@ == self.bytes().subrange(start as int, start + len),
    {
        let _cap = self.sto.capacity();
        let mut v: Vec<u8> = Vec::new();
        let mut k: usize = 0;
        while k < len
            invariant
                k <= len,
                self.bytes().len() <= usize::MAX,
                start + len <= self.bytes().len(),
                v@ == self.bytes().subrange(start as int, start + k),
            decreases len - k,
        {
            let b = self.sto.get_byte(start + k);
            v.push(b);
            k = k + 1;
            assert(v@ =~= self.bytes().subrange(start as int, start + k));
        }
        v
    }

    /// Inform the consumer that data was committed.
    pub(crate) fn wake_consumer(&mut self)
        ensures
            final(self).state() == old(self).state(),
            final(self).bytes() == old(self).bytes(),
            final(self).wakes() == (old(self).wakes().0 + 1, old(self).wakes().1),
    {
        self.not.wake_one_consumer();
    }

    /// Inform the producer that room was released.
    pub(crate) fn wake_producer(&mut self)
        ensures
            final(self).state() == old(self).state(),
            final(self).bytes() == old(self).bytes(),
            final(self).wakes() == (old(self).wakes().0, old(self).wakes().1 + 1),
    {
        self.not.wake_one_producer();
    }
}

impl<S: ConstStorage, C: Coord, N: Notifier> BBQueue<S, C, N> {
    /// Create a new `BBQueue` with zeroed storage
    pub fn new() -> (q: Self)
        ensures
            q.bytes().len() == S::const_len(),
            q.wakes() == (0nat, 0nat),
            q.state() == CoordState::initial(),
            forall|i: int| 0 <= i < q.bytes().len() ==> q.bytes()[i] == 0u8,
            q.wf(),
            q.contents() == Seq::<u8>::empty(),
    {
        BBQueue::new_with_storage(S::init())
    }
}

} // verus!
