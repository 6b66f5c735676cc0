//! A single-threaded bipbuffer of six bytes, driven through one value.
//!
//! The writer asks for a grant of contiguous room, fills it and commits part
//! of it; the reader takes the contiguous run of committed bytes and releases
//! part of it. The indices are kept in a [`Track`].
//!
//! This buffer checks less than the coordination state of [`crate::queue`]:
//! a grant is only refused while another one is active or when neither the
//! room up to `last` nor the room before `read` is large enough. The
//! contracts below state exactly what each step does to the indices.
use crate::traits::coordination::span;
use vstd::prelude::*;

verus! {

/// The number of bytes of the buffer.
pub const CAPACITY: usize = 6;

/// The indices of the buffer: `(write, read, last, reserve)`.
pub type TrackView = (nat, nat, nat, nat);

/// The indices of the buffer.
#[derive(Debug)]
pub struct Track {
    write: usize,
    read: usize,
    last: usize,
    reserve: usize,
}

impl View for Track {
    type V = TrackView;

    closed spec fn view(&self) -> TrackView {
        (self.write as nat, self.read as nat, self.last as nat, self.reserve as nat)
    }
}

/// The buffer and its indices.
#[derive(Debug)]
pub struct BBQueue {
    buf: [u8; 6],
    trk: Track,
}

/// A writing grant: `len` bytes of the buffer, starting at `start`.
#[derive(Debug)]
pub struct GrantW {
    start: usize,
    len: usize,
}

/// A reading grant: `len` bytes of the buffer, starting at `start`.
#[derive(Debug)]
pub struct GrantR {
    start: usize,
    len: usize,
}

impl View for GrantW {
    /// Start and length of the grant.
    type V = (nat, nat);

    closed spec fn view(&self) -> (nat, nat) {
        (self.start as nat, self.len as nat)
    }
}

impl View for GrantR {
    /// Start and length of the grant.
    type V = (nat, nat);

    closed spec fn view(&self) -> (nat, nat) {
        (self.start as nat, self.len as nat)
    }
}

/// Every index lies within the buffer.
pub open spec fn track_wf(t: TrackView) -> bool {
    &&& t.0 <= CAPACITY
    &&& t.1 <= CAPACITY
    &&& t.2 <= CAPACITY
    &&& t.3 <= CAPACITY
}

/// Where a grant of `sz` bytes starts: at `write` when it fits before
/// `last`, else at the start of the buffer when it fits before `read`.
/// `None` while a grant is active (`reserve != write`) or when it fits
/// nowhere.
pub open spec fn grant_start(t: TrackView, sz: nat) -> Option<nat> {
    if t.3 != t.0 {
        None
    } else if t.0 + sz <= t.2 {
        Some(t.0)
    } else if t.1 != 0 && sz < t.1 {
        Some(0)
    } else {
        None
    }
}

/// The indices after committing `used` bytes of a grant of `len` bytes:
/// the unused room is given back, and when the writer has wrapped around,
/// `last` marks where it was.
pub open spec fn commit_track(t: TrackView, len: nat, used: nat) -> TrackView {
    let reserve = (t.3 - (len - used)) as nat;
    let last = if reserve < t.0 {
        t.0
    } else {
        t.2
    };
    (reserve, t.1, last, reserve)
}

/// The length of the run that a read hands out: up to `last` when the writer
/// has wrapped around, else up to `write`.
pub open spec fn read_len(t: TrackView) -> nat {
    if t.0 < t.1 {
        (t.2 - t.1) as nat
    } else {
        (t.0 - t.1) as nat
    }
}

/// The indices after releasing `used` bytes: the reader moves on, and
/// follows the writer to the start when it reaches `last`.
pub open spec fn release_track(t: TrackView, used: nat) -> TrackView {
    let read = t.1 + used;
    if t.0 < read && read == t.2 {
        (t.0, 0, CAPACITY as nat, t.3)
    } else {
        (t.0, read, t.2, t.3)
    }
}

/// A read does not fail: `read` is inside the buffer, and not past `last`
/// when the writer has wrapped around.
pub open spec fn read_allowed(t: TrackView) -> bool {
    &&& t.1 < CAPACITY
    &&& t.0 < t.1 ==> t.1 <= t.2
}

impl Track {
    /// The indices of an empty buffer of `sz` bytes.
    fn new(sz: usize) -> (t: Track)
        ensures
            t@ == (0nat, 0nat, sz as nat, 0nat),
    {
        Track { write: 0, read: 0, last: sz, reserve: 0 }
    }
}

impl BBQueue {
    /// The indices of the buffer.
    pub closed spec fn track(&self) -> TrackView {
        self.trk@
    }

    /// The bytes of the buffer.
    pub closed spec fn bytes(&self) -> Seq<u8> {
        self.buf@
    }

    /// The indices lie within the buffer.
    pub open spec fn wf(&self) -> bool {
        &&& track_wf(self.track())
        &&& self.bytes().len() == CAPACITY
    }

    /// An empty, zeroed buffer.
    pub fn new() -> (q: Self)
        ensures
            q.wf(),
            q.track() == (0nat, 0nat, CAPACITY as nat, 0nat),
            q.bytes() == Seq::new(CAPACITY as nat, |i: int| 0u8),
    {
        let q = BBQueue { buf: [0u8; 6], trk: Track::new(6) };
        assert(q.bytes() =~= Seq::new(CAPACITY as nat, |i: int| 0u8));
        q
    }

    /// A grant of `sz` bytes can be asked for: `write + sz` does not overflow.
    pub fn can_grant(&self, sz: usize) -> (b: bool)
        requires
            self.wf(),
        ensures
            b == (self.track().0 + sz <= usize::MAX),
    {
        sz <= usize::MAX - self.trk.write
    }

    /// `grant` can be committed with `used` bytes: `used` is not more than
    /// the grant holds, and the unused room is reserved.
    pub fn can_commit(&self, used: usize, grant: &GrantW) -> (b: bool)
        ensures
            b == (used <= grant@.1 && grant@.1 - used <= self.track().3),
    {
        used <= grant.len && grant.len - used <= self.trk.reserve
    }

    /// A read does not fail: see [`read_allowed`].
    pub fn can_read(&self) -> (b: bool)
        ensures
            b == read_allowed(self.track()),
    {
        self.trk.read < 6 && (self.trk.write >= self.trk.read || self.trk.read <= self.trk.last)
    }

    /// `grant` can be released with `used` bytes: `used` is not more than
    /// the grant holds, and the grant lies within the buffer from `read`.
    pub fn can_release(&self, used: usize, grant: &GrantR) -> (b: bool)
        requires
            self.wf(),
        ensures
            b == (used <= grant@.1 && self.track().1 + grant@.1 <= CAPACITY),
    {
        used <= grant.len && grant.len <= 6 - self.trk.read
    }

    /// Writer component. Must never write to `read`,
    /// be careful writing to `last`
    ///
    /// Grants `sz` bytes at [`grant_start`], or refuses.
    pub fn grant(&mut self, sz: usize) -> (r: Result<GrantW, ()>)
        requires
            old(self).wf(),
            old(self).track().0 + sz <= usize::MAX,
        ensures
            final(self).wf(),
            final(self).bytes() == old(self).bytes(),
            match grant_start(old(self).track(), sz as nat) {
                Some(start) => {
                    &&& r is Ok
                    &&& r->Ok_0@ == (start, sz as nat)
                    &&& start + sz <= CAPACITY
                    &&& final(self).track() == (
                        old(self).track().0,
                        old(self).track().1,
                        old(self).track().2,
                        start + sz as nat,
                    )
                },
                None => r is Err && final(self).track() == old(self).track(),
            },
    {
        if self.trk.reserve != self.trk.write {
            return Err(());
        }
        let start: usize = if self.trk.write + sz <= self.trk.last {
            self.trk.write
        } else {
            let read = self.trk.read;
            if read != 0 && sz < read {
                0
            } else {
                return Err(());
            }
        };
        self.trk.reserve = start + sz;
        Ok(GrantW { start, len: sz })
    }

    /// Writer component. Must never write to READ,
    /// be careful writing to LAST
    ///
    /// Commits `used` bytes of `grant`, which must not be more than the grant
    /// holds.
    pub fn commit(&mut self, used: usize, grant: GrantW)
        requires
            old(self).wf(),
            used <= grant@.1,
            grant@.1 - used <= old(self).track().3,
        ensures
            final(self).wf(),
            final(self).bytes() == old(self).bytes(),
            final(self).track() == commit_track(old(self).track(), grant@.1, used as nat),
    {
        let len = grant.len;
        self.trk.reserve = self.trk.reserve - (len - used);
        if self.trk.reserve < self.trk.write {
            self.trk.last = self.trk.write;
        }
        self.trk.write = self.trk.reserve;
    }

    /// The run of committed bytes that starts at `read`.
    pub fn read(&mut self) -> (g: GrantR)
        requires
            old(self).wf(),
            read_allowed(old(self).track()),
        ensures
            *final(self) == *old(self),
            g@ == (old(self).track().1, read_len(old(self).track())),
            g@.0 + g@.1 <= CAPACITY,
    {
        let last = self.trk.last;
        let write = self.trk.write;
        let sz = if write < self.trk.read {
            last
        } else {
            write
        } - self.trk.read;
        GrantR { start: self.trk.read, len: sz }
    }

    /// Releases `used` bytes of `grant`, which must not be more than the
    /// grant holds.
    pub fn release(&mut self, used: usize, grant: GrantR)
        requires
            old(self).wf(),
            used <= grant@.1,
            old(self).track().1 + grant@.1 <= CAPACITY,
        ensures
            final(self).wf(),
            final(self).bytes() == old(self).bytes(),
            final(self).track() == release_track(old(self).track(), used as nat),
    {
        self.trk.read = self.trk.read + used;
        let last = self.trk.last;
        let write = self.trk.write;
        let inverted = write < self.trk.read;
        if inverted && (self.trk.read == last) {
            self.trk.last = 6;
            self.trk.read = 0;
        }
    }
}

impl GrantW {
    /// The number of bytes in the grant.
    pub fn len(&self) -> (n: usize)
        ensures
            n == self@.1,
    {
        self.len
    }

    /// Copy `src`, which is exactly as long as the grant, into the grant.
    pub fn copy_from_slice(&self, bb: &mut BBQueue, src: &[u8])
        requires
            old(bb).wf(),
            self@.0 + self@.1 <= CAPACITY,
            src@.len() == self@.1,
        ensures
            final(bb).wf(),
            final(bb).track() == old(bb).track(),
            final(bb).bytes() == old(bb).bytes().subrange(0, self@.0 as int) + src@
                + old(bb).bytes().subrange((self@.0 + self@.1) as int, CAPACITY as int),
    {
        let mut k: usize = 0;
        while k < self.len
            invariant
                k <= self@.1,
                self@.0 + self@.1 <= CAPACITY,
                src@.len() == self@.1,
                bb.wf(),
                bb.track() == old(bb).track(),
                bb.bytes().len() == CAPACITY,
                forall|j: int| 0 <= j < k ==> bb.bytes()[self@.0 + j] == src@[j],
                forall|j: int|
                    0 <= j < CAPACITY && !(self@.0 <= j < self@.0 + k) ==> bb.bytes()[j] == old(
                        bb,
                    ).bytes()[j],
            decreases self@.1 - k,
        {
            bb.buf[self.start + k] = src[k];
            k = k + 1;
        }
        assert(bb.bytes() =~= old(bb).bytes().subrange(0, self@.0 as int) + src@ + old(
            bb,
        ).bytes().subrange((self@.0 + self@.1) as int, CAPACITY as int));
    }
}

impl GrantR {
    /// The number of bytes in the grant.
    pub fn len(&self) -> (n: usize)
        ensures
            n == self@.1,
    {
        self.len
    }

    /// The bytes of the grant.
    pub fn to_vec(&self, bb: &BBQueue) -> (v: Vec<u8>)
        requires
            bb.wf(),
            self@.0 + self@.1 <= CAPACITY,
        ensures
            v@ == bb.bytes().subrange(self@.0 as int, (self@.0 + self@.1) as int),
    {
        let mut v: Vec<u8> = Vec::new();
        let mut k: usize = 0;
        while k < self.len
            invariant
                k <= self@.1,
                self@.0 + self@.1 <= CAPACITY,
                bb.wf(),
                v@ == bb.bytes().subrange(self@.0 as int, self@.0 + k),
            decreases self@.1 - k,
        {
            v.push(bb.buf[self.start + k]);
            k = k + 1;
            assert(v@ =~= bb.bytes().subrange(self@.0 as int, self@.0 + k));
        }
        v
    }
}

/// The indices hold together as steps from an empty buffer keep them: every
/// index lies within the buffer; when the writer has wrapped around
/// (`write < read`) the reader has not passed `last`; otherwise `last` is the
/// end of the buffer.
pub open spec fn track_inv(t: TrackView) -> bool {
    &&& track_wf(t)
    &&& t.0 < t.1 ==> t.1 <= t.2
    &&& !(t.0 < t.1) ==> t.2 == CAPACITY
}

/// Buffer indices of the committed bytes not yet released, oldest first:
/// from `read` up to `last` and then from the start up to `write` when the
/// writer has wrapped around, else from `read` up to `write`.
pub open spec fn track_content(t: TrackView) -> Seq<int> {
    if t.0 < t.1 {
        span(t.1 as int, t.2 as int) + span(0, t.0 as int)
    } else {
        span(t.1 as int, t.0 as int)
    }
}

/// A grant of `sz` bytes on which the buffer keeps track of its bytes: when
/// the writer has wrapped around, it ends strictly before `read`. (Past that,
/// a grant can cover committed bytes, or a commit can bring the writer onto
/// the reader, where a full buffer reads as empty.)
pub open spec fn grant_safe(t: TrackView, sz: nat) -> bool {
    t.0 < t.1 ==> t.0 + sz < t.1
}

/// An empty buffer holds the invariant and no bytes.
pub proof fn lemma_track_initial()
    ensures
        track_inv((0nat, 0nat, CAPACITY as nat, 0nat)),
        track_content((0nat, 0nat, CAPACITY as nat, 0nat)) == Seq::<int>::empty(),
{
    assert(track_content((0nat, 0nat, CAPACITY as nat, 0nat)) =~= Seq::<int>::empty());
}

/// Room is handed out where it is. While a grant is active every grant is
/// refused. Otherwise, with the writer not wrapped around, a grant of `sz`
/// bytes is given at `write` when it fits before the end of the buffer, else
/// at the start when it ends before `read`, else refused; with the writer
/// wrapped around, a grant that ends before `read` is given at `write`.
pub proof fn lemma_track_room(t: TrackView, sz: nat)
    requires
        track_inv(t),
    ensures
        t.3 != t.0 ==> grant_start(t, sz) is None,
        (t.3 == t.0 && !(t.0 < t.1)) ==> grant_start(t, sz) == if t.0 + sz <= CAPACITY {
            Some(t.0)
        } else if sz < t.1 {
            Some(0nat)
        } else {
            None
        },
        (t.3 == t.0 && t.0 < t.1 && t.0 + sz < t.1) ==> grant_start(t, sz) == Some(t.0),
{
}

/// What is committed is queued: a grant of `sz` bytes on which the buffer
/// keeps track (see [`grant_safe`]), committed with `used` bytes, appends the
/// first `used` indices of the grant to the queued bytes and keeps the
/// invariant. The grant lies within the buffer and covers no queued byte.
pub proof fn lemma_track_grant_commit(t: TrackView, sz: nat, used: nat)
    requires
        track_inv(t),
        grant_safe(t, sz),
        grant_start(t, sz) is Some,
        used <= sz,
    ensures
        ({
            let start = grant_start(t, sz)->Some_0;
            let g = (t.0, t.1, t.2, start + sz);
            let c = commit_track(g, sz, used);
            &&& start + sz <= CAPACITY
            &&& forall|j: int|
                0 <= j < track_content(t).len() ==> !(start <= #[trigger] track_content(t)[j] < start
                    + sz)
            &&& track_inv(c)
            &&& c.3 == c.0
            &&& track_content(c) == track_content(t) + span(start as int, (start + used) as int)
        }),
{
    let start = grant_start(t, sz)->Some_0;
    let g = (t.0, t.1, t.2, start + sz);
    let c = commit_track(g, sz, used);
    assert(track_content(c) =~= track_content(t) + span(start as int, (start + used) as int));
}

/// A read hands out only queued bytes, and all of the run it can: the run
/// starts at `read` and is the front of the queued bytes, and is either all of
/// them or ends where they continue at the start of the buffer.
pub proof fn lemma_track_read_front(t: TrackView)
    requires
        track_inv(t),
        read_allowed(t),
    ensures
        read_len(t) <= track_content(t).len(),
        t.1 + read_len(t) <= CAPACITY,
        track_content(t).take(read_len(t) as int) == span(t.1 as int, (t.1 + read_len(t)) as int),
        read_len(t) < track_content(t).len() ==> track_content(t)[read_len(t) as int] == 0,
{
    assert(track_content(t).take(read_len(t) as int) =~= span(t.1 as int, (t.1 + read_len(t)) as int));
}

/// What is released is gone: releasing `used` bytes of a read drops them from
/// the front of the queued bytes, keeps the invariant (so when the reader
/// follows the writer to the start, `last` is the end of the buffer again),
/// and leaves the writer's indices alone.
pub proof fn lemma_track_release(t: TrackView, used: nat)
    requires
        track_inv(t),
        used <= read_len(t),
    ensures
        track_inv(release_track(t, used)),
        track_content(release_track(t, used)) == track_content(t).skip(used as int),
        release_track(t, used).0 == t.0,
        release_track(t, used).3 == t.3,
{
    assert(track_content(release_track(t, used)) =~= track_content(t).skip(used as int));
}

} // verus!
