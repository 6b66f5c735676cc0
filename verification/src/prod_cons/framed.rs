//! Framed byte queue interfaces
//!
//! Useful for sending data that has coherent frames, e.g. network packets.
//! Each frame is stored as a little-endian length header followed by the
//! frame's bytes; a frame never wraps around the end of the ring.
use crate::queue::BBQueue;
use crate::traits::coordination::{
    lemma_front_run, Coord, CoordState, ReadGrantError, WriteGrantError,
};
use crate::traits::notifier::Notifier;
use crate::traits::storage::Storage;
use core::marker::PhantomData;
use vstd::bytes::{
    lemma_auto_spec_u16_to_from_le_bytes, lemma_auto_spec_u64_to_from_le_bytes,
    spec_u16_from_le_bytes, spec_u16_to_le_bytes, spec_u64_from_le_bytes, spec_u64_to_le_bytes,
    u16_from_le_bytes, u16_to_le_bytes, u64_from_le_bytes, u64_to_le_bytes,
};
use vstd::prelude::*;

verus! {

/// A type that can be used as the "header" for separating framed storage.
///
/// Framed interfaces use a `u16` by default, which only requires two bytes
/// for the header, with the limitation that the largest grant allowed is
/// 64KiB at a time. A `usize` header allows the maximum platform size.
pub trait LenHeader: Sized + Copy {
    /// The length this header stands for.
    spec fn value(&self) -> nat;

    /// The number of bytes of the encoded header.
    spec fn header_size() -> nat;

    /// The little-endian encoding of the header.
    spec fn spec_to_le(self) -> Seq<u8>;

    /// The header encoded by `bytes`.
    spec fn spec_from_le(bytes: Seq<u8>) -> Self;

    /// The number of bytes of the encoded header.
    fn size() -> (n: usize)
        ensures
            n == Self::header_size(),
            n > 0,
    ;

    /// The length this header stands for.
    fn into_usize(&self) -> (u: usize)
        ensures
            u == self.value(),
    ;

    /// The header for a length `u`.
    fn from_usize(u: usize) -> (h: Self)
        requires
            u <= Self::max_value(),
        ensures
            h.value() == u,
    ;

    /// The largest length a header can stand for.
    spec fn max_value() -> nat;

    /// The smaller of two headers.
    fn min(self, other: Self) -> (r: Self)
        ensures
            r == (if self.value() <= other.value() {
                self
            } else {
                other
            }),
    ;

    /// Convert into bytes, in little endian order.
    fn to_le_bytes(&self) -> (b: Vec<u8>)
        ensures
            b@ == self.spec_to_le(),
    ;

    /// Convert bytes, in little endian order, into a header.
    fn from_le_bytes(by: &[u8]) -> (h: Self)
        requires
            by@.len() == Self::header_size(),
        ensures
            h == Self::spec_from_le(by@),
    ;

    /// Decoding an encoded header gives it back, and the encoding has the
    /// header's size.
    proof fn lemma_le_roundtrip()
        ensures
            forall|h: Self| #[trigger] h.spec_to_le().len() == Self::header_size(),
            forall|h: Self| Self::spec_from_le(#[trigger] h.spec_to_le()) == h,
            forall|h: Self| #[trigger] h.value() <= Self::max_value(),
            Self::max_value() <= usize::MAX,
            Self::header_size() > 0,
    ;
}

impl LenHeader for u16 {
    open spec fn value(&self) -> nat {
        *self as nat
    }

    open spec fn header_size() -> nat {
        2
    }

    open spec fn spec_to_le(self) -> Seq<u8> {
        spec_u16_to_le_bytes(self)
    }

    open spec fn spec_from_le(bytes: Seq<u8>) -> Self {
        spec_u16_from_le_bytes(bytes)
    }

    open spec fn max_value() -> nat {
        u16::MAX as nat
    }

    fn size() -> (n: usize) {
        2
    }

    fn into_usize(&self) -> (u: usize) {
        *self as usize
    }

    fn from_usize(u: usize) -> (h: Self) {
        u as u16
    }

    fn min(self, other: Self) -> (r: Self) {
        if self <= other {
            self
        } else {
            other
        }
    }

    fn to_le_bytes(&self) -> (b: Vec<u8>) {
        u16_to_le_bytes(*self)
    }

    fn from_le_bytes(by: &[u8]) -> (h: Self) {
        u16_from_le_bytes(by)
    }

    proof fn lemma_le_roundtrip() {
        lemma_auto_spec_u16_to_from_le_bytes();
        assert forall|h: u16| Self::spec_from_le(#[trigger] h.spec_to_le()) == h by {
            assert(spec_u16_to_le_bytes(h).len() == 2);
        }
    }
}

impl LenHeader for usize {
    open spec fn value(&self) -> nat {
        *self as nat
    }

    open spec fn header_size() -> nat {
        8
    }

    open spec fn spec_to_le(self) -> Seq<u8> {
        spec_u64_to_le_bytes(self as u64)
    }

    open spec fn spec_from_le(bytes: Seq<u8>) -> Self {
        spec_u64_from_le_bytes(bytes) as usize
    }

    open spec fn max_value() -> nat {
        usize::MAX as nat
    }

    fn size() -> (n: usize) {
        8
    }

    fn into_usize(&self) -> (u: usize) {
        *self
    }

    fn from_usize(u: usize) -> (h: Self) {
        u
    }

    fn min(self, other: Self) -> (r: Self) {
        if self <= other {
            self
        } else {
            other
        }
    }

    fn to_le_bytes(&self) -> (b: Vec<u8>) {
        u64_to_le_bytes(*self as u64)
    }

    fn from_le_bytes(by: &[u8]) -> (h: Self) {
        u64_from_le_bytes(by) as usize
    }

    proof fn lemma_le_roundtrip() {
        lemma_auto_spec_u64_to_from_le_bytes();
        assert forall|h: usize| Self::spec_from_le(#[trigger] h.spec_to_le()) == h by {
            assert(spec_u64_to_le_bytes(h as u64).len() == 8);
        }
    }
}

/// The header of a frame committed with `used` bytes from a grant for `h`
/// bytes: `used`, clamped to `h`.
pub open spec fn clamped<H: LenHeader>(h: H, used: H) -> H {
    if h.value() <= used.value() {
        h
    } else {
        used
    }
}

/// A frame as it is stored: the encoded header, then the frame's bytes.
pub open spec fn frame<H: LenHeader>(hdr: H, body: Seq<u8>) -> Seq<u8> {
    hdr.spec_to_le() + body
}

/// The number of bytes that the frames with headers `hdrs` take in the ring.
pub open spec fn frames_len<H: LenHeader>(hdrs: Seq<H>) -> nat
    decreases hdrs.len(),
{
    if hdrs.len() == 0 {
        0
    } else {
        frames_len(hdrs.drop_last()) + H::header_size() + hdrs.last().value()
    }
}

/// `c` is a sequence of whole frames, whose headers are `hdrs`.
pub open spec fn frames_parse<H: LenHeader>(c: Seq<u8>, hdrs: Seq<H>) -> bool
    decreases hdrs.len(),
{
    if hdrs.len() == 0 {
        c.len() == 0
    } else {
        let n = H::header_size() + hdrs[0].value();
        &&& n <= c.len()
        &&& c.take(H::header_size() as int) == hdrs[0].spec_to_le()
        &&& frames_parse(c.skip(n as int), hdrs.drop_first())
    }
}

/// The queued frames lie whole in the ring: when the writer has wrapped
/// around, the end of the ring holds a whole number of them.
pub open spec fn frames_aligned<H: LenHeader>(s: CoordState, hdrs: Seq<H>) -> bool {
    &&& frames_len(hdrs) == s.content().len()
    &&& s.inverted() ==> exists|m: int|
        0 <= m <= hdrs.len() && s.last - s.read == #[trigger] frames_len(hdrs.take(m))
}

/// The queue holds the frames with headers `hdrs`, as a framed producer
/// committed them.
pub open spec fn framed_inv<H: LenHeader>(s: CoordState, c: Seq<u8>, hdrs: Seq<H>) -> bool {
    frames_parse(c, hdrs) && frames_aligned(s, hdrs)
}

/// Frame lengths add up over a prefix and the frame that follows it.
proof fn lemma_frames_len_push<H: LenHeader>(hdrs: Seq<H>, m: int)
    requires
        0 <= m < hdrs.len(),
    ensures
        frames_len(hdrs.take(m + 1)) == frames_len(hdrs.take(m)) + H::header_size()
            + hdrs[m].value(),
{
    assert(hdrs.take(m + 1).drop_last() =~= hdrs.take(m));
}

/// Frame lengths of a prefix never exceed those of the whole.
proof fn lemma_frames_len_prefix<H: LenHeader>(hdrs: Seq<H>, m: int)
    requires
        0 <= m <= hdrs.len(),
    ensures
        frames_len(hdrs.take(m)) <= frames_len(hdrs),
    decreases hdrs.len() - m,
{
    if m < hdrs.len() {
        lemma_frames_len_push(hdrs, m);
        lemma_frames_len_prefix(hdrs, m + 1);
    } else {
        assert(hdrs.take(m) =~= hdrs);
    }
}

/// Dropping the first frame takes its length off every prefix.
proof fn lemma_frames_len_drop_first<H: LenHeader>(hdrs: Seq<H>, m: int)
    requires
        1 <= m <= hdrs.len(),
    ensures
        frames_len(hdrs.drop_first().take(m - 1)) + H::header_size() + hdrs[0].value()
            == frames_len(hdrs.take(m)),
    decreases m,
{
    if m == 1 {
        assert(hdrs.drop_first().take(0) =~= Seq::<H>::empty());
        assert(hdrs.take(1).drop_last() =~= Seq::<H>::empty());
    } else {
        lemma_frames_len_drop_first(hdrs, m - 1);
        lemma_frames_len_push(hdrs, m - 1);
        lemma_frames_len_push(hdrs.drop_first(), m - 2);
    }
}

/// Parsed frames account for every queued byte.
proof fn lemma_frames_parse_len<H: LenHeader>(c: Seq<u8>, hdrs: Seq<H>)
    requires
        frames_parse(c, hdrs),
    ensures
        frames_len(hdrs) == c.len(),
    decreases hdrs.len(),
{
    if hdrs.len() > 0 {
        let n = H::header_size() + hdrs[0].value();
        lemma_frames_parse_len(c.skip(n as int), hdrs.drop_first());
        lemma_frames_len_drop_first(hdrs, hdrs.len() as int);
        assert(hdrs.take(hdrs.len() as int) =~= hdrs);
        assert(hdrs.drop_first().take(hdrs.len() - 1) =~= hdrs.drop_first());
    }
}

/// Appending a frame to parsed frames gives parsed frames.
proof fn lemma_frames_parse_push<H: LenHeader>(c: Seq<u8>, hdrs: Seq<H>, h: H, body: Seq<u8>)
    requires
        frames_parse(c, hdrs),
        body.len() == h.value(),
    ensures
        frames_parse(c + frame(h, body), hdrs.push(h)),
    decreases hdrs.len(),
{
    H::lemma_le_roundtrip();
    let f = frame(h, body);
    assert(hdrs.push(h).len() > 0);
    if hdrs.len() == 0 {
        assert(hdrs.push(h)[0] == h);
        assert(c + f =~= f);
        assert(hdrs.push(h).drop_first() =~= Seq::<H>::empty());
        assert(f.skip((H::header_size() + h.value()) as int) =~= Seq::<u8>::empty());
        assert(h.spec_to_le().len() == H::header_size());
        assert(f.take(H::header_size() as int) =~= h.spec_to_le());
        assert(frames_parse(f.skip((H::header_size() + h.value()) as int), hdrs.push(h).drop_first()));
        assert(frames_parse(c + f, hdrs.push(h)));
    } else {
        let n = H::header_size() + hdrs[0].value();
        lemma_frames_parse_push(c.skip(n as int), hdrs.drop_first(), h, body);
        assert((c + f).skip(n as int) =~= c.skip(n as int) + f);
        assert(hdrs.push(h).drop_first() =~= hdrs.drop_first().push(h));
        assert((c + f).take(H::header_size() as int) =~= c.take(H::header_size() as int));
        assert(hdrs.push(h)[0] == hdrs[0]);
        assert(h.spec_to_le().len() == H::header_size());
        assert(frames_parse((c + f).skip(n as int), hdrs.push(h).drop_first()));
        assert(n <= (c + f).len());
        assert((c + f).take(H::header_size() as int) == hdrs.push(h)[0].spec_to_le());
    }
}

/// Changing a byte of the first frame's body keeps the frames parsed.
proof fn lemma_frames_parse_update_first<H: LenHeader>(c: Seq<u8>, hdrs: Seq<H>, k: int, v: u8)
    requires
        frames_parse(c, hdrs),
        hdrs.len() > 0,
        H::header_size() <= k < H::header_size() + hdrs[0].value(),
    ensures
        frames_parse(c.update(k, v), hdrs),
{
    let n = H::header_size() + hdrs[0].value();
    assert(c.update(k, v).take(H::header_size() as int) =~= c.take(H::header_size() as int));
    assert(c.update(k, v).skip(n as int) =~= c.skip(n as int));
}

/// A frame is read back as it was written: stored alone, it parses as one
/// frame, its header gives back the frame's header, and the bytes after the
/// header are the frame's bytes.
pub proof fn lemma_frame_round_trip<H: LenHeader>(h: H, body: Seq<u8>)
    requires
        body.len() == h.value(),
    ensures
        frames_parse(frame(h, body), seq![h]),
        H::spec_from_le(frame(h, body).take(H::header_size() as int)) == h,
        frame(h, body).subrange(
            H::header_size() as int,
            (H::header_size() + h.value()) as int,
        ) == body,
{
    H::lemma_le_roundtrip();
    lemma_frames_parse_push(Seq::<u8>::empty(), Seq::<H>::empty(), h, body);
    assert(Seq::<u8>::empty() + frame(h, body) =~= frame(h, body));
    assert(Seq::<H>::empty().push(h) =~= seq![h]);
    assert(frame(h, body).take(H::header_size() as int) =~= h.spec_to_le());
    assert(frame(h, body).subrange(
        H::header_size() as int,
        (H::header_size() + h.value()) as int,
    ) =~= body);
}

/// A fresh queue holds no frames.
pub proof fn lemma_framed_inv_initial<H: LenHeader>()
    ensures
        framed_inv(CoordState::initial(), Seq::<u8>::empty(), Seq::<H>::empty()),
{
    assert(CoordState::initial().content() =~= Seq::<int>::empty());
}

/// Committing a frame appends it to the queued frames, and keeps them whole
/// in the ring.
proof fn lemma_framed_commit<H: LenHeader>(
    s: CoordState,
    cap: nat,
    c: Seq<u8>,
    hdrs: Seq<H>,
    glen: nat,
    h: H,
    body: Seq<u8>,
)
    requires
        s.wf(cap),
        s.write_in_progress,
        glen == s.reserve - s.grant_start(),
        H::header_size() + h.value() <= glen,
        body.len() == h.value(),
        framed_inv(s, c, hdrs),
    ensures
        framed_inv(
            s.commit_next(cap, glen, H::header_size() + h.value()),
            c + frame(h, body),
            hdrs.push(h),
        ),
{
    let used = H::header_size() + h.value();
    let n = s.commit_next(cap, glen, used);
    crate::traits::coordination::lemma_commit_appends(s, cap, glen, used);
    lemma_frames_parse_push(c, hdrs, h, body);
    lemma_frames_len_push(hdrs.push(h), hdrs.len() as int);
    assert(hdrs.push(h).take(hdrs.len() as int) =~= hdrs);
    assert(hdrs.push(h).take((hdrs.len() + 1) as int) =~= hdrs.push(h));
    if n.inverted() {
        if s.inverted() {
            let m = choose|m: int|
                0 <= m <= hdrs.len() && s.last - s.read == #[trigger] frames_len(hdrs.take(m));
            assert(hdrs.push(h).take(m) =~= hdrs.take(m));
            assert(n.last - n.read == frames_len(hdrs.push(h).take(m)));
        } else {
            assert(n.last - n.read == frames_len(hdrs.push(h).take(hdrs.len() as int)));
        }
    }
}

/// Abandoning a frame grant keeps the queued frames, whole in the ring.
proof fn lemma_framed_abort<H: LenHeader>(
    s: CoordState,
    cap: nat,
    c: Seq<u8>,
    hdrs: Seq<H>,
    glen: nat,
)
    requires
        s.wf(cap),
        s.write_in_progress,
        glen == s.reserve - s.grant_start(),
        framed_inv(s, c, hdrs),
    ensures
        framed_inv(s.commit_next(cap, glen, 0), c, hdrs),
{
    let n = s.commit_next(cap, glen, 0);
    crate::traits::coordination::lemma_commit_appends(s, cap, glen, 0);
    assert(n.content() =~= s.content());
    assert(hdrs.take(hdrs.len() as int) =~= hdrs);
    if n.inverted() {
        if s.inverted() {
            let m = choose|m: int|
                0 <= m <= hdrs.len() && s.last - s.read == #[trigger] frames_len(hdrs.take(m));
            assert(n.last - n.read == frames_len(hdrs.take(m)));
        } else {
            assert(n.last - n.read == frames_len(hdrs.take(hdrs.len() as int)));
        }
    }
}

/// A grant, or a change of the read flag alone, keeps the queued frames whole
/// in the ring.
proof fn lemma_framed_same_indices<H: LenHeader>(s: CoordState, n: CoordState, c: Seq<u8>, hdrs: Seq<H>)
    requires
        framed_inv(s, c, hdrs),
        n.write == s.write,
        n.read == s.read,
        n.last == s.last,
    ensures
        framed_inv(n, c, hdrs),
{
    assert(n.content() =~= s.content());
    if n.inverted() {
        let m = choose|m: int|
            0 <= m <= hdrs.len() && s.last - s.read == #[trigger] frames_len(hdrs.take(m));
        assert(n.last - n.read == frames_len(hdrs.take(m)));
    }
}

/// Reading, when frames are queued, finds the whole first frame in the
/// readable run, and keeps the frames whole in the ring.
proof fn lemma_framed_read_run<H: LenHeader>(s: CoordState, cap: nat, c: Seq<u8>, hdrs: Seq<H>)
    requires
        s.wf(cap),
        framed_inv(s, c, hdrs),
    ensures
        framed_inv(after_read_start(s), c, hdrs),
        hdrs.len() > 0 ==> H::header_size() + hdrs[0].value() <= after_read_start(
            s,
        ).read_avail(),
        hdrs.len() == 0 ==> after_read_start(s).read_avail() == 0,
{
    let mid = after_read_start(s);
    assert(mid.content() =~= s.content());
    if hdrs.len() > 0 {
        lemma_frames_len_push(hdrs, 0);
        assert(hdrs.take(0) =~= Seq::<H>::empty());
        if mid.inverted() {
            let m = choose|m: int|
                0 <= m <= hdrs.len() && s.last - s.read == #[trigger] frames_len(hdrs.take(m));
            if m == 0 {
                assert(frames_len(hdrs.take(0)) == 0);
            } else {
                lemma_frames_len_prefix(hdrs.take(m), 1);
                assert(hdrs.take(m).take(1) =~= hdrs.take(1));
            }
        } else {
            lemma_frames_len_prefix(hdrs, 1);
        }
    } else {
        if mid.inverted() {
            let m = choose|m: int|
                0 <= m <= hdrs.len() && s.last - s.read == #[trigger] frames_len(hdrs.take(m));
            assert(hdrs.take(m) =~= Seq::<H>::empty());
        }
    }
}

/// Releasing the whole first frame leaves the rest of the frames, whole in
/// the ring.
proof fn lemma_framed_release<H: LenHeader>(s: CoordState, cap: nat, c: Seq<u8>, hdrs: Seq<H>)
    requires
        s.wf(cap),
        s.read_in_progress,
        hdrs.len() > 0,
        H::header_size() + hdrs[0].value() <= s.read_avail(),
        framed_inv(s, c, hdrs),
    ensures
        framed_inv(
            s.release_next(H::header_size() + hdrs[0].value()),
            c.skip((H::header_size() + hdrs[0].value()) as int),
            hdrs.drop_first(),
        ),
{
    let k = H::header_size() + hdrs[0].value();
    let n = s.release_next(k);
    crate::traits::coordination::lemma_release_drops(s, cap, k);
    lemma_frames_parse_len(c.skip(k as int), hdrs.drop_first());
    H::lemma_le_roundtrip();
    lemma_frames_parse_len(c, hdrs);
    assert(frames_parse(c.skip(k as int), hdrs.drop_first()));
    if n.inverted() {
        assert(s.inverted());
        let m = choose|m: int|
            0 <= m <= hdrs.len() && s.last - s.read == #[trigger] frames_len(hdrs.take(m));
        if m == 0 {
            assert(frames_len(hdrs.take(0)) == 0) by {
                assert(hdrs.take(0) =~= Seq::<H>::empty());
            }
            assert(false);
        }
        lemma_frames_len_drop_first(hdrs, m);
        assert(n.last - n.read == frames_len(hdrs.drop_first().take(m - 1)));
    }
}

/// A producer handle that can be used to write framed chunks
pub struct FramedProducer<H> {
    pd: PhantomData<H>,
}

/// A consumer handle that can be used to read framed chunks
pub struct FramedConsumer<H> {
    pd: PhantomData<H>,
}

/// A writing grant for one frame: the header goes at `base`, the frame's
/// bytes follow it, at most `hdr` of them.
pub struct FramedGrantW<H> {
    base: usize,
    hdr: H,
}

/// A reading grant for one frame of `hdr` bytes, stored at `body`.
pub struct FramedGrantR<H> {
    body: usize,
    hdr: H,
}

impl<H: LenHeader> FramedGrantW<H> {
    /// Where the header goes in the ring.
    pub closed spec fn base(&self) -> nat {
        self.base as nat
    }

    /// The largest frame this grant can hold.
    pub closed spec fn header(&self) -> H {
        self.hdr
    }

    /// Where the frame's bytes go in the ring.
    pub open spec fn body_start(&self) -> nat {
        self.base() + H::header_size()
    }

    /// This grant is the active write grant of `bbq`.
    pub open spec fn is_grant_of<S: Storage, C: Coord, N: Notifier>(
        self,
        bbq: BBQueue<S, C, N>,
    ) -> bool {
        &&& bbq.state().write_in_progress
        &&& self.base() == bbq.state().grant_start()
        &&& self.body_start() + self.header().value() == bbq.state().reserve
    }
}

impl<H: LenHeader> FramedGrantR<H> {
    /// Where the frame's bytes are in the ring.
    pub closed spec fn body_start(&self) -> nat {
        self.body as nat
    }

    /// The header of the frame.
    pub closed spec fn header(&self) -> H {
        self.hdr
    }

    /// This grant is the active read grant of `bbq`.
    pub open spec fn is_grant_of<S: Storage, C: Coord, N: Notifier>(
        self,
        bbq: BBQueue<S, C, N>,
    ) -> bool {
        &&& bbq.state().read_in_progress
        &&& self.body_start() == bbq.state().read + H::header_size()
        &&& H::header_size() + self.header().value() <= bbq.state().read_avail()
    }
}

/// The state of the reader after `read` moved it, before any grant is taken.
pub open spec fn after_read_start(s: CoordState) -> CoordState {
    CoordState { read: s.read_start() as usize, ..s }
}

impl<H: LenHeader> FramedProducer<H> {
    /// A producer of frames whose headers are of type `H`; the queue's
    /// `framed_producer` gives one with `u16` headers.
    pub fn new() -> Self {
        FramedProducer { pd: PhantomData }
    }

    /// Attempt to obtain a write grant for a frame of up to `sz` bytes.
    ///
    /// The grant reserves room for the header and `sz` bytes, in one piece. A
    /// smaller frame may be committed; giving the grant up with `abort` makes
    /// no data visible to the consumer.
    pub fn grant<S: Storage, C: Coord, N: Notifier>(&self, bbq: &mut BBQueue<S, C, N>, sz: H) -> (r:
        Result<FramedGrantW<H>, WriteGrantError>)
        requires
            old(bbq).wf(),
            sz.value() + H::header_size() <= usize::MAX,
        ensures
            final(bbq).wakes() == old(bbq).wakes(),
            final(bbq).wf(),
            final(bbq).bytes() == old(bbq).bytes(),
            final(bbq).contents() == old(bbq).contents(),
            match r {
                Ok(g) => {
                    &&& CoordState::grant_exact_post(
                        old(bbq).state(),
                        final(bbq).state(),
                        old(bbq).bytes().len(),
                        sz.value() + H::header_size(),
                        Ok(g.base() as usize),
                    )
                    &&& g.header() == sz
                    &&& g.is_grant_of(*final(bbq))
                },
                Err(e) => CoordState::grant_exact_post(
                    old(bbq).state(),
                    final(bbq).state(),
                    old(bbq).bytes().len(),
                    sz.value() + H::header_size(),
                    Err(e),
                ),
            },
            forall|hdrs: Seq<H>|
                #[trigger] framed_inv(old(bbq).state(), old(bbq).contents(), hdrs) ==> framed_inv(
                    final(bbq).state(),
                    final(bbq).contents(),
                    hdrs,
                ),
    {
        let needed = sz.into_usize() + H::size();
        let r = bbq.coord_grant_exact(needed);
        proof {
            assert forall|hdrs: Seq<H>|
                #[trigger] framed_inv(old(bbq).state(), old(bbq).contents(), hdrs) implies framed_inv(
                bbq.state(),
                bbq.contents(),
                hdrs,
            ) by {
                lemma_framed_same_indices(old(bbq).state(), bbq.state(), bbq.contents(), hdrs);
            }
        }
        match r {
            Ok(base) => Ok(FramedGrantW { base, hdr: sz }),
            Err(e) => Err(e),
        }
    }
}

impl<H: LenHeader> FramedConsumer<H> {
    /// A consumer of frames whose headers are of type `H`; the queue's
    /// `framed_consumer` gives one with `u16` headers.
    pub fn new() -> Self {
        FramedConsumer { pd: PhantomData }
    }

    /// Attempt to receive a single frame
    ///
    /// The consumer sees the frame as the producer committed it. When the
    /// readable bytes are too few for a header, or for the length the header
    /// claims (which only happens when a stream producer fed this queue), the
    /// read grant is given back and `InconsistentFrameHeader` is returned.
    pub fn read<S: Storage, C: Coord, N: Notifier>(&self, bbq: &mut BBQueue<S, C, N>) -> (r:
        Result<FramedGrantR<H>, ReadGrantError>)
        requires
            old(bbq).wf(),
        ensures
            final(bbq).wakes() == old(bbq).wakes(),
            final(bbq).wf(),
            final(bbq).bytes() == old(bbq).bytes(),
            final(bbq).contents() == old(bbq).contents(),
            ({
                let mid = after_read_start(old(bbq).state());
                let run = mid.read_avail();
                let hs = H::header_size();
                match r {
                    Ok(g) => {
                        &&& !old(bbq).state().read_in_progress
                        &&& hs <= run
                        &&& g.header() == H::spec_from_le(old(bbq).contents().take(hs as int))
                        &&& hs + g.header().value() <= run
                        &&& hs + g.header().value() <= old(bbq).contents().len()
                        &&& final(bbq).state() == CoordState { read_in_progress: true, ..mid }
                        &&& g.is_grant_of(*final(bbq))
                    },
                    Err(ReadGrantError::InconsistentFrameHeader) => {
                        &&& !old(bbq).state().read_in_progress
                        &&& run > 0
                        &&& (run < hs || hs + H::spec_from_le(
                            old(bbq).contents().take(hs as int),
                        ).value() > run)
                        &&& final(bbq).state() == mid
                    },
                    Err(e) => CoordState::read_post(old(bbq).state(), final(bbq).state(), Err(e))
                        && (e == ReadGrantError::Empty ==> old(bbq).contents().len() == 0),
                }
            }),
            forall|hdrs: Seq<H>|
                #[trigger] framed_inv(old(bbq).state(), old(bbq).contents(), hdrs) ==> {
                    &&& framed_inv(final(bbq).state(), final(bbq).contents(), hdrs)
                    &&& (!old(bbq).state().read_in_progress && hdrs.len() > 0) ==> r is Ok
                        && r->Ok_0.header() == hdrs[0]
                    &&& (!old(bbq).state().read_in_progress && hdrs.len() == 0) ==> r
                        == Err::<FramedGrantR<H>, ReadGrantError>(ReadGrantError::Empty)
                },
    {
        let cap = bbq.capacity();
        proof {
            H::lemma_le_roundtrip();
            assert forall|hdrs: Seq<H>|
                #[trigger] framed_inv(old(bbq).state(), old(bbq).contents(), hdrs) implies ({
                    &&& framed_inv(after_read_start(old(bbq).state()), old(bbq).contents(), hdrs)
                    &&& hdrs.len() > 0 ==> H::header_size() + hdrs[0].value() <= after_read_start(
                        old(bbq).state(),
                    ).read_avail() && H::spec_from_le(
                        old(bbq).contents().take(H::header_size() as int),
                    ) == hdrs[0]
                    &&& hdrs.len() == 0 ==> after_read_start(old(bbq).state()).read_avail() == 0
                }) by {
                lemma_framed_read_run(old(bbq).state(), cap as nat, old(bbq).contents(), hdrs);
            }
        }
        let (offset, grant_len) = match bbq.coord_read() {
            Ok(x) => x,
            Err(e) => {
                proof {
                    assert forall|hdrs: Seq<H>|
                        #[trigger] framed_inv(old(bbq).state(), old(bbq).contents(), hdrs) implies framed_inv(
                        bbq.state(),
                        bbq.contents(),
                        hdrs,
                    ) by {
                        if old(bbq).state().read_in_progress {
                            lemma_framed_same_indices(
                                old(bbq).state(),
                                bbq.state(),
                                bbq.contents(),
                                hdrs,
                            );
                        } else {
                            lemma_framed_same_indices(
                                after_read_start(old(bbq).state()),
                                bbq.state(),
                                bbq.contents(),
                                hdrs,
                            );
                        }
                    }
                }
                return Err(e);
            },
        };
        let hdr_sz = H::size();
        if hdr_sz > grant_len {
            bbq.coord_release(0);
            proof {
                assert forall|hdrs: Seq<H>|
                    #[trigger] framed_inv(old(bbq).state(), old(bbq).contents(), hdrs) implies framed_inv(
                    bbq.state(),
                    bbq.contents(),
                    hdrs,
                ) by {
                    lemma_framed_same_indices(
                        after_read_start(old(bbq).state()),
                        bbq.state(),
                        bbq.contents(),
                        hdrs,
                    );
                }
            }
            return Err(ReadGrantError::InconsistentFrameHeader);
        }
        let hdr_bytes = bbq.copy_out(offset, hdr_sz);
        let hdr = H::from_le_bytes(hdr_bytes.as_slice());
        proof {
            H::lemma_le_roundtrip();
            lemma_front_run(bbq.state(), bbq.bytes().len(), hdr_sz as nat);
            assert(old(bbq).contents().take(hdr_sz as int) =~= bbq.bytes().subrange(
                offset as int,
                offset + hdr_sz,
            ));
        }
        if hdr.into_usize() > grant_len - hdr_sz {
            bbq.coord_release(0);
            proof {
                assert forall|hdrs: Seq<H>|
                    #[trigger] framed_inv(old(bbq).state(), old(bbq).contents(), hdrs) implies framed_inv(
                    bbq.state(),
                    bbq.contents(),
                    hdrs,
                ) by {
                    lemma_framed_same_indices(
                        after_read_start(old(bbq).state()),
                        bbq.state(),
                        bbq.contents(),
                        hdrs,
                    );
                }
            }
            return Err(ReadGrantError::InconsistentFrameHeader);
        }
        proof {
            assert forall|hdrs: Seq<H>|
                #[trigger] framed_inv(old(bbq).state(), old(bbq).contents(), hdrs) implies framed_inv(
                bbq.state(),
                bbq.contents(),
                hdrs,
            ) by {
                lemma_framed_same_indices(
                    after_read_start(old(bbq).state()),
                    bbq.state(),
                    bbq.contents(),
                    hdrs,
                );
            }
        }
        Ok(FramedGrantR { body: offset + hdr_sz, hdr })
    }
}

impl<H: LenHeader> FramedGrantW<H> {
    /// The largest number of bytes the frame can hold.
    pub fn len(&self) -> (n: usize)
        ensures
            n == self.header().value(),
    {
        self.hdr.into_usize()
    }

    /// Write `v` at index `i` of the frame. The queued bytes are kept.
    pub fn set<S: Storage, C: Coord, N: Notifier>(
        &self,
        bbq: &mut BBQueue<S, C, N>,
        i: usize,
        v: u8,
    )
        requires
            old(bbq).wf(),
            self.is_grant_of(*old(bbq)),
            i < self.header().value(),
        ensures
            final(bbq).wakes() == old(bbq).wakes(),
            final(bbq).wf(),
            final(bbq).state() == old(bbq).state(),
            final(bbq).bytes() == old(bbq).bytes().update(self.body_start() + i, v),
            final(bbq).contents() == old(bbq).contents(),
    {
        bbq.write_reserved(self.base + H::size() + i, v);
    }

    /// Copy `src` into the start of the frame.
    pub fn copy_from_slice<S: Storage, C: Coord, N: Notifier>(
        &self,
        bbq: &mut BBQueue<S, C, N>,
        src: &[u8],
    )
        requires
            old(bbq).wf(),
            self.is_grant_of(*old(bbq)),
            src@.len() <= self.header().value(),
        ensures
            final(bbq).wakes() == old(bbq).wakes(),
            final(bbq).wf(),
            final(bbq).state() == old(bbq).state(),
            final(bbq).bytes().len() == old(bbq).bytes().len(),
            final(bbq).bytes().subrange(
                self.body_start() as int,
                (self.body_start() + src@.len()) as int,
            ) == src@,
            forall|j: int|
                0 <= j < old(bbq).bytes().len() && !(self.body_start() <= j < self.body_start()
                    + src@.len()) ==> final(bbq).bytes()[j] == old(bbq).bytes()[j],
            final(bbq).contents() == old(bbq).contents(),
    {
        bbq.write_reserved_slice(self.base + H::size(), src);
    }

    /// Commit `used` bytes of the frame (at most the size granted): the frame
    /// is appended to the queue, with a header that holds its length.
    pub fn commit<S: Storage, C: Coord, N: Notifier>(self, bbq: &mut BBQueue<S, C, N>, used: H)
        requires
            old(bbq).wf(),
            self.is_grant_of(*old(bbq)),
        ensures
            final(bbq).wakes() == (old(bbq).wakes().0 + 1, old(bbq).wakes().1),
            final(bbq).wf(),
            final(bbq).contents() == old(bbq).contents() + frame(
                clamped(self.header(), used),
                old(bbq).bytes().subrange(
                    self.body_start() as int,
                    (self.body_start() + clamped(self.header(), used).value()) as int,
                ),
            ),
            final(bbq).state() == old(bbq).state().commit_next(
                old(bbq).bytes().len(),
                H::header_size() + self.header().value(),
                H::header_size() + clamped(self.header(), used).value(),
            ),
            forall|hdrs: Seq<H>|
                #[trigger] framed_inv(old(bbq).state(), old(bbq).contents(), hdrs) ==> framed_inv(
                    final(bbq).state(),
                    final(bbq).contents(),
                    hdrs.push(clamped(self.header(), used)),
                ),
    {
        let hdrlen = H::size();
        let grant_len = hdrlen + self.hdr.into_usize();
        let clamp_hdr = self.hdr.min(used);
        let used_len = hdrlen + clamp_hdr.into_usize();
        let hdr_bytes = clamp_hdr.to_le_bytes();
        proof {
            H::lemma_le_roundtrip();
        }
        let ghost before = bbq.bytes();
        bbq.write_reserved_slice(self.base, hdr_bytes.as_slice());
        proof {
            let b = self.base as int;
            let v = clamp_hdr.value() as int;
            let hs = hdrlen as int;
            assert(bbq.bytes().subrange(b, b + hs + v) =~= frame(
                clamp_hdr,
                before.subrange(b + hs, b + hs + v),
            ));
        }
        let ghost mid = bbq.state();
        let ghost c0 = bbq.contents();
        bbq.coord_commit(grant_len, used_len);
        proof {
            let b = self.base as int;
            let v = clamp_hdr.value() as int;
            let hs = hdrlen as int;
            assert forall|hdrs: Seq<H>|
                #[trigger] framed_inv(old(bbq).state(), old(bbq).contents(), hdrs) implies framed_inv(
                bbq.state(),
                bbq.contents(),
                hdrs.push(clamp_hdr),
            ) by {
                lemma_framed_commit(
                    mid,
                    bbq.bytes().len(),
                    c0,
                    hdrs,
                    grant_len as nat,
                    clamp_hdr,
                    before.subrange(b + hs, b + hs + v),
                );
            }
        }
        bbq.wake_consumer();
    }

    /// Aborts the grant, making no frame available to the consumer
    pub fn abort<S: Storage, C: Coord, N: Notifier>(self, bbq: &mut BBQueue<S, C, N>)
        requires
            old(bbq).wf(),
            self.is_grant_of(*old(bbq)),
        ensures
            final(bbq).wakes() == old(bbq).wakes(),
            final(bbq).wf(),
            final(bbq).bytes() == old(bbq).bytes(),
            final(bbq).contents() == old(bbq).contents(),
            final(bbq).state() == old(bbq).state().commit_next(
                old(bbq).bytes().len(),
                H::header_size() + self.header().value(),
                0,
            ),
            forall|hdrs: Seq<H>|
                #[trigger] framed_inv(old(bbq).state(), old(bbq).contents(), hdrs) ==> framed_inv(
                    final(bbq).state(),
                    final(bbq).contents(),
                    hdrs,
                ),
    {
        let grant_len = H::size() + self.hdr.into_usize();
        bbq.coord_commit(grant_len, 0);
        proof {
            assert(old(bbq).bytes().subrange(
                old(bbq).state().grant_start() as int,
                old(bbq).state().grant_start() as int,
            ) =~= Seq::<u8>::empty());
            assert(old(bbq).contents() + Seq::<u8>::empty() =~= old(bbq).contents());
            assert forall|hdrs: Seq<H>|
                #[trigger] framed_inv(old(bbq).state(), old(bbq).contents(), hdrs) implies framed_inv(
                bbq.state(),
                bbq.contents(),
                hdrs,
            ) by {
                lemma_framed_abort(
                    old(bbq).state(),
                    bbq.bytes().len(),
                    old(bbq).contents(),
                    hdrs,
                    grant_len as nat,
                );
            }
        }
    }
}

impl<H: LenHeader> FramedGrantR<H> {
    /// The number of bytes in the frame.
    pub fn len(&self) -> (n: usize)
        ensures
            n == self.header().value(),
    {
        self.hdr.into_usize()
    }

    /// Overwrite the byte at index `i` of the frame, in place: the queued
    /// byte changes, and the frames stay whole.
    pub fn set<S: Storage, C: Coord, N: Notifier>(
        &self,
        bbq: &mut BBQueue<S, C, N>,
        i: usize,
        v: u8,
    )
        requires
            old(bbq).wf(),
            self.is_grant_of(*old(bbq)),
            i < self.header().value(),
        ensures
            final(bbq).wakes() == old(bbq).wakes(),
            final(bbq).wf(),
            final(bbq).state() == old(bbq).state(),
            final(bbq).bytes() == old(bbq).bytes().update(self.body_start() + i, v),
            final(bbq).contents() == old(bbq).contents().update(H::header_size() + i, v),
            forall|hdrs: Seq<H>|
                #[trigger] framed_inv(old(bbq).state(), old(bbq).contents(), hdrs) && hdrs.len() > 0
                    && hdrs[0] == self.header() ==> framed_inv(
                    final(bbq).state(),
                    final(bbq).contents(),
                    hdrs,
                ),
    {
        proof {
            let hs = H::header_size();
            let n = hs + self.header().value();
            lemma_front_run(bbq.state(), bbq.bytes().len(), n);
            assert(bbq.state().content().take(n as int)[hs + i] == bbq.state().content()[hs + i]);
        }
        let k = H::size() + i;
        bbq.write_queued(k, self.body + i, v);
        proof {
            assert forall|hdrs: Seq<H>|
                #[trigger] framed_inv(old(bbq).state(), old(bbq).contents(), hdrs) && hdrs.len() > 0
                    && hdrs[0] == self.header() implies framed_inv(
                bbq.state(),
                bbq.contents(),
                hdrs,
            ) by {
                lemma_frames_parse_update_first(old(bbq).contents(), hdrs, k as int, v);
            }
        }
    }

    /// The bytes of the frame.
    pub fn to_vec<S: Storage, C: Coord, N: Notifier>(&self, bbq: &BBQueue<S, C, N>) -> (v: Vec<u8>)
        requires
            bbq.wf(),
            self.is_grant_of(*bbq),
        ensures
            v@ == bbq.contents().subrange(
                H::header_size() as int,
                (H::header_size() + self.header().value()) as int,
            ),
    {
        proof {
            let hs = H::header_size();
            let n = hs + self.header().value();
            lemma_front_run(bbq.state(), bbq.bytes().len(), n);
            assert(bbq.contents().subrange(hs as int, n as int) =~= bbq.contents().take(
                n as int,
            ).subrange(hs as int, n as int));
            assert(bbq.contents().subrange(hs as int, n as int) =~= bbq.bytes().subrange(
                self.body as int,
                self.body + self.header().value(),
            ));
        }
        bbq.copy_out(self.body, self.hdr.into_usize())
    }

    /// Release the entire frame: it leaves the queue.
    ///
    /// It is not possible to partially release a framed read grant.
    pub fn release<S: Storage, C: Coord, N: Notifier>(self, bbq: &mut BBQueue<S, C, N>)
        requires
            old(bbq).wf(),
            self.is_grant_of(*old(bbq)),
        ensures
            final(bbq).wakes() == (old(bbq).wakes().0, old(bbq).wakes().1 + 1),
            final(bbq).wf(),
            final(bbq).bytes() == old(bbq).bytes(),
            final(bbq).state() == old(bbq).state().release_next(
                H::header_size() + self.header().value(),
            ),
            final(bbq).contents() == old(bbq).contents().skip(
                (H::header_size() + self.header().value()) as int,
            ),
            forall|hdrs: Seq<H>|
                #[trigger] framed_inv(old(bbq).state(), old(bbq).contents(), hdrs) && hdrs.len() > 0
                    && hdrs[0] == self.header() ==> framed_inv(
                    final(bbq).state(),
                    final(bbq).contents(),
                    hdrs.drop_first(),
                ),
    {
        let used = self.hdr.into_usize() + H::size();
        bbq.coord_release(used);
        proof {
            assert forall|hdrs: Seq<H>|
                #[trigger] framed_inv(old(bbq).state(), old(bbq).contents(), hdrs) && hdrs.len() > 0
                    && hdrs[0] == self.header() implies framed_inv(
                bbq.state(),
                bbq.contents(),
                hdrs.drop_first(),
            ) by {
                lemma_framed_release(
                    old(bbq).state(),
                    bbq.bytes().len(),
                    old(bbq).contents(),
                    hdrs,
                );
            }
        }
        bbq.wake_producer();
    }

    /// Give the grant up WITHOUT releasing the frame from the queue.
    ///
    /// The next call to read will observe the same frame again.
    pub fn keep<S: Storage, C: Coord, N: Notifier>(self, bbq: &mut BBQueue<S, C, N>)
        requires
            old(bbq).wf(),
            self.is_grant_of(*old(bbq)),
        ensures
            final(bbq).wakes() == old(bbq).wakes(),
            final(bbq).wf(),
            final(bbq).bytes() == old(bbq).bytes(),
            final(bbq).state() == old(bbq).state().release_next(0),
            final(bbq).contents() == old(bbq).contents(),
            forall|hdrs: Seq<H>|
                #[trigger] framed_inv(old(bbq).state(), old(bbq).contents(), hdrs) ==> framed_inv(
                    final(bbq).state(),
                    final(bbq).contents(),
                    hdrs,
                ),
    {
        bbq.coord_release(0);
        proof {
            assert forall|hdrs: Seq<H>|
                #[trigger] framed_inv(old(bbq).state(), old(bbq).contents(), hdrs) implies framed_inv(
                bbq.state(),
                bbq.contents(),
                hdrs,
            ) by {
                lemma_framed_same_indices(old(bbq).state(), bbq.state(), bbq.contents(), hdrs);
            }
        }
    }
}

} // verus!
