//! A Framed flavor of the classic buffer, useful for variable length packets
//!
//! Each frame is stored as a variable sized integer header, holding the
//! frame's length, followed by the frame's bytes. The size of the header is
//! chosen from the size requested for the grant (see [`crate::vusize`]), and
//! is kept when a smaller frame is committed. A frame never wraps around the
//! end of the ring, so the consumer always finds a whole frame in one piece.
use super::{read_error, write_error, BBBuffer, Consumer, Error, GrantR, GrantW, Producer};
use crate::traits::coordination::{
    lemma_commit_appends, lemma_release_drops, min_nat, CoordState, ReadGrantError,
    WriteGrantError,
};
use crate::vusize::{
    decode_usize, decoded_len, encode_usize_to_slice, encoded_len, fits_in,
    lemma_usize_bytes, lemma_vusize_roundtrip, spec_decode, spec_decoded_len, spec_encode,
    spec_encoded_len, usize_bytes,
};
use vstd::prelude::*;

verus! {

/// A stored frame, as its header length and its frame length.
pub type FrameShape = (nat, nat);

/// The number of bytes a stored frame takes: its header, then its bytes.
pub open spec fn frame_size(f: FrameShape) -> nat {
    f.0 + f.1
}

/// The frame length can be written with a header of the given length.
pub open spec fn shape_ok(f: FrameShape) -> bool {
    f.1 <= usize::MAX && fits_in(f.1 as usize, f.0)
}

/// A frame as it is stored: the encoded length, then the frame's bytes.
pub open spec fn vframe(hdr_len: nat, body: Seq<u8>) -> Seq<u8> {
    spec_encode(body.len() as usize, hdr_len) + body
}

/// The number of bytes that the frames `fs` take in the ring.
pub open spec fn vframes_len(fs: Seq<FrameShape>) -> nat
    decreases fs.len(),
{
    if fs.len() == 0 {
        0
    } else {
        vframes_len(fs.drop_last()) + frame_size(fs.last())
    }
}

/// `c` is a sequence of whole frames, whose shapes are `fs`.
pub open spec fn vframes_parse(c: Seq<u8>, fs: Seq<FrameShape>) -> bool
    decreases fs.len(),
{
    if fs.len() == 0 {
        c.len() == 0
    } else {
        let n = frame_size(fs[0]);
        &&& shape_ok(fs[0])
        &&& n <= c.len()
        &&& c.take(fs[0].0 as int) == spec_encode(fs[0].1 as usize, fs[0].0)
        &&& vframes_parse(c.skip(n as int), fs.drop_first())
    }
}

/// The queued frames lie whole in the ring: when the writer has wrapped
/// around, the end of the ring holds a whole number of them.
pub open spec fn vframes_aligned(s: CoordState, fs: Seq<FrameShape>) -> bool {
    &&& vframes_len(fs) == s.content().len()
    &&& s.inverted() ==> exists|m: int|
        0 <= m <= fs.len() && s.last - s.read == #[trigger] vframes_len(fs.take(m))
}

/// The buffer holds the frames `fs`, as a frame producer committed them.
pub open spec fn vframed_inv(s: CoordState, c: Seq<u8>, fs: Seq<FrameShape>) -> bool {
    vframes_parse(c, fs) && vframes_aligned(s, fs)
}

/// The state of the reader after `read` moved it, before any grant is taken.
pub open spec fn moved_reader(s: CoordState) -> CoordState {
    CoordState { read: s.read_start() as usize, ..s }
}

/// A length that fits a header length still fits it when it is smaller.
proof fn lemma_fits_in_smaller(v: usize, w: usize, length: nat)
    requires
        fits_in(v, length),
        w <= v,
    ensures
        fits_in(w, length),
{
}

/// A header never takes more than the bytes of a `usize` and one more.
proof fn lemma_fits_in_bound(v: usize, length: nat)
    requires
        fits_in(v, length),
    ensures
        1 <= length <= usize_bytes() + 1,
{
}

/// Frame lengths add up over a prefix and the frame that follows it.
proof fn lemma_vframes_len_push(fs: Seq<FrameShape>, m: int)
    requires
        0 <= m < fs.len(),
    ensures
        vframes_len(fs.take(m + 1)) == vframes_len(fs.take(m)) + frame_size(fs[m]),
{
    assert(fs.take(m + 1).drop_last() =~= fs.take(m));
}

/// Frame lengths of a prefix never exceed those of the whole.
proof fn lemma_vframes_len_prefix(fs: Seq<FrameShape>, m: int)
    requires
        0 <= m <= fs.len(),
    ensures
        vframes_len(fs.take(m)) <= vframes_len(fs),
    decreases fs.len() - m,
{
    if m < fs.len() {
        lemma_vframes_len_push(fs, m);
        lemma_vframes_len_prefix(fs, m + 1);
    } else {
        assert(fs.take(m) =~= fs);
    }
}

/// Dropping the first frame takes its size off every prefix.
proof fn lemma_vframes_len_drop_first(fs: Seq<FrameShape>, m: int)
    requires
        1 <= m <= fs.len(),
    ensures
        vframes_len(fs.drop_first().take(m - 1)) + frame_size(fs[0]) == vframes_len(fs.take(m)),
    decreases m,
{
    if m == 1 {
        assert(fs.drop_first().take(0) =~= Seq::<FrameShape>::empty());
        assert(fs.take(1).drop_last() =~= Seq::<FrameShape>::empty());
    } else {
        lemma_vframes_len_drop_first(fs, m - 1);
        lemma_vframes_len_push(fs, m - 1);
        lemma_vframes_len_push(fs.drop_first(), m - 2);
    }
}

/// Parsed frames account for every queued byte.
proof fn lemma_vframes_parse_len(c: Seq<u8>, fs: Seq<FrameShape>)
    requires
        vframes_parse(c, fs),
    ensures
        vframes_len(fs) == c.len(),
    decreases fs.len(),
{
    if fs.len() > 0 {
        let n = frame_size(fs[0]);
        lemma_vframes_parse_len(c.skip(n as int), fs.drop_first());
        lemma_vframes_len_drop_first(fs, fs.len() as int);
        assert(fs.take(fs.len() as int) =~= fs);
        assert(fs.drop_first().take(fs.len() - 1) =~= fs.drop_first());
    }
}

/// Appending a frame to parsed frames gives parsed frames.
proof fn lemma_vframes_parse_push(c: Seq<u8>, fs: Seq<FrameShape>, hl: nat, body: Seq<u8>)
    requires
        vframes_parse(c, fs),
        shape_ok((hl, body.len())),
    ensures
        vframes_parse(c + vframe(hl, body), fs.push((hl, body.len()))),
    decreases fs.len(),
{
    let f = vframe(hl, body);
    let sh: FrameShape = (hl, body.len());
    lemma_vusize_roundtrip(body.len() as usize, hl, body);
    assert(fs.push(sh).len() > 0);
    if fs.len() == 0 {
        assert(fs.push(sh)[0] == sh);
        assert(c + f =~= f);
        assert(fs.push(sh).drop_first() =~= Seq::<FrameShape>::empty());
        assert(f.skip(frame_size(sh) as int) =~= Seq::<u8>::empty());
        assert(f.take(hl as int) =~= spec_encode(body.len() as usize, hl));
        assert(vframes_parse(f.skip(frame_size(sh) as int), fs.push(sh).drop_first()));
        assert(vframes_parse(c + f, fs.push(sh)));
    } else {
        let n = frame_size(fs[0]);
        lemma_vframes_parse_push(c.skip(n as int), fs.drop_first(), hl, body);
        assert((c + f).skip(n as int) =~= c.skip(n as int) + f);
        assert(fs.push(sh).drop_first() =~= fs.drop_first().push(sh));
        assert((c + f).take(fs[0].0 as int) =~= c.take(fs[0].0 as int));
        assert(fs.push(sh)[0] == fs[0]);
        assert(vframes_parse((c + f).skip(n as int), fs.push(sh).drop_first()));
        assert(n <= (c + f).len());
    }
}

/// Changing a byte of the first frame's body keeps the frames parsed.
proof fn lemma_vframes_parse_update_first(c: Seq<u8>, fs: Seq<FrameShape>, k: int, v: u8)
    requires
        vframes_parse(c, fs),
        fs.len() > 0,
        fs[0].0 <= k < frame_size(fs[0]),
    ensures
        vframes_parse(c.update(k, v), fs),
{
    let n = frame_size(fs[0]);
    assert(c.update(k, v).take(fs[0].0 as int) =~= c.take(fs[0].0 as int));
    assert(c.update(k, v).skip(n as int) =~= c.skip(n as int));
}

/// A frame is read back as it was written: stored alone, it parses as one
/// frame, its first byte gives back the header's length, its header gives
/// back the frame's length, and the bytes after the header are the frame's
/// bytes.
pub proof fn lemma_vframe_round_trip(hl: nat, body: Seq<u8>)
    requires
        shape_ok((hl, body.len())),
    ensures
        vframes_parse(vframe(hl, body), seq![(hl, body.len())]),
        spec_decoded_len(vframe(hl, body)[0]) == hl,
        spec_decode(vframe(hl, body)) == body.len(),
        vframe(hl, body).subrange(hl as int, (hl + body.len()) as int) == body,
{
    lemma_vframes_parse_push(Seq::<u8>::empty(), Seq::<FrameShape>::empty(), hl, body);
    assert(Seq::<u8>::empty() + vframe(hl, body) =~= vframe(hl, body));
    assert(Seq::<FrameShape>::empty().push((hl, body.len())) =~= seq![(hl, body.len())]);
    lemma_vusize_roundtrip(body.len() as usize, hl, body);
    assert(vframe(hl, body).subrange(hl as int, (hl + body.len()) as int) =~= body);
}

/// A fresh buffer holds no frames.
pub proof fn lemma_vframed_inv_initial()
    ensures
        vframed_inv(CoordState::initial(), Seq::<u8>::empty(), Seq::<FrameShape>::empty()),
{
    assert(CoordState::initial().content() =~= Seq::<int>::empty());
}

/// Committing a frame appends it to the queued frames, and keeps them whole
/// in the ring.
proof fn lemma_vframed_commit(
    s: CoordState,
    cap: nat,
    c: Seq<u8>,
    fs: Seq<FrameShape>,
    glen: nat,
    hl: nat,
    body: Seq<u8>,
)
    requires
        s.wf(cap),
        s.write_in_progress,
        glen == s.reserve - s.grant_start(),
        hl + body.len() <= glen,
        shape_ok((hl, body.len())),
        vframed_inv(s, c, fs),
    ensures
        vframed_inv(
            s.commit_next(cap, glen, hl + body.len()),
            c + vframe(hl, body),
            fs.push((hl, body.len())),
        ),
{
    let sh: FrameShape = (hl, body.len());
    let used = hl + body.len();
    let n = s.commit_next(cap, glen, used);
    lemma_commit_appends(s, cap, glen, used);
    lemma_vframes_parse_push(c, fs, hl, body);
    lemma_vframes_len_push(fs.push(sh), fs.len() as int);
    assert(fs.push(sh).take(fs.len() as int) =~= fs);
    assert(fs.push(sh).take((fs.len() + 1) as int) =~= fs.push(sh));
    if n.inverted() {
        if s.inverted() {
            let m = choose|m: int|
                0 <= m <= fs.len() && s.last - s.read == #[trigger] vframes_len(fs.take(m));
            assert(fs.push(sh).take(m) =~= fs.take(m));
            assert(n.last - n.read == vframes_len(fs.push(sh).take(m)));
        } else {
            assert(n.last - n.read == vframes_len(fs.push(sh).take(fs.len() as int)));
        }
    }
}

/// Giving a frame grant up keeps the queued frames, whole in the ring.
proof fn lemma_vframed_abort(s: CoordState, cap: nat, c: Seq<u8>, fs: Seq<FrameShape>, glen: nat)
    requires
        s.wf(cap),
        s.write_in_progress,
        glen == s.reserve - s.grant_start(),
        vframed_inv(s, c, fs),
    ensures
        vframed_inv(s.commit_next(cap, glen, 0), c, fs),
{
    let n = s.commit_next(cap, glen, 0);
    lemma_commit_appends(s, cap, glen, 0);
    assert(n.content() =~= s.content());
    assert(fs.take(fs.len() as int) =~= fs);
    if n.inverted() {
        if s.inverted() {
            let m = choose|m: int|
                0 <= m <= fs.len() && s.last - s.read == #[trigger] vframes_len(fs.take(m));
            assert(n.last - n.read == vframes_len(fs.take(m)));
        } else {
            assert(n.last - n.read == vframes_len(fs.take(fs.len() as int)));
        }
    }
}

/// A grant, or a change of the read flag alone, keeps the queued frames whole
/// in the ring.
proof fn lemma_vframed_same_indices(s: CoordState, n: CoordState, c: Seq<u8>, fs: Seq<FrameShape>)
    requires
        vframed_inv(s, c, fs),
        n.write == s.write,
        n.read == s.read,
        n.last == s.last,
    ensures
        vframed_inv(n, c, fs),
{
    assert(n.content() =~= s.content());
    if n.inverted() {
        let m = choose|m: int|
            0 <= m <= fs.len() && s.last - s.read == #[trigger] vframes_len(fs.take(m));
        assert(n.last - n.read == vframes_len(fs.take(m)));
    }
}

/// Moving the reader to where a read starts keeps the frames whole in the
/// ring; when frames are queued, the whole first frame lies in the readable
/// run there, and its header is at the front of the queued bytes.
proof fn lemma_vframed_read_run(s: CoordState, cap: nat, c: Seq<u8>, fs: Seq<FrameShape>)
    requires
        s.wf(cap),
        vframed_inv(s, c, fs),
    ensures
        vframed_inv(moved_reader(s), c, fs),
        fs.len() > 0 ==> {
            &&& frame_size(fs[0]) <= moved_reader(s).read_avail()
            &&& shape_ok(fs[0])
            &&& c.take(fs[0].0 as int) == spec_encode(fs[0].1 as usize, fs[0].0)
        },
        fs.len() == 0 ==> moved_reader(s).read_avail() == 0 && c.len() == 0,
{
    let mid = moved_reader(s);
    assert(mid.content() =~= s.content());
    lemma_vframes_parse_len(c, fs);
    if fs.len() > 0 {
        lemma_vframes_len_push(fs, 0);
        assert(fs.take(0) =~= Seq::<FrameShape>::empty());
        if mid.inverted() {
            let m = choose|m: int|
                0 <= m <= fs.len() && s.last - s.read == #[trigger] vframes_len(fs.take(m));
            if m == 0 {
                assert(vframes_len(fs.take(0)) == 0);
            } else {
                lemma_vframes_len_prefix(fs.take(m), 1);
                assert(fs.take(m).take(1) =~= fs.take(1));
            }
        } else {
            lemma_vframes_len_prefix(fs, 1);
        }
    } else {
        if mid.inverted() {
            let m = choose|m: int|
                0 <= m <= fs.len() && s.last - s.read == #[trigger] vframes_len(fs.take(m));
            assert(fs.take(m) =~= Seq::<FrameShape>::empty());
        }
    }
}

/// Releasing the whole first frame leaves the rest of the frames, whole in
/// the ring.
proof fn lemma_vframed_release(s: CoordState, cap: nat, c: Seq<u8>, fs: Seq<FrameShape>)
    requires
        s.wf(cap),
        s.read_in_progress,
        fs.len() > 0,
        frame_size(fs[0]) <= s.read_avail(),
        vframed_inv(s, c, fs),
    ensures
        vframed_inv(
            s.release_next(frame_size(fs[0])),
            c.skip(frame_size(fs[0]) as int),
            fs.drop_first(),
        ),
{
    let k = frame_size(fs[0]);
    let n = s.release_next(k);
    lemma_release_drops(s, cap, k);
    lemma_vframes_parse_len(c.skip(k as int), fs.drop_first());
    lemma_vframes_parse_len(c, fs);
    if n.inverted() {
        assert(s.inverted());
        let m = choose|m: int|
            0 <= m <= fs.len() && s.last - s.read == #[trigger] vframes_len(fs.take(m));
        if m == 0 {
            assert(vframes_len(fs.take(0)) == 0) by {
                assert(fs.take(0) =~= Seq::<FrameShape>::empty());
            }
            assert(false);
        }
        lemma_vframes_len_drop_first(fs, m);
        assert(n.last - n.read == vframes_len(fs.drop_first().take(m - 1)));
    }
}

/// A producer of framed data
pub struct FrameProducer {
    pub(crate) producer: Producer,
}

/// A consumer of framed data
pub struct FrameConsumer {
    pub(crate) consumer: Consumer,
}

/// A write grant for a single frame
///
/// The frame's bytes follow a header of `hdr_len` bytes, which is written
/// when the frame is committed.
pub struct FrameGrantW {
    grant_w: GrantW,
    hdr_len: u8,
}

/// A read grant for a single frame
///
/// The frame's bytes follow a header of `hdr_len` bytes.
pub struct FrameGrantR {
    grant_r: GrantR,
    hdr_len: u8,
}

impl View for FrameGrantW {
    /// Where the grant starts in the ring, the length of the header, and the
    /// largest frame the grant can hold.
    type V = (nat, nat, nat);

    closed spec fn view(&self) -> (nat, nat, nat) {
        (self.grant_w@.0, self.hdr_len as nat, (self.grant_w@.1 - self.hdr_len) as nat)
    }
}

impl View for FrameGrantR {
    /// Where the grant starts in the ring, the length of the header, and the
    /// length of the frame.
    type V = (nat, nat, nat);

    closed spec fn view(&self) -> (nat, nat, nat) {
        (self.grant_r@.0, self.hdr_len as nat, (self.grant_r@.1 - self.hdr_len) as nat)
    }
}

impl FrameProducer {
    /// The identity of the buffer this producer was split from.
    pub closed spec fn buffer_id(&self) -> u64 {
        self.producer.buffer_id()
    }

    /// Receive a grant for a frame with a maximum size of `max_sz` in bytes.
    ///
    /// This size does not include the size of the frame header. The exact size
    /// of the frame can be set on `commit`.
    pub fn grant<const N: usize>(&mut self, bb: &mut BBBuffer<N>, max_sz: usize) -> (r: Result<
        FrameGrantW,
        Error,
    >)
        requires
            old(bb).wf(),
            old(bb).is_split(),
            self.buffer_id() == old(bb).id(),
            max_sz + usize_bytes() + 1 <= usize::MAX,
        ensures
            *final(self) == *old(self),
            final(bb).id() == old(bb).id(),
            final(bb).wf(),
            final(bb).queue().bytes() == old(bb).queue().bytes(),
            final(bb).contents() == old(bb).contents(),
            final(bb).is_split() == old(bb).is_split(),
            match r {
                Ok(g) => {
                    &&& CoordState::grant_exact_post(
                        old(bb).queue().state(),
                        final(bb).queue().state(),
                        N as nat,
                        (max_sz + spec_encoded_len(max_sz)) as nat,
                        Ok(g@.0 as usize),
                    )
                    &&& g@.1 == spec_encoded_len(max_sz)
                    &&& g@.2 == max_sz
                    &&& g.wf()
                    &&& g.pending() == 0
                    &&& g.is_grant_of(*final(bb))
                },
                Err(e) => exists|we: WriteGrantError|
                    e == write_error(we) && #[trigger] CoordState::grant_exact_post(
                        old(bb).queue().state(),
                        final(bb).queue().state(),
                        N as nat,
                        (max_sz + spec_encoded_len(max_sz)) as nat,
                        Err(we),
                    ),
            },
            forall|fs: Seq<FrameShape>|
                #[trigger] vframed_inv(old(bb).queue().state(), old(bb).contents(), fs) ==> vframed_inv(
                    final(bb).queue().state(),
                    final(bb).contents(),
                    fs,
                ),
    {
        let hdr_len = encoded_len(max_sz);
        let r = self.producer.grant_exact(bb, max_sz + hdr_len);
        proof {
            assert forall|fs: Seq<FrameShape>|
                #[trigger] vframed_inv(old(bb).queue().state(), old(bb).contents(), fs) implies vframed_inv(
                bb.queue().state(),
                bb.contents(),
                fs,
            ) by {
                lemma_vframed_same_indices(
                    old(bb).queue().state(),
                    bb.queue().state(),
                    bb.contents(),
                    fs,
                );
            }
        }
        match r {
            Ok(g) => {
                proof {
                    lemma_usize_bytes();
                }
                let fg = FrameGrantW { grant_w: g, hdr_len: hdr_len as u8 };
                assert(fg@.2 == max_sz);
                Ok(fg)
            },
            Err(e) => {
                proof {
                    let we = choose|we: WriteGrantError|
                        e == write_error(we) && #[trigger] CoordState::grant_exact_post(
                            old(bb).queue().state(),
                            bb.queue().state(),
                            N as nat,
                            (max_sz + hdr_len) as nat,
                            Err(we),
                        );
                    assert(CoordState::grant_exact_post(
                        old(bb).queue().state(),
                        bb.queue().state(),
                        N as nat,
                        (max_sz + spec_encoded_len(max_sz)) as nat,
                        Err(we),
                    ));
                }
                Err(e)
            },
        }
    }
}

impl FrameGrantW {
    /// The grant's header length fits the largest frame it holds, and what is
    /// set to be committed is zero, or a header and a frame.
    pub closed spec fn wf(&self) -> bool {
        &&& self.hdr_len as nat <= self.grant_w@.1
        &&& shape_ok((self.hdr_len as nat, (self.grant_w@.1 - self.hdr_len) as nat))
        &&& self.grant_w.pending() > 0 ==> self.hdr_len <= self.grant_w.pending()
            <= self.grant_w@.1
    }

    /// The number of bytes, header included, to commit when the grant is
    /// finished.
    pub closed spec fn pending(&self) -> nat {
        self.grant_w.pending()
    }

    /// Where the frame's bytes start in the ring.
    pub open spec fn body_start(&self) -> nat {
        self@.0 + self@.1
    }

    /// This grant is the active write grant of `bb`; when something is set to
    /// be committed, its header is already in place.
    pub open spec fn is_grant_of<const N: usize>(self, bb: BBBuffer<N>) -> bool {
        let s = bb.queue().state();
        &&& s.write_in_progress
        &&& self@.0 == s.grant_start()
        &&& self@.0 + self@.1 + self@.2 == s.reserve
        &&& self.pending() > 0 ==> bb.queue().bytes().subrange(
            self@.0 as int,
            self.body_start() as int,
        ) == spec_encode((self.pending() - self@.1) as usize, self@.1)
    }

    /// The largest number of bytes the frame can hold.
    pub fn len(&self) -> (n: usize)
        requires
            self.wf(),
        ensures
            n == self@.2,
    {
        self.grant_w.len() - self.hdr_len as usize
    }

    /// Write `v` at index `i` of the frame. The queued bytes are kept.
    pub fn set<const N: usize>(&self, bb: &mut BBBuffer<N>, i: usize, v: u8)
        requires
            old(bb).wf(),
            self.wf(),
            self.is_grant_of(*old(bb)),
            i < self@.2,
        ensures
            final(bb).id() == old(bb).id(),
            final(bb).wf(),
            final(bb).queue().state() == old(bb).queue().state(),
            final(bb).queue().bytes() == old(bb).queue().bytes().update(self.body_start() + i, v),
            final(bb).contents() == old(bb).contents(),
            final(bb).is_split() == old(bb).is_split(),
            self.is_grant_of(*final(bb)),
    {
        self.grant_w.set(bb, self.hdr_len as usize + i, v);
        proof {
            let b = self@.0 as int;
            assert(bb.queue().bytes().subrange(b, self.body_start() as int) =~= old(
                bb,
            ).queue().bytes().subrange(b, self.body_start() as int));
        }
    }

    /// Copy `src` into the start of the frame.
    pub fn copy_from_slice<const N: usize>(&self, bb: &mut BBBuffer<N>, src: &[u8])
        requires
            old(bb).wf(),
            self.wf(),
            self.is_grant_of(*old(bb)),
            src@.len() <= self@.2,
        ensures
            final(bb).id() == old(bb).id(),
            final(bb).wf(),
            final(bb).queue().state() == old(bb).queue().state(),
            final(bb).queue().bytes().len() == old(bb).queue().bytes().len(),
            final(bb).queue().bytes().subrange(
                self.body_start() as int,
                (self.body_start() + src@.len()) as int,
            ) == src@,
            forall|j: int|
                0 <= j < old(bb).queue().bytes().len() && !(self.body_start() <= j
                    < self.body_start() + src@.len()) ==> final(bb).queue().bytes()[j] == old(
                    bb,
                ).queue().bytes()[j],
            final(bb).contents() == old(bb).contents(),
            final(bb).is_split() == old(bb).is_split(),
            self.is_grant_of(*final(bb)),
    {
        self.grant_w.write_at(bb, self.hdr_len as usize, src);
        proof {
            let b = self@.0 as int;
            assert(bb.queue().bytes().subrange(b, self.body_start() as int) =~= old(
                bb,
            ).queue().bytes().subrange(b, self.body_start() as int));
        }
    }

    /// Write the header of a frame of `used` bytes (at most the largest the
    /// grant holds), and return the number of bytes of header and frame.
    fn set_header<const N: usize>(&self, bb: &mut BBBuffer<N>, used: usize) -> (total: usize)
        requires
            old(bb).wf(),
            self.wf(),
            self.is_grant_of(*old(bb)),
        ensures
            final(bb).id() == old(bb).id(),
            final(bb).wf(),
            final(bb).queue().state() == old(bb).queue().state(),
            final(bb).contents() == old(bb).contents(),
            final(bb).is_split() == old(bb).is_split(),
            total == self@.1 + min_nat(self@.2, used as nat),
            final(bb).queue().bytes().len() == old(bb).queue().bytes().len(),
            final(bb).queue().bytes().subrange(self@.0 as int, self.body_start() as int)
                == spec_encode(min_nat(self@.2, used as nat) as usize, self@.1),
            forall|j: int|
                0 <= j < old(bb).queue().bytes().len() && !(self@.0 <= j < self.body_start())
                    ==> final(bb).queue().bytes()[j] == old(bb).queue().bytes()[j],
    {
        let grant_len = self.grant_w.len();
        let hdr_len = self.hdr_len as usize;
        let room = grant_len - hdr_len;
        let frame_len = if used < room {
            used
        } else {
            room
        };
        proof {
            lemma_fits_in_smaller(room, frame_len, hdr_len as nat);
        }
        let mut hdr: Vec<u8> = vec![0u8; hdr_len];
        encode_usize_to_slice(frame_len, hdr_len, hdr.as_mut_slice());
        assert(hdr@ =~= hdr@.subrange(0, hdr_len as int));
        self.grant_w.write_at(bb, 0, hdr.as_slice());
        frame_len + hdr_len
    }

    /// Commit a frame to make it available to the Consumer half.
    ///
    /// `used` is the size of the frame; it is saturated to the largest frame
    /// the grant holds. The header is written in front of it.
    pub fn commit<const N: usize>(self, bb: &mut BBBuffer<N>, used: usize)
        requires
            old(bb).wf(),
            self.wf(),
            self.is_grant_of(*old(bb)),
        ensures
            final(bb).id() == old(bb).id(),
            final(bb).wf(),
            final(bb).is_split() == old(bb).is_split(),
            ({
                let fl = min_nat(self@.2, used as nat);
                &&& final(bb).contents() == old(bb).contents() + vframe(
                    self@.1,
                    old(bb).queue().bytes().subrange(
                        self.body_start() as int,
                        (self.body_start() + fl) as int,
                    ),
                )
                &&& final(bb).queue().state() == old(bb).queue().state().commit_next(
                    N as nat,
                    self@.1 + self@.2,
                    self@.1 + fl,
                )
                &&& forall|fs: Seq<FrameShape>|
                    #[trigger] vframed_inv(old(bb).queue().state(), old(bb).contents(), fs)
                        ==> vframed_inv(
                        final(bb).queue().state(),
                        final(bb).contents(),
                        fs.push((self@.1, fl)),
                    )
            }),
    {
        let ghost before = bb.queue().bytes();
        let total = self.set_header(bb, used);
        let ghost mid = bb.queue().bytes();
        proof {
            let b = self@.0 as int;
            let h = self@.1 as int;
            let fl = min_nat(self@.2, used as nat) as int;
            let body = before.subrange(b + h, b + h + fl);
            assert(mid.subrange(b, b + h + fl) =~= vframe(self@.1, body));
        }
        self.grant_w.commit(bb, total);
        proof {
            let b = self@.0 as int;
            let h = self@.1 as int;
            let fl = min_nat(self@.2, used as nat);
            let body = before.subrange(b + h, b + h + fl);
            assert forall|fs: Seq<FrameShape>|
                #[trigger] vframed_inv(old(bb).queue().state(), old(bb).contents(), fs) implies vframed_inv(
                bb.queue().state(),
                bb.contents(),
                fs.push((self@.1, fl)),
            ) by {
                lemma_vframed_commit(
                    old(bb).queue().state(),
                    N as nat,
                    old(bb).contents(),
                    fs,
                    (self@.1 + self@.2) as nat,
                    self@.1,
                    body,
                );
            }
        }
    }

    /// Set the amount of bytes to be committed when the grant is finished:
    /// a frame of `amt` bytes (saturated to the largest the grant holds), or
    /// nothing when `amt` is zero. The header is written now.
    pub fn to_commit<const N: usize>(&mut self, bb: &mut BBBuffer<N>, amt: usize)
        requires
            old(bb).wf(),
            old(self).wf(),
            old(self).is_grant_of(*old(bb)),
        ensures
            final(bb).id() == old(bb).id(),
            final(bb).wf(),
            final(bb).queue().state() == old(bb).queue().state(),
            final(bb).contents() == old(bb).contents(),
            final(bb).is_split() == old(bb).is_split(),
            final(self)@ == old(self)@,
            final(self).wf(),
            final(self).is_grant_of(*final(bb)),
            amt == 0 ==> final(self).pending() == 0 && final(bb).queue().bytes() == old(
                bb,
            ).queue().bytes(),
            amt != 0 ==> {
                &&& final(self).pending() == old(self)@.1 + min_nat(old(self)@.2, amt as nat)
                &&& final(bb).queue().bytes().len() == old(bb).queue().bytes().len()
                &&& forall|j: int|
                    0 <= j < old(bb).queue().bytes().len() && !(old(self)@.0 <= j
                        < old(self).body_start()) ==> final(bb).queue().bytes()[j] == old(
                        bb,
                    ).queue().bytes()[j]
            },
    {
        if amt == 0 {
            self.grant_w.to_commit(0);
        } else {
            let size = self.set_header(bb, amt);
            self.grant_w.to_commit(size);
        }
    }

    /// Finish the grant: commit what `to_commit` set (nothing unless set), as
    /// dropping a grant does.
    pub fn finish<const N: usize>(self, bb: &mut BBBuffer<N>)
        requires
            old(bb).wf(),
            self.wf(),
            self.is_grant_of(*old(bb)),
        ensures
            final(bb).id() == old(bb).id(),
            final(bb).wf(),
            final(bb).queue().bytes() == old(bb).queue().bytes(),
            final(bb).is_split() == old(bb).is_split(),
            self.pending() == 0 ==> {
                &&& final(bb).contents() == old(bb).contents()
                &&& forall|fs: Seq<FrameShape>|
                    #[trigger] vframed_inv(old(bb).queue().state(), old(bb).contents(), fs)
                        ==> vframed_inv(
                        final(bb).queue().state(),
                        final(bb).contents(),
                        fs,
                    )
            },
            self.pending() > 0 ==> {
                &&& final(bb).contents() == old(bb).contents() + vframe(
                    self@.1,
                    old(bb).queue().bytes().subrange(
                        self.body_start() as int,
                        (self@.0 + self.pending()) as int,
                    ),
                )
                &&& forall|fs: Seq<FrameShape>|
                    #[trigger] vframed_inv(old(bb).queue().state(), old(bb).contents(), fs)
                        ==> vframed_inv(
                        final(bb).queue().state(),
                        final(bb).contents(),
                        fs.push((self@.1, (self.pending() - self@.1) as nat)),
                    )
            },
    {
        let ghost p = self.pending();
        self.grant_w.finish(bb);
        proof {
            let b = self@.0 as int;
            let h = self@.1 as int;
            let s = old(bb).queue().state();
            let glen = (self@.1 + self@.2) as nat;
            if p == 0 {
                assert(old(bb).queue().bytes().subrange(b, b) =~= Seq::<u8>::empty());
                assert(old(bb).contents() + Seq::<u8>::empty() =~= old(bb).contents());
                assert forall|fs: Seq<FrameShape>|
                    vframed_inv(s, old(bb).contents(), fs) implies #[trigger] vframed_inv(
                    bb.queue().state(),
                    bb.contents(),
                    fs,
                ) by {
                    lemma_vframed_abort(s, N as nat, old(bb).contents(), fs, glen);
                }
            } else {
                let body = old(bb).queue().bytes().subrange(b + h, b + p);
                assert(old(bb).queue().bytes().subrange(b, b + p) =~= vframe(self@.1, body));
                assert forall|fs: Seq<FrameShape>|
                    vframed_inv(s, old(bb).contents(), fs) implies #[trigger] vframed_inv(
                    bb.queue().state(),
                    bb.contents(),
                    fs.push((self@.1, (p - self@.1) as nat)),
                ) by {
                    lemma_vframed_commit(s, N as nat, old(bb).contents(), fs, glen, self@.1, body);
                }
            }
        }
    }
}

impl FrameConsumer {
    /// The identity of the buffer this consumer was split from.
    pub closed spec fn buffer_id(&self) -> u64 {
        self.consumer.buffer_id()
    }

    /// Obtain the next available frame, if any
    ///
    /// The buffer must hold frames as a frame producer committed them. The
    /// frame is the oldest one queued; `None` is returned exactly when no
    /// frame is queued, or a read grant is already in progress.
    pub fn read<const N: usize>(&mut self, bb: &mut BBBuffer<N>) -> (r: Option<FrameGrantR>)
        requires
            old(bb).wf(),
            old(bb).is_split(),
            self.buffer_id() == old(bb).id(),
            exists|fs: Seq<FrameShape>|
                vframed_inv(old(bb).queue().state(), old(bb).contents(), fs),
        ensures
            *final(self) == *old(self),
            final(bb).id() == old(bb).id(),
            final(bb).wf(),
            final(bb).queue().bytes() == old(bb).queue().bytes(),
            final(bb).contents() == old(bb).contents(),
            final(bb).is_split() == old(bb).is_split(),
            match r {
                Some(g) => {
                    &&& g.wf()
                    &&& g.is_grant_of(*final(bb))
                    &&& !g.auto()
                    &&& !old(bb).queue().state().read_in_progress
                },
                None => true,
            },
            forall|fs: Seq<FrameShape>|
                #[trigger] vframed_inv(old(bb).queue().state(), old(bb).contents(), fs) ==> {
                    &&& vframed_inv(
                        final(bb).queue().state(),
                        final(bb).contents(),
                        fs,
                    )
                    &&& (!old(bb).queue().state().read_in_progress && fs.len() > 0) ==> r is Some
                        && r->Some_0@.1 == fs[0].0 && r->Some_0@.2 == fs[0].1
                    &&& (old(bb).queue().state().read_in_progress || fs.len() == 0) ==> r is None
                },
    {
        let ghost s = old(bb).queue().state();
        let ghost c = old(bb).contents();
        proof {
            assert forall|fs: Seq<FrameShape>| vframed_inv(s, c, fs) implies ({
                &&& vframed_inv(moved_reader(s), c, fs)
                &&& fs.len() > 0 ==> {
                    &&& frame_size(fs[0]) <= moved_reader(s).read_avail()
                    &&& shape_ok(fs[0])
                    &&& c.take(fs[0].0 as int) == spec_encode(fs[0].1 as usize, fs[0].0)
                }
                &&& fs.len() == 0 ==> moved_reader(s).read_avail() == 0 && c.len() == 0
            }) by {
                lemma_vframed_read_run(s, N as nat, c, fs);
            }
        }
        let grant_r = match self.consumer.read(bb) {
            Ok(g) => g,
            Err(e) => {
                proof {
                    assert forall|fs: Seq<FrameShape>| vframed_inv(s, c, fs) implies #[trigger] vframed_inv(
                        bb.queue().state(),
                        bb.contents(),
                        fs,
                    ) by {
                        if !s.read_in_progress {
                            lemma_vframed_same_indices(moved_reader(s), bb.queue().state(), c, fs);
                        }
                    }
                }
                return None;
            },
        };
        let ghost fs0 = choose|fs: Seq<FrameShape>| vframed_inv(s, c, fs);
        proof {
            assert(fs0.len() > 0);
            let sh = fs0[0];
            lemma_vusize_roundtrip(sh.1 as usize, sh.0, c.skip(sh.0 as int));
            assert(c =~= c.take(sh.0 as int) + c.skip(sh.0 as int));
            assert(c[0] == spec_encode(sh.1 as usize, sh.0)[0]);
            lemma_fits_in_bound(sh.1 as usize, sh.0);
        }
        let first = grant_r.get(bb, 0);
        let hdr_len = decoded_len(first);
        let hdr = grant_r.range(bb, 0, hdr_len);
        proof {
            let sh = fs0[0];
            assert(hdr@ =~= c.take(sh.0 as int));
            lemma_vusize_roundtrip(sh.1 as usize, sh.0, Seq::<u8>::empty());
            assert(spec_encode(sh.1 as usize, sh.0) + Seq::<u8>::empty() =~= spec_encode(
                sh.1 as usize,
                sh.0,
            ));
        }
        let frame_len = decode_usize(hdr.as_slice());
        let total_len = frame_len + hdr_len;
        let grant_r = grant_r.shrink(total_len);
        proof {
            lemma_usize_bytes();
        }
        let g = FrameGrantR { grant_r, hdr_len: hdr_len as u8 };
        let r = Some(g);
        proof {
            assert forall|fs: Seq<FrameShape>| #[trigger] vframed_inv(s, c, fs) implies {
                &&& vframed_inv(bb.queue().state(), bb.contents(), fs)
                &&& (!s.read_in_progress && fs.len() > 0) ==> r is Some && r->Some_0@.1
                    == fs[0].0 && r->Some_0@.2 == fs[0].1
                &&& (s.read_in_progress || fs.len() == 0) ==> r is None
            } by {
                lemma_vframed_read_run(s, N as nat, c, fs);
                lemma_vframed_same_indices(moved_reader(s), bb.queue().state(), c, fs);
                let sh = fs[0];
                lemma_vusize_roundtrip(sh.1 as usize, sh.0, Seq::<u8>::empty());
                assert(spec_encode(sh.1 as usize, sh.0) + Seq::<u8>::empty() =~= spec_encode(
                    sh.1 as usize,
                    sh.0,
                ));
                assert(c[0] == c.take(sh.0 as int)[0]);
            }
        }
        r
    }
}

impl FrameGrantR {
    /// The grant covers its header and its frame, and is set to release all
    /// of them or nothing.
    pub closed spec fn wf(&self) -> bool {
        &&& self.hdr_len as nat <= self.grant_r@.1
        &&& self.grant_r.pending() == 0 || self.grant_r.pending() == self.grant_r@.1
    }

    /// The frame is released when the grant is finished.
    pub closed spec fn auto(&self) -> bool {
        self.grant_r.pending() > 0
    }

    /// This grant is the active read grant of `bb`.
    pub open spec fn is_grant_of<const N: usize>(self, bb: BBBuffer<N>) -> bool {
        let s = bb.queue().state();
        &&& s.read_in_progress
        &&& self@.0 == s.read
        &&& self@.1 + self@.2 <= s.read_avail()
    }

    /// The number of bytes in the frame.
    pub fn len(&self) -> (n: usize)
        requires
            self.wf(),
        ensures
            n == self@.2,
    {
        self.grant_r.len() - self.hdr_len as usize
    }

    /// The byte at index `i` of the frame.
    pub fn get<const N: usize>(&self, bb: &BBBuffer<N>, i: usize) -> (b: u8)
        requires
            bb.wf(),
            self.wf(),
            self.is_grant_of(*bb),
            i < self@.2,
        ensures
            b == bb.contents()[self@.1 + i],
    {
        self.grant_r.get(bb, self.hdr_len as usize + i)
    }

    /// Overwrite the byte at index `i` of the frame, in place: the queued
    /// byte changes, and the frames stay whole.
    pub fn set<const N: usize>(&self, bb: &mut BBBuffer<N>, i: usize, v: u8)
        requires
            old(bb).wf(),
            self.wf(),
            self.is_grant_of(*old(bb)),
            i < self@.2,
        ensures
            final(bb).id() == old(bb).id(),
            final(bb).wf(),
            final(bb).queue().state() == old(bb).queue().state(),
            final(bb).contents() == old(bb).contents().update(self@.1 + i, v),
            final(bb).is_split() == old(bb).is_split(),
            forall|fs: Seq<FrameShape>|
                #[trigger] vframed_inv(old(bb).queue().state(), old(bb).contents(), fs) && fs.len() > 0
                    && fs[0] == (self@.1, self@.2) ==> vframed_inv(
                    final(bb).queue().state(),
                    final(bb).contents(),
                    fs,
                ),
    {
        self.grant_r.set(bb, self.hdr_len as usize + i, v);
        proof {
            assert forall|fs: Seq<FrameShape>|
                #[trigger] vframed_inv(old(bb).queue().state(), old(bb).contents(), fs) && fs.len() > 0
                    && fs[0] == (self@.1, self@.2) implies vframed_inv(
                bb.queue().state(),
                bb.contents(),
                fs,
            ) by {
                lemma_vframes_parse_update_first(old(bb).contents(), fs, self@.1 + i, v);
            }
        }
    }

    /// The bytes of the frame.
    pub fn buf<const N: usize>(&self, bb: &BBBuffer<N>) -> (v: Vec<u8>)
        requires
            bb.wf(),
            self.wf(),
            self.is_grant_of(*bb),
        ensures
            v@ == bb.contents().subrange(self@.1 as int, (self@.1 + self@.2) as int),
    {
        let h = self.hdr_len as usize;
        let n = self.grant_r.len() - h;
        self.grant_r.range(bb, h, n)
    }

    /// Release a frame to make the space available for future writing
    ///
    /// Note: The full frame is always released
    pub fn release<const N: usize>(self, bb: &mut BBBuffer<N>)
        requires
            old(bb).wf(),
            self.wf(),
            self.is_grant_of(*old(bb)),
        ensures
            final(bb).id() == old(bb).id(),
            final(bb).wf(),
            final(bb).queue().bytes() == old(bb).queue().bytes(),
            final(bb).is_split() == old(bb).is_split(),
            final(bb).queue().state() == old(bb).queue().state().release_next(self@.1 + self@.2),
            final(bb).contents() == old(bb).contents().skip((self@.1 + self@.2) as int),
            forall|fs: Seq<FrameShape>|
                #[trigger] vframed_inv(old(bb).queue().state(), old(bb).contents(), fs) && fs.len() > 0
                    && fs[0] == (self@.1, self@.2) ==> vframed_inv(
                    final(bb).queue().state(),
                    final(bb).contents(),
                    fs.drop_first(),
                ),
    {
        let len = self.grant_r.len();
        self.grant_r.release(bb, len);
        proof {
            assert forall|fs: Seq<FrameShape>|
                #[trigger] vframed_inv(old(bb).queue().state(), old(bb).contents(), fs) && fs.len() > 0
                    && fs[0] == (self@.1, self@.2) implies vframed_inv(
                bb.queue().state(),
                bb.contents(),
                fs.drop_first(),
            ) by {
                lemma_vframed_release(old(bb).queue().state(), N as nat, old(bb).contents(), fs);
            }
        }
    }

    /// Set whether the frame is released when the grant is finished.
    pub fn auto_release(&mut self, is_auto: bool)
        requires
            old(self).wf(),
        ensures
            final(self)@ == old(self)@,
            final(self).wf(),
            final(self).auto() == (is_auto && old(self)@.1 + old(self)@.2 > 0),
    {
        let len = self.grant_r.len();
        self.grant_r.to_release(
            if is_auto {
                len
            } else {
                0
            },
        );
    }

    /// Finish the grant: release the frame if `auto_release` was set, as
    /// dropping a grant does; otherwise the frame stays queued.
    pub fn finish<const N: usize>(self, bb: &mut BBBuffer<N>)
        requires
            old(bb).wf(),
            self.wf(),
            self.is_grant_of(*old(bb)),
        ensures
            final(bb).id() == old(bb).id(),
            final(bb).wf(),
            final(bb).queue().bytes() == old(bb).queue().bytes(),
            final(bb).is_split() == old(bb).is_split(),
            self.auto() ==> final(bb).contents() == old(bb).contents().skip(
                (self@.1 + self@.2) as int,
            ),
            !self.auto() ==> final(bb).contents() == old(bb).contents(),
            self.auto() ==> forall|fs: Seq<FrameShape>|
                #[trigger] vframed_inv(old(bb).queue().state(), old(bb).contents(), fs) && fs.len() > 0
                    && fs[0] == (self@.1, self@.2) ==> vframed_inv(
                    final(bb).queue().state(),
                    final(bb).contents(),
                    fs.drop_first(),
                ),
            !self.auto() ==> forall|fs: Seq<FrameShape>|
                #[trigger] vframed_inv(old(bb).queue().state(), old(bb).contents(), fs) ==> vframed_inv(
                    final(bb).queue().state(),
                    final(bb).contents(),
                    fs,
                ),
    {
        let ghost auto = self.auto();
        self.grant_r.finish(bb);
        proof {
            if auto {
                assert forall|fs: Seq<FrameShape>|
                    #[trigger] vframed_inv(old(bb).queue().state(), old(bb).contents(), fs) && fs.len() > 0
                        && fs[0] == (self@.1, self@.2) implies vframed_inv(
                    bb.queue().state(),
                    bb.contents(),
                    fs.drop_first(),
                ) by {
                    lemma_vframed_release(
                        old(bb).queue().state(),
                        N as nat,
                        old(bb).contents(),
                        fs,
                    );
                }
            } else {
                assert(old(bb).contents().skip(0) =~= old(bb).contents());
                assert forall|fs: Seq<FrameShape>|
                    #[trigger] vframed_inv(old(bb).queue().state(), old(bb).contents(), fs) implies vframed_inv(
                    bb.queue().state(),
                    bb.contents(),
                    fs,
                ) by {
                    lemma_vframed_same_indices(
                        old(bb).queue().state(),
                        bb.queue().state(),
                        bb.contents(),
                        fs,
                    );
                }
            }
        }
    }
}

impl<const N: usize> BBBuffer<N> {
    /// Attempt to split the buffer into `FrameProducer` and `FrameConsumer`
    /// halves to gain access to the buffer. If the buffer has already been
    /// split, an error is returned.
    ///
    /// A buffer that has just been split holds no frames.
    pub fn try_split_framed(&mut self) -> (r: Result<(FrameProducer, FrameConsumer), Error>)
        requires
            old(self).wf(),
        ensures
            final(self).wf(),
            r is Ok <==> !old(self).is_split(),
            r is Err ==> r == Err::<(FrameProducer, FrameConsumer), Error>(Error::AlreadySplit),
            final(self).is_split(),
            final(self).queue().state() == old(self).queue().state(),
            final(self).queue().bytes() == old(self).queue().bytes(),
            r is Ok ==> vframed_inv(
                final(self).queue().state(),
                final(self).contents(),
                Seq::<FrameShape>::empty(),
            ),
            final(self).id() == old(self).id(),
            r is Ok ==> r->Ok_0.0.buffer_id() == old(self).id() && r->Ok_0.1.buffer_id() == old(
                self,
            ).id(),
    {
        match self.try_split() {
            Ok((producer, consumer)) => {
                proof {
                    lemma_vframed_inv_initial();
                    assert(self.contents() =~= Seq::<u8>::empty());
                }
                Ok((FrameProducer { producer }, FrameConsumer { consumer }))
            },
            Err(e) => Err(e),
        }
    }

    /// Attempt to release the `FrameProducer` and `FrameConsumer`.
    ///
    /// This re-initializes the buffer so it may be split in a different mode
    /// at a later time. There must be no read or write grants active, or an
    /// error will be returned, with the two halves handed back. The halves
    /// must be from THIS buffer, or an error will be returned.
    pub fn try_release_framed(&mut self, prod: FrameProducer, cons: FrameConsumer) -> (r: Result<
        (),
        (FrameProducer, FrameConsumer),
    >)
        requires
            old(self).wf(),
        ensures
            r is Ok <==> prod.buffer_id() == old(self).id() && cons.buffer_id() == old(self).id()
                && !old(self).queue().state().write_in_progress
                && !old(self).queue().state().read_in_progress,
            r is Err ==> r == Err::<(), (FrameProducer, FrameConsumer)>((prod, cons)),
            final(self).id() == old(self).id(),
            r is Ok ==> {
                &&& final(self).queue().state() == CoordState::initial()
                &&& !final(self).is_split()
                &&& final(self).contents() == Seq::<u8>::empty()
                &&& final(self).wf()
            },
            r is Err ==> *final(self) == *old(self),
            final(self).queue().bytes() == old(self).queue().bytes(),
    {
        match self.try_release(prod.producer, cons.consumer) {
            Ok(()) => Ok(()),
            Err((producer, consumer)) => Err((FrameProducer { producer }, FrameConsumer { consumer })),
        }
    }
}

} // verus!
