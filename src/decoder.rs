//! The incremental frame decoder: bytes arrive in chunks of any size, and
//! each complete frame is handed out as soon as its last byte has arrived.

use vstd::prelude::*;
use vstd::slice::{slice_subrange, slice_to_vec};
use crate::message::{
    append, frame_body, frame_len, frame_name, name_end, parsable, wire, Msg, MSG_WITH_BODY,
};
use crate::utils::{be_value, bytes_to_u64};

verus! {

/// Splits `b` into the complete frames at its front and the bytes left over.
pub open spec fn split_frames(b: Seq<u8>) -> (Seq<Seq<u8>>, Seq<u8>)
    decreases b.len(),
{
    match frame_len(b) {
        Some(n) => if 0 < n <= b.len() {
            let rest = split_frames(b.subrange(n as int, b.len() as int));
            (seq![b.subrange(0, n as int)] + rest.0, rest.1)
        } else {
            (Seq::empty(), b)
        },
        None => (Seq::empty(), b),
    }
}

/// The byte strings of `parts`, one after the other.
pub open spec fn flatten(parts: Seq<Seq<u8>>) -> Seq<u8>
    decreases parts.len(),
{
    if parts.len() == 0 {
        Seq::empty()
    } else {
        flatten(parts.drop_last()) + parts.last()
    }
}

/// What a decoder that starts empty emits, and keeps, after being fed
/// `chunks` one by one.
pub open spec fn decode_chunks(chunks: Seq<Seq<u8>>) -> (Seq<Seq<u8>>, Seq<u8>)
    decreases chunks.len(),
{
    if chunks.len() == 0 {
        (Seq::empty(), Seq::empty())
    } else {
        let before = decode_chunks(chunks.drop_last());
        let step = split_frames(before.1 + chunks.last());
        (before.0 + step.0, step.1)
    }
}

/// `f` is exactly one frame.
pub open spec fn is_frame(f: Seq<u8>) -> bool {
    frame_len(f) == Some(f.len())
}

/// The name of the frame a reader emits when its stream ends.
pub open spec fn disconnect_name() -> Seq<u8> {
    // the ASCII bytes of "disconnect"
    seq![100u8, 105, 115, 99, 111, 110, 110, 101, 99, 116]
}

/// The frame a reader emits when its stream ends: id 0, meta 0, name
/// `"disconnect"`, no body.
pub open spec fn disconnect_wire() -> Seq<u8> {
    wire(Seq::new(12, |i: int| 0u8), 0, disconnect_name(), None)
}

/// Everything a reader hands its consumer when the stream delivers `chunks`
/// and then ends.
pub open spec fn read_session(chunks: Seq<Seq<u8>>) -> Seq<Seq<u8>> {
    decode_chunks(chunks).0.push(disconnect_wire())
}

pub open spec fn frames_view(v: Seq<Vec<u8>>) -> Seq<Seq<u8>> {
    v.map_values(|f: Vec<u8>| f@)
}

pub open spec fn opt_nat(o: Option<u128>) -> Option<nat> {
    match o {
        Some(n) => Some(n as nat),
        None => None,
    }
}

/// Once the bytes that fix a frame's length are there, more bytes do not
/// change it.
proof fn lemma_frame_len_extend(x: Seq<u8>, c: Seq<u8>)
    requires
        frame_len(x) is Some,
    ensures
        frame_len(x + c) == frame_len(x),
{
    let y = x + c;
    assert(y[12] == x[12]);
    assert(y[13] == x[13]);
    if x[12] & MSG_WITH_BODY != 0 {
        assert(y.subrange(name_end(y), name_end(y) + 8) =~= x.subrange(name_end(x), name_end(x) + 8));
    }
}

/// Splitting `x + c` splits `x` first, then what `x` left over followed by `c`.
pub proof fn lemma_split_append(x: Seq<u8>, c: Seq<u8>)
    ensures
        split_frames(x + c).0 == split_frames(x).0 + split_frames(split_frames(x).1 + c).0,
        split_frames(x + c).1 == split_frames(split_frames(x).1 + c).1,
    decreases x.len(),
{
    match frame_len(x) {
        Some(n) => {
            if 0 < n <= x.len() {
                lemma_frame_len_extend(x, c);
                let rest = x.subrange(n as int, x.len() as int);
                assert((x + c).subrange(0, n as int) =~= x.subrange(0, n as int));
                assert((x + c).subrange(n as int, (x + c).len() as int) =~= rest + c);
                lemma_split_append(rest, c);
                assert(split_frames(x + c).0 =~= split_frames(x).0 + split_frames(
                    split_frames(x).1 + c,
                ).0);
            } else {
                assert(split_frames(x).0 + split_frames(x + c).0 =~= split_frames(x + c).0);
            }
        },
        None => {
            assert(split_frames(x).0 + split_frames(x + c).0 =~= split_frames(x + c).0);
        },
    }
}

/// Feeding chunks one by one emits what splitting all their bytes at once
/// would: the chunk boundaries do not matter.
pub proof fn lemma_decode_chunks(chunks: Seq<Seq<u8>>)
    ensures
        decode_chunks(chunks) == split_frames(flatten(chunks)),
    decreases chunks.len(),
{
    if chunks.len() == 0 {
        assert(frame_len(Seq::<u8>::empty()) is None);
    } else {
        lemma_decode_chunks(chunks.drop_last());
        lemma_split_append(flatten(chunks.drop_last()), chunks.last());
    }
}

proof fn lemma_split_one(f: Seq<u8>)
    requires
        is_frame(f),
    ensures
        split_frames(f) == (seq![f], Seq::<u8>::empty()),
{
    let rest = f.subrange(f.len() as int, f.len() as int);
    assert(rest =~= Seq::<u8>::empty());
    assert(frame_len(rest) is None);
    assert(split_frames(rest) == (Seq::<Seq<u8>>::empty(), rest));
    assert(f.len() >= 14);
    assert(f.subrange(0, f.len() as int) =~= f);
    assert(seq![f] + Seq::<Seq<u8>>::empty() =~= seq![f]);
}

/// Splitting a run of whole frames gives back those frames, with nothing left.
pub proof fn lemma_split_frames_of_frames(frames: Seq<Seq<u8>>)
    requires
        forall|i: int| 0 <= i < frames.len() ==> is_frame(#[trigger] frames[i]),
    ensures
        split_frames(flatten(frames)) == (frames, Seq::<u8>::empty()),
    decreases frames.len(),
{
    if frames.len() == 0 {
        assert(frame_len(Seq::<u8>::empty()) is None);
    } else {
        let init = frames.drop_last();
        assert forall|i: int| 0 <= i < init.len() implies is_frame(#[trigger] init[i]) by {
            assert(init[i] == frames[i]);
        }
        lemma_split_frames_of_frames(init);
        lemma_split_append(flatten(init), frames.last());
        assert(Seq::<u8>::empty() + frames.last() =~= frames.last());
        lemma_split_one(frames.last());
        assert(init + seq![frames.last()] =~= frames);
    }
}

/// The frame length read from a buffer is that of its first `n` bytes alone.
proof fn lemma_frame_len_prefix(x: Seq<u8>, n: nat)
    requires
        frame_len(x) == Some(n),
        n <= x.len(),
    ensures
        is_frame(x.subrange(0, n as int)),
{
    let p = x.subrange(0, n as int);
    assert(x =~= p + x.subrange(n as int, x.len() as int));
    assert(p[12] == x[12] && p[13] == x[13]);
    if x[12] & MSG_WITH_BODY != 0 {
        assert(p.subrange(name_end(p), name_end(p) + 8) =~= x.subrange(name_end(x), name_end(x) + 8));
    }
}

/// Everything split off the front of a buffer is one whole frame.
pub proof fn lemma_split_frames_are_frames(b: Seq<u8>)
    ensures
        forall|i: int|
            0 <= i < split_frames(b).0.len() ==> is_frame(#[trigger] split_frames(b).0[i]),
    decreases b.len(),
{
    match frame_len(b) {
        Some(n) => {
            if 0 < n <= b.len() {
                let rest = b.subrange(n as int, b.len() as int);
                lemma_split_frames_are_frames(rest);
                lemma_frame_len_prefix(b, n);
                let fs = split_frames(b).0;
                assert forall|i: int| 0 <= i < fs.len() implies is_frame(#[trigger] fs[i]) by {
                    if i > 0 {
                        assert(fs[i] == split_frames(rest).0[i - 1]);
                    }
                }
            }
        },
        None => {},
    }
}

/// A whole frame is one the message parser accepts.
pub proof fn lemma_frame_parsable(f: Seq<u8>)
    requires
        is_frame(f),
    ensures
        parsable(f),
{
}

/// For a run of whole frames cut into chunks at any boundaries, the decoder
/// emits exactly those frames, in order, and keeps nothing.
pub proof fn lemma_chunked_frames(frames: Seq<Seq<u8>>, chunks: Seq<Seq<u8>>)
    requires
        forall|i: int| 0 <= i < frames.len() ==> is_frame(#[trigger] frames[i]),
        flatten(chunks) == flatten(frames),
    ensures
        decode_chunks(chunks) == (frames, Seq::<u8>::empty()),
{
    lemma_decode_chunks(chunks);
    lemma_split_frames_of_frames(frames);
}

/// A message encoded and fed to the decoder in chunks of any sizes comes out
/// as one frame that parses back to its id, meta flags, name and body.
pub proof fn lemma_chunked_round_trip(
    id: Seq<u8>,
    meta: u8,
    name: Seq<u8>,
    body: Option<Seq<u8>>,
    chunks: Seq<Seq<u8>>,
)
    requires
        id.len() == 12,
        name.len() <= 255,
        (meta & MSG_WITH_BODY != 0) == body.is_some(),
        body matches Some(b) ==> b.len() < 0x1_0000_0000_0000_0000,
        flatten(chunks) == wire(id, meta, name, body),
    ensures
        decode_chunks(chunks) == (seq![wire(id, meta, name, body)], Seq::<u8>::empty()),
        parsable(decode_chunks(chunks).0[0]),
        decode_chunks(chunks).0[0].subrange(0, 12) == id,
        decode_chunks(chunks).0[0][12] == meta,
        frame_name(decode_chunks(chunks).0[0]) == name,
        frame_body(decode_chunks(chunks).0[0]) == body,
{
    let w = wire(id, meta, name, body);
    crate::message::lemma_frame_round_trip(id, meta, name, body);
    let one = seq![w];
    assert(one.drop_last() =~= Seq::<Seq<u8>>::empty());
    assert(flatten(one.drop_last()) == Seq::<u8>::empty());
    assert(flatten(one) =~= w);
    lemma_chunked_frames(one, chunks);
}

/// When the stream ends after delivering a run of whole frames in any
/// chunking, the reader hands out exactly those frames and then one
/// `"disconnect"` frame with id 0, meta 0 and no body.
pub proof fn lemma_session_ends_with_disconnect(frames: Seq<Seq<u8>>, chunks: Seq<Seq<u8>>)
    requires
        forall|i: int| 0 <= i < frames.len() ==> is_frame(#[trigger] frames[i]),
        flatten(chunks) == flatten(frames),
    ensures
        read_session(chunks) == frames.push(disconnect_wire()),
        read_session(chunks).len() == frames.len() + 1,
        be_value(read_session(chunks).last().subrange(0, 12)) == 0,
        read_session(chunks).last()[12] == 0,
        frame_name(read_session(chunks).last()) == disconnect_name(),
        frame_body(read_session(chunks).last()) is None,
{
    lemma_chunked_frames(frames, chunks);
    let z = Seq::new(12, |i: int| 0u8);
    assert(0u8 & 0x80u8 == 0u8) by (bit_vector);
    crate::message::lemma_frame_round_trip(z, 0, disconnect_name(), None);
    assert(be_value(z) == 0) by {
        lemma_zeros_value(z);
    }
}

proof fn lemma_zeros_value(z: Seq<u8>)
    requires
        forall|i: int| 0 <= i < z.len() ==> z[i] == 0,
    ensures
        be_value(z) == 0,
    decreases z.len(),
{
    if z.len() > 0 {
        lemma_zeros_value(z.drop_last());
    }
}

/// The length of the frame at the start of `b`, once its header has arrived.
fn frame_len_of(b: &[u8]) -> (r: Option<u128>)
    ensures
        opt_nat(r) == frame_len(b@),
{
    if b.len() < 14 {
        return None;
    }
    let name_len = b[13] as u128;
    if b[12] & MSG_WITH_BODY == 0 {
        return Some(14 + name_len);
    }
    let name_end = b[13] as usize + 14;
    if b.len() < name_end + 8 {
        return None;
    }
    let len_bytes = slice_subrange(b, name_end, name_end + 8);
    assert(len_bytes@.subrange(0, 8) =~= b@.subrange(name_end as int, name_end + 8));
    let body_len = bytes_to_u64(len_bytes) as u128;
    Some(22 + name_len + body_len)
}

/// Accumulates bytes from a stream and cuts complete frames off its front.
/// The meta flags, name length and body length are read from the buffer
/// whenever bytes arrive, so any chunking of the stream decodes alike.
pub struct Decoder {
    buf: Vec<u8>,
}

impl Decoder {
    /// The bytes received that do not yet make a whole frame.
    pub closed spec fn pending(&self) -> Seq<u8> {
        self.buf@
    }

    pub fn new() -> (d: Decoder)
        ensures
            d.pending() == Seq::<u8>::empty(),
    {
        Decoder { buf: Vec::new() }
    }

    /// Takes in the next chunk of bytes and returns the frames it completes,
    /// in stream order.
    pub fn feed(&mut self, chunk: &[u8]) -> (frames: Vec<Vec<u8>>)
        ensures
            frames_view(frames@) == split_frames(old(self).pending() + chunk@).0,
            final(self).pending() == split_frames(old(self).pending() + chunk@).1,
            forall|i: int|
                0 <= i < frames@.len() ==> is_frame(#[trigger] frames@[i]@) && parsable(
                    frames@[i]@,
                ),
    {
        append(&mut self.buf, chunk);
        let ghost all = self.buf@;
        let mut frames: Vec<Vec<u8>> = Vec::new();
        let mut start: usize = 0;
        assert(all.subrange(0, all.len() as int) =~= all);
        loop
            invariant
                self.buf@ == all,
                all == old(self).pending() + chunk@,
                start <= all.len(),
                split_frames(all).0 == frames_view(frames@) + split_frames(
                    all.subrange(start as int, all.len() as int),
                ).0,
                split_frames(all).1 == split_frames(all.subrange(start as int, all.len() as int)).1,
            ensures
                split_frames(all.subrange(start as int, all.len() as int)) == (
                    Seq::<Seq<u8>>::empty(),
                    all.subrange(start as int, all.len() as int),
                ),
            decreases all.len() - start,
        {
            let rest = slice_subrange(self.buf.as_slice(), start, self.buf.len());
            let ghost r = rest@;
            match frame_len_of(rest) {
                Some(n) => {
                    if 0 < n && n <= rest.len() as u128 {
                        let f = slice_to_vec(slice_subrange(rest, 0, n as usize));
                        let ghost old_frames = frames@;
                        frames.push(f);
                        assert(r.subrange(n as int, r.len() as int) =~= all.subrange(
                            start + n,
                            all.len() as int,
                        ));
                        assert(frames_view(frames@) =~= frames_view(old_frames) + seq![f@]);
                        start = start + n as usize;
                    } else {
                        assert(split_frames(r) == (Seq::<Seq<u8>>::empty(), r));
                        break ;
                    }
                },
                None => {
                    assert(split_frames(r) == (Seq::<Seq<u8>>::empty(), r));
                    break ;
                },
            }
        }
        let left = slice_to_vec(slice_subrange(self.buf.as_slice(), start, self.buf.len()));
        assert(frames_view(frames@) + Seq::<Seq<u8>>::empty() =~= frames_view(frames@));
        self.buf = left;
        proof {
            lemma_split_frames_are_frames(all);
            assert forall|i: int| 0 <= i < frames@.len() implies is_frame(
                #[trigger] frames@[i]@,
            ) && parsable(frames@[i]@) by {
                assert(frames_view(frames@)[i] == frames@[i]@);
                lemma_frame_parsable(frames@[i]@);
            }
        }
        frames
    }

    /// Ends decoding: drops any partial frame and returns the
    /// `"disconnect"` frame that stands for the end of the stream.
    pub fn close(&mut self) -> (r: Vec<u8>)
        ensures
            r@ == disconnect_wire(),
            final(self).pending() == Seq::<u8>::empty(),
    {
        self.buf = Vec::new();
        let id: [u8; 12] = [0; 12];
        let name: Vec<u8> = vec![100u8, 105, 115, 99, 111, 110, 110, 101, 99, 116];
        assert(id@ =~= Seq::new(12, |i: int| 0u8));
        assert(name@ =~= disconnect_name());
        Msg::encode(id.as_slice(), 0, name.as_slice(), &None)
    }
}

} // verus!
