//! The in-memory message and its wire form.
//!
//! Wire layout, big-endian throughout: 12 bytes of id, one byte of meta
//! flags, one byte of name length, the name, and, when the meta flags carry
//! `MSG_WITH_BODY`, eight bytes of body length followed by the body.

use vstd::prelude::*;
use vstd::slice::{slice_subrange, slice_to_vec};
use vstd::utf8::{decode_utf8, encode_utf8, valid_utf8};
use crate::utils::{be_bytes, be_value, bid_to_u128, bytes_to_u64, u128_to_bytes, u64_to_bytes};

verus! {

/// Meta flag: eight bytes of body length and a body follow the name.
pub const MSG_WITH_BODY: u8 = 0x80;

/// Meta flag: the sender expects one reply with the same id and name.
pub const MSG_REQ: u8 = 0x40;

/// A message-name filter.
pub enum MsgName<'a> {
    Any,
    Is(&'a str),
}

/// What a consumer of decoded frames asks of the reader.
#[derive(Debug, Clone, Copy, PartialEq, Eq, Structural)]
pub enum MsgReading {
    Continue,
    Stop,
}

#[derive(Debug, Clone)]
pub struct Msg {
    pub client: String,
    pub id: u128,
    pub req: bool,
    pub name: String,
    pub body: Option<Vec<u8>>,
}

/// What an optional byte buffer holds, as an optional byte sequence.
pub open spec fn body_view(b: Option<Vec<u8>>) -> Option<Seq<u8>> {
    match b {
        Some(v) => Some(v@),
        None => None,
    }
}

/// Whether the meta flags mark a request.
pub open spec fn is_req(meta: u8) -> bool {
    meta & MSG_REQ == MSG_REQ
}

/// The frame of a message whose id is written as the 12 bytes `id`.
pub open spec fn wire(id: Seq<u8>, meta: u8, name: Seq<u8>, body: Option<Seq<u8>>) -> Seq<u8> {
    id + seq![meta, name.len() as u8] + name + match body {
        Some(b) => be_bytes(b.len(), 8) + b,
        None => Seq::empty(),
    }
}

/// Where the name of frame `b` ends.
pub open spec fn name_end(b: Seq<u8>) -> int {
    14 + b[13]
}

/// The body length written after the name of frame `b`.
pub open spec fn frame_body_len(b: Seq<u8>) -> nat {
    be_value(b.subrange(name_end(b), name_end(b) + 8))
}

/// `b` holds a header and name, and, when anything follows the name, a body
/// length and at least that many bytes of body.
pub open spec fn parsable(b: Seq<u8>) -> bool {
    &&& b.len() >= 14
    &&& b.len() >= name_end(b)
    &&& b.len() > name_end(b) ==> b.len() >= name_end(b) + 8 && b.len() >= name_end(b) + 8
        + frame_body_len(b)
}

pub open spec fn frame_id(b: Seq<u8>) -> nat {
    be_value(b.subrange(0, 12))
}

pub open spec fn frame_name(b: Seq<u8>) -> Seq<u8> {
    b.subrange(14, name_end(b))
}

/// The body of frame `b`: present exactly when bytes follow the name.
pub open spec fn frame_body(b: Seq<u8>) -> Option<Seq<u8>> {
    if b.len() > name_end(b) {
        Some(b.subrange(name_end(b) + 8, name_end(b) + 8 + frame_body_len(b)))
    } else {
        None
    }
}

/// The length of the frame at the start of `b`, once the bytes that fix it
/// have arrived: the header, and for a frame with a body, the body length.
pub open spec fn frame_len(b: Seq<u8>) -> Option<nat> {
    if b.len() < 14 {
        None
    } else if b[12] & MSG_WITH_BODY == 0 {
        Some((14 + b[13]) as nat)
    } else if b.len() < 22 + b[13] {
        None
    } else {
        Some((22 + b[13] + frame_body_len(b)) as nat)
    }
}

/// The text of a byte string, with each invalid UTF-8 sequence replaced.
pub uninterp spec fn lossy_text(b: Seq<u8>) -> Seq<char>;

/// Relies on `String::from_utf8_lossy`: its text depends on the bytes alone,
/// and bytes that are valid UTF-8 give the characters they encode.
#[verifier::external_body]
pub(crate) fn text_of(b: &[u8]) -> (r: String)
    ensures
        r@ == lossy_text(b@),
        valid_utf8(b@) ==> r@ == decode_utf8(b@),
{
    String::from_utf8_lossy(b).into_owned()
}

/// Appends `s` to `buf`.
pub(crate) fn append(buf: &mut Vec<u8>, s: &[u8])
    ensures
        final(buf)@ == old(buf)@ + s@,
{
    let mut i: usize = 0;
    while i < s.len()
        invariant
            i <= s@.len(),
            buf@ == old(buf)@ + s@.subrange(0, i as int),
        decreases s@.len() - i,
    {
        buf.push(s[i]);
        i += 1;
        assert(buf@ =~= old(buf)@ + s@.subrange(0, i as int));
    }
    assert(s@.subrange(0, s@.len() as int) =~= s@);
}

/// Decoding the wire form of a message gives back each of its fields, and
/// the frame length read from its header is its whole length.
pub proof fn lemma_frame_round_trip(id: Seq<u8>, meta: u8, name: Seq<u8>, body: Option<Seq<u8>>)
    requires
        id.len() == 12,
        name.len() <= 255,
        (meta & MSG_WITH_BODY != 0) == body.is_some(),
        body matches Some(b) ==> b.len() < 0x1_0000_0000_0000_0000,
    ensures
        parsable(wire(id, meta, name, body)),
        frame_len(wire(id, meta, name, body)) == Some(wire(id, meta, name, body).len()),
        wire(id, meta, name, body).subrange(0, 12) == id,
        wire(id, meta, name, body)[12] == meta,
        frame_name(wire(id, meta, name, body)) == name,
        frame_body(wire(id, meta, name, body)) == body,
{
    let w = wire(id, meta, name, body);
    let n = name.len() as int;
    assert(w[13] == n as u8);
    assert(w.subrange(0, 12) =~= id);
    assert(w.subrange(14, 14 + n) =~= name);
    match body {
        Some(b) => {
            let lb = be_bytes(b.len(), 8);
            assert(w.subrange(14 + n, 22 + n) =~= lb);
            crate::utils::lemma_be_round_trip(b.len(), 8);
            crate::utils::lemma_pow256_values();
            assert(w.subrange(22 + n, 22 + n + b.len() as int) =~= b);
        },
        None => {},
    }
}

impl Msg {
    /// Create new message with required fields.
    pub fn new(client: &str, id: u128, meta: u8, name: &str) -> (r: Msg)
        ensures
            r.id == id,
            r.req == is_req(meta),
            r.name@ == name@,
            r.client@ == client@,
            r.body is None,
    {
        Msg {
            id: id,
            req: (meta & MSG_REQ) == MSG_REQ,
            name: name.to_owned(),
            client: client.to_owned(),
            body: None,
        }
    }

    /// Create a message from one frame.
    pub fn from_bytes(bin: &[u8], client_id: &str) -> (r: Msg)
        requires
            parsable(bin@),
        ensures
            r.id as nat == frame_id(bin@),
            r.req == is_req(bin@[12]),
            r.name@ == lossy_text(frame_name(bin@)),
            valid_utf8(frame_name(bin@)) ==> r.name@ == decode_utf8(frame_name(bin@)),
            r.client@ == client_id@,
            body_view(r.body) == frame_body(bin@),
    {
        let id: u128 = bid_to_u128(bin);
        let meta: u8 = bin[12];
        let name_end: usize = bin[13] as usize + 14;
        let name = text_of(slice_subrange(bin, 14, name_end));
        let mut body: Option<Vec<u8>> = None;
        if bin.len() > name_end {
            let len_bytes = slice_subrange(bin, name_end, name_end + 8);
            assert(len_bytes@.subrange(0, 8) =~= bin@.subrange(name_end as int, name_end + 8));
            let body_len = bytes_to_u64(len_bytes) as usize;
            let body_start = name_end + 8;
            body = Some(slice_to_vec(slice_subrange(bin, body_start, body_start + body_len)));
        }
        Msg {
            id: id,
            req: (meta & MSG_REQ) == MSG_REQ,
            name: name,
            client: client_id.to_owned(),
            body: body,
        }
    }

    /// Set body.
    pub fn with_body(self, body: &[u8]) -> (r: Msg)
        ensures
            r.id == self.id,
            r.req == self.req,
            r.name == self.name,
            r.client == self.client,
            body_view(r.body) == Some(body@),
    {
        let mut m = self;
        m.body = Some(slice_to_vec(body));
        m
    }

    /// Set body from string: its UTF-8 bytes.
    pub fn with_str_body(self, body: &str) -> (r: Msg)
        ensures
            r.id == self.id,
            r.req == self.req,
            r.name == self.name,
            r.client == self.client,
            body_view(r.body) == Some(encode_utf8(body@)),
    {
        let mut m = self;
        m.body = Some(slice_to_vec(body.as_bytes()));
        m
    }

    /// The frame of a message: `id` (12 bytes), meta flags, name and
    /// optional body, in one contiguous buffer ready for a single write.
    pub fn encode(id: &[u8], meta: u8, name: &[u8], body: &Option<Vec<u8>>) -> (r: Vec<u8>)
        requires
            id@.len() == 12,
            name@.len() <= 255,
        ensures
            r@ == wire(id@, meta, name@, body_view(*body)),
    {
        let mut buf: Vec<u8> = Vec::new();
        append(&mut buf, id);
        buf.push(meta);
        buf.push(name.len() as u8);
        append(&mut buf, name);
        match body {
            Some(b) => {
                let len = u64_to_bytes(b.len() as u64);
                append(&mut buf, len.as_slice());
                append(&mut buf, b.as_slice());
            },
            None => {},
        }
        assert(buf@ =~= wire(id@, meta, name@, body_view(*body)));
        buf
    }

    /// Create binary message.
    pub fn raw(id: u128, meta: u8, name: &str, body: Option<Vec<u8>>) -> (r: Vec<u8>)
        requires
            encode_utf8(name@).len() <= 255,
        ensures
            r@ == wire(be_bytes(id as nat, 12), meta, encode_utf8(name@), body_view(body)),
    {
        let id_bytes = u128_to_bytes(id);
        Msg::encode(id_bytes.as_slice(), meta, name.as_bytes(), &body)
    }

    /// The frame of an outgoing message: meta `MSG_REQ` for a request, and
    /// `MSG_WITH_BODY` exactly when there is a body.
    pub fn outbound(id: &[u8], req: bool, name: &str, body: &Option<Vec<u8>>) -> (r: Vec<u8>)
        requires
            id@.len() == 12,
            encode_utf8(name@).len() <= 255,
        ensures
            r@ == wire(id@, meta_for(req, body.is_some()), encode_utf8(name@), body_view(*body)),
    {
        let req_bit: u8 = if req {
            MSG_REQ
        } else {
            0
        };
        let body_bit: u8 = if body.is_some() {
            MSG_WITH_BODY
        } else {
            0
        };
        Msg::encode(id, req_bit | body_bit, name.as_bytes(), body)
    }
}

/// The meta flags of an outgoing message.
pub open spec fn meta_for(req: bool, with_body: bool) -> u8 {
    (if req {
        MSG_REQ
    } else {
        0u8
    }) | (if with_body {
        MSG_WITH_BODY
    } else {
        0u8
    })
}

} // verus!
