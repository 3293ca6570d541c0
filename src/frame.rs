//! The wire format: each frame is an 8-byte big-endian tag length, the tag
//! bytes, an 8-byte big-endian payload length, and the payload bytes.
use vstd::prelude::*;
use vstd::slice::slice_to_vec;
use vstd::utf8::{decode_utf8, encode_utf8, valid_utf8};

verus! {

/// The eight big-endian bytes of `n`.
pub open spec fn be_bytes(n: u64) -> Seq<u8> {
    seq![
        (n >> 56u64) as u8,
        (n >> 48u64) as u8,
        (n >> 40u64) as u8,
        (n >> 32u64) as u8,
        (n >> 24u64) as u8,
        (n >> 16u64) as u8,
        (n >> 8u64) as u8,
        n as u8,
    ]
}

/// The number whose big-endian bytes are the first eight of `s`.
#[verifier::opaque]
pub open spec fn be_value(s: Seq<u8>) -> u64
    recommends
        s.len() >= 8,
{
    (s[0] as u64) << 56u64 | (s[1] as u64) << 48u64 | (s[2] as u64) << 40u64 | (s[3] as u64)
        << 32u64 | (s[4] as u64) << 24u64 | (s[5] as u64) << 16u64 | (s[6] as u64) << 8u64
        | (s[7] as u64)
}

/// Reading back the bytes of a length gives the length.
pub proof fn lemma_be_round_trip(n: u64)
    ensures
        be_value(be_bytes(n)) == n,
{
    reveal(be_value);
    let b0 = (n >> 56u64) as u8;
    let b1 = (n >> 48u64) as u8;
    let b2 = (n >> 40u64) as u8;
    let b3 = (n >> 32u64) as u8;
    let b4 = (n >> 24u64) as u8;
    let b5 = (n >> 16u64) as u8;
    let b6 = (n >> 8u64) as u8;
    let b7 = n as u8;
    assert(b0 == (n >> 56u64) as u8 && b1 == (n >> 48u64) as u8 && b2 == (n >> 40u64) as u8 && b3
        == (n >> 32u64) as u8 && b4 == (n >> 24u64) as u8 && b5 == (n >> 16u64) as u8 && b6 == (n
        >> 8u64) as u8 && b7 == n as u8 ==> (b0 as u64) << 56u64 | (b1 as u64) << 48u64 | (b2
        as u64) << 40u64 | (b3 as u64) << 32u64 | (b4 as u64) << 24u64 | (b5 as u64) << 16u64 | (
    b6 as u64) << 8u64 | (b7 as u64) == n) by (bit_vector);
}

fn push_be_u64(out: &mut Vec<u8>, n: u64)
    ensures
        final(out)@ == old(out)@ + be_bytes(n),
{
    out.push((n >> 56u64) as u8);
    out.push((n >> 48u64) as u8);
    out.push((n >> 40u64) as u8);
    out.push((n >> 32u64) as u8);
    out.push((n >> 24u64) as u8);
    out.push((n >> 16u64) as u8);
    out.push((n >> 8u64) as u8);
    out.push(n as u8);
    assert(out@ =~= old(out)@ + be_bytes(n));
}

fn read_be_u64(buf: &[u8], at: usize) -> (r: u64)
    requires
        at + 8 <= buf@.len(),
    ensures
        r == be_value(buf@.subrange(at as int, at + 8)),
{
    proof {
        reveal(be_value);
    }
    (buf[at] as u64) << 56u64 | (buf[at + 1] as u64) << 48u64 | (buf[at + 2] as u64) << 40u64
        | (buf[at + 3] as u64) << 32u64 | (buf[at + 4] as u64) << 24u64 | (buf[at + 5] as u64)
        << 16u64 | (buf[at + 6] as u64) << 8u64 | (buf[at + 7] as u64)
}

/// The bytes of one frame carrying `tag` (already UTF-8 encoded) and `payload`.
pub open spec fn frame_bytes(tag: Seq<u8>, payload: Seq<u8>) -> Seq<u8> {
    be_bytes(tag.len() as u64) + tag + be_bytes(payload.len() as u64) + payload
}

/// The frame that starts `s`, if all of it is there: its tag bytes, its payload,
/// and how many bytes it takes.
pub open spec fn first_frame(s: Seq<u8>) -> Option<(Seq<u8>, Seq<u8>, int)> {
    if s.len() < 8 {
        None
    } else {
        let n1 = be_value(s) as int;
        if s.len() < 16 + n1 {
            None
        } else {
            let n2 = be_value(s.subrange(8 + n1, s.len() as int)) as int;
            if s.len() < 16 + n1 + n2 {
                None
            } else {
                Some((s.subrange(8, 8 + n1), s.subrange(16 + n1, 16 + n1 + n2), 16 + n1 + n2))
            }
        }
    }
}

/// The four fields of a frame, in wire order.
#[derive(Clone, Copy, Debug, PartialEq, Eq, Structural)]
pub enum Field {
    TagLength,
    Tag,
    PayloadLength,
    Payload,
}

/// How a stream stands when its bytes stop.
#[derive(Clone, Copy, Debug, PartialEq, Eq, Structural)]
pub enum StreamEnd {
    /// At a frame boundary: a clean disconnect.
    Clean,
    /// Inside a frame, in the given field.
    Truncated(Field),
    /// Whole frames are still waiting to be taken.
    FramesPending,
}

/// How a stream whose unread bytes are `s` stands if no more bytes come.
pub open spec fn stream_end(s: Seq<u8>) -> StreamEnd {
    if s.len() == 0 {
        StreamEnd::Clean
    } else if first_frame(s) is Some {
        StreamEnd::FramesPending
    } else if s.len() < 8 {
        StreamEnd::Truncated(Field::TagLength)
    } else if s.len() < 8 + be_value(s) {
        StreamEnd::Truncated(Field::Tag)
    } else if s.len() < 16 + be_value(s) {
        StreamEnd::Truncated(Field::PayloadLength)
    } else {
        StreamEnd::Truncated(Field::Payload)
    }
}

/// One frame as handed to message handlers.
pub struct Frame {
    pub tag: String,
    pub payload: Vec<u8>,
}

/// What the reader takes from the stream.
pub enum Inbound {
    /// A frame with a UTF-8 tag, to be dispatched.
    Message(Frame),
    /// A whole frame whose tag is not UTF-8: consumed and dropped.
    InvalidTag,
}

/// What the reader makes of a whole frame with tag bytes `tag` and payload `payload`.
pub open spec fn inbound_of(i: Inbound, tag: Seq<u8>, payload: Seq<u8>) -> bool {
    match i {
        Inbound::Message(f) => valid_utf8(tag) && f.tag@ == decode_utf8(tag) && f.payload@
            == payload,
        Inbound::InvalidTag => !valid_utf8(tag),
    }
}

/// Relies on String::from_utf8: it accepts exactly the well-formed UTF-8
/// byte sequences and keeps the characters they encode.
#[verifier::external_body]
fn utf8_string(bytes: Vec<u8>) -> (r: Option<String>)
    ensures
        r is Some <==> valid_utf8(bytes@),
        r matches Some(s) ==> s@ == decode_utf8(bytes@),
{
    String::from_utf8(bytes).ok()
}

/// Encodes one frame carrying `tag` and `payload`.
pub fn encode_frame(tag: &str, payload: &[u8]) -> (r: Vec<u8>)
    ensures
        r@ == frame_bytes(encode_utf8(tag@), payload@),
{
    let tag_bytes = tag.as_bytes();
    let mut out: Vec<u8> = Vec::new();
    push_be_u64(&mut out, tag_bytes.len() as u64);
    out.extend_from_slice(tag_bytes);
    push_be_u64(&mut out, payload.len() as u64);
    out.extend_from_slice(payload);
    assert(out@ =~= frame_bytes(encode_utf8(tag@), payload@));
    out
}

/// Splits a byte stream, handed over in pieces of any size, into frames.
pub struct Deframer {
    buf: Vec<u8>,
    start: usize,
}

impl View for Deframer {
    type V = Seq<u8>;

    /// The bytes received and not yet taken as frames.
    closed spec fn view(&self) -> Seq<u8> {
        self.buf@.subrange(self.start as int, self.buf@.len() as int)
    }
}

impl Deframer {
    pub closed spec fn wf(&self) -> bool {
        self.start <= self.buf@.len()
    }

    pub fn new() -> (r: Deframer)
        ensures
            r.wf(),
            r@ == Seq::<u8>::empty(),
    {
        let r = Deframer { buf: Vec::new(), start: 0 };
        assert(r@ =~= Seq::<u8>::empty());
        r
    }

    /// Appends bytes read from the stream.
    pub fn push_bytes(&mut self, bytes: &[u8])
        requires
            old(self).wf(),
        ensures
            final(self).wf(),
            final(self)@ == old(self)@ + bytes@,
    {
        if self.start > 0 {
            let rest = self.buf.split_off(self.start);
            self.buf = rest;
            self.start = 0;
        }
        self.buf.extend_from_slice(bytes);
        assert(self@ =~= old(self)@ + bytes@);
    }

    /// Takes the next whole frame, if all of it has arrived.
    pub fn next_frame(&mut self) -> (r: Option<Inbound>)
        requires
            old(self).wf(),
        ensures
            final(self).wf(),
            match first_frame(old(self)@) {
                None => r is None && final(self)@ == old(self)@,
                Some((tag, payload, len)) => r matches Some(i) && inbound_of(i, tag, payload)
                    && final(self)@ == old(self)@.subrange(len, old(self)@.len() as int),
            },
    {
        let ghost s = self@;
        proof {
            reveal(be_value);
        }
        let start = self.start;
        let avail = self.buf.len() - start;
        if avail < 8 {
            return None;
        }
        let n1 = read_be_u64(self.buf.as_slice(), start);
        assert(self.buf@.subrange(start as int, start + 8) =~= s.subrange(0, 8));
        assert(be_value(s.subrange(0, 8)) == be_value(s));
        if avail < 16 || n1 > (avail - 16) as u64 {
            return None;
        }
        let n1 = n1 as usize;
        let n2 = read_be_u64(self.buf.as_slice(), start + 8 + n1);
        let ghost rest = s.subrange(8 + n1, s.len() as int);
        assert(self.buf@.subrange(start + 8 + n1, start + 16 + n1) =~= rest.subrange(0, 8));
        assert(be_value(rest.subrange(0, 8)) == be_value(rest));
        if n2 > (avail - 16 - n1) as u64 {
            return None;
        }
        let n2 = n2 as usize;
        let tag = slice_to_vec(&self.buf.as_slice()[start + 8..start + 8 + n1]);
        let payload = slice_to_vec(&self.buf.as_slice()[start + 16 + n1..start + 16 + n1 + n2]);
        assert(tag@ =~= s.subrange(8, 8 + n1));
        assert(payload@ =~= s.subrange(16 + n1, 16 + n1 + n2));
        self.start = start + 16 + n1 + n2;
        assert(self@ =~= s.subrange(16 + n1 + n2, s.len() as int));
        match utf8_string(tag) {
            Some(text) => Some(Inbound::Message(Frame { tag: text, payload })),
            None => Some(Inbound::InvalidTag),
        }
    }

    /// How the stream stands if it ends now.
    pub fn end_of_stream(&self) -> (r: StreamEnd)
        requires
            self.wf(),
        ensures
            r == stream_end(self@),
    {
        let ghost s = self@;
        proof {
            reveal(be_value);
        }
        let start = self.start;
        let avail = self.buf.len() - start;
        if avail == 0 {
            return StreamEnd::Clean;
        }
        if avail < 8 {
            return StreamEnd::Truncated(Field::TagLength);
        }
        let n1 = read_be_u64(self.buf.as_slice(), start);
        assert(self.buf@.subrange(start as int, start + 8) =~= s.subrange(0, 8));
        assert(be_value(s.subrange(0, 8)) == be_value(s));
        if n1 > (avail - 8) as u64 {
            return StreamEnd::Truncated(Field::Tag);
        }
        let n1 = n1 as usize;
        if avail - 8 - n1 < 8 {
            return StreamEnd::Truncated(Field::PayloadLength);
        }
        let n2 = read_be_u64(self.buf.as_slice(), start + 8 + n1);
        let ghost rest = s.subrange(8 + n1, s.len() as int);
        assert(self.buf@.subrange(start + 8 + n1, start + 16 + n1) =~= rest.subrange(0, 8));
        assert(be_value(rest.subrange(0, 8)) == be_value(rest));
        if n2 > (avail - 16 - n1) as u64 {
            return StreamEnd::Truncated(Field::Payload);
        }
        StreamEnd::FramesPending
    }
}

/// `be_value` reads only the first eight bytes.
proof fn lemma_be_value_prefix(a: Seq<u8>, b: Seq<u8>)
    requires
        a.len() >= 8,
        b.len() >= 8,
        a.subrange(0, 8) == b.subrange(0, 8),
    ensures
        be_value(a) == be_value(b),
{
    reveal(be_value);
    assert forall|i: int| 0 <= i < 8 implies a[i] == b[i] by {
        assert(a[i] == a.subrange(0, 8)[i]);
        assert(b[i] == b.subrange(0, 8)[i]);
    }
}

/// Bytes that start with a whole frame yield that frame's tag bytes and
/// payload first, and what follows it is left.
pub proof fn lemma_first_frame_of(tag: Seq<u8>, payload: Seq<u8>, rest: Seq<u8>)
    requires
        tag.len() <= u64::MAX,
        payload.len() <= u64::MAX,
    ensures
        ({
            let bytes = frame_bytes(tag, payload);
            &&& first_frame(bytes + rest) == Some((tag, payload, bytes.len() as int))
            &&& (bytes + rest).subrange(bytes.len() as int, (bytes + rest).len() as int) == rest
        }),
{
    let n1 = tag.len() as int;
    let n2 = payload.len() as int;
    let bytes = frame_bytes(tag, payload);
    let s = bytes + rest;
    lemma_be_round_trip(tag.len() as u64);
    lemma_be_round_trip(payload.len() as u64);
    assert(s.subrange(0, 8) =~= be_bytes(tag.len() as u64).subrange(0, 8));
    lemma_be_value_prefix(s, be_bytes(tag.len() as u64));
    let tail = s.subrange(8 + n1, s.len() as int);
    assert(tail.subrange(0, 8) =~= be_bytes(payload.len() as u64).subrange(0, 8));
    lemma_be_value_prefix(tail, be_bytes(payload.len() as u64));
    assert(s.subrange(8, 8 + n1) =~= tag);
    assert(s.subrange(16 + n1, 16 + n1 + n2) =~= payload);
    assert(s.subrange(bytes.len() as int, s.len() as int) =~= rest);
}

/// Frames read back as written: bytes that start with the encoding of a tag
/// and a payload yield that tag and payload as a message, and what follows
/// the frame is left unread.
pub proof fn lemma_frame_round_trip(tag: Seq<char>, payload: Seq<u8>, rest: Seq<u8>)
    requires
        encode_utf8(tag).len() <= u64::MAX,
        payload.len() <= u64::MAX,
    ensures
        ({
            let bytes = frame_bytes(encode_utf8(tag), payload);
            &&& first_frame(bytes + rest) == Some((encode_utf8(tag), payload, bytes.len() as int))
            &&& (bytes + rest).subrange(bytes.len() as int, (bytes + rest).len() as int) == rest
        }),
        forall|i: Inbound|
            inbound_of(i, encode_utf8(tag), payload) ==> (i matches Inbound::Message(f) && f.tag@
                == tag && f.payload@ == payload),
{
    lemma_first_frame_of(encode_utf8(tag), payload, rest);
    vstd::utf8::encode_utf8_valid_utf8(tag);
    vstd::utf8::encode_utf8_decode_utf8(tag);
}

/// Which field a frame with a `tag_len`-byte tag is cut in after `k` of its bytes.
pub open spec fn field_at(tag_len: int, k: int) -> Field {
    if k < 8 {
        Field::TagLength
    } else if k < 8 + tag_len {
        Field::Tag
    } else if k < 16 + tag_len {
        Field::PayloadLength
    } else {
        Field::Payload
    }
}

/// A stream cut short inside a frame yields no frame; ending there is a
/// truncation in the field where the cut fell, and a cut before the frame's
/// first byte is a clean end.
pub proof fn lemma_truncated_frame(tag: Seq<u8>, payload: Seq<u8>, k: int)
    requires
        tag.len() <= u64::MAX,
        payload.len() <= u64::MAX,
        0 <= k < frame_bytes(tag, payload).len(),
    ensures
        first_frame(frame_bytes(tag, payload).take(k)) is None,
        stream_end(frame_bytes(tag, payload).take(k)) == if k == 0 {
            StreamEnd::Clean
        } else {
            StreamEnd::Truncated(field_at(tag.len() as int, k))
        },
{
    let n1 = tag.len() as int;
    let bytes = frame_bytes(tag, payload);
    let s = bytes.take(k);
    lemma_be_round_trip(tag.len() as u64);
    lemma_be_round_trip(payload.len() as u64);
    if k >= 8 {
        assert(s.subrange(0, 8) =~= be_bytes(tag.len() as u64).subrange(0, 8));
        lemma_be_value_prefix(s, be_bytes(tag.len() as u64));
    }
    if k >= 16 + n1 {
        let tail = s.subrange(8 + n1, s.len() as int);
        assert(tail.subrange(0, 8) =~= be_bytes(payload.len() as u64).subrange(0, 8));
        lemma_be_value_prefix(tail, be_bytes(payload.len() as u64));
    }
}

/// The bytes of a run of frames, each given as tag bytes and payload.
pub open spec fn frames_bytes(frames: Seq<(Seq<u8>, Seq<u8>)>) -> Seq<u8>
    decreases frames.len(),
{
    if frames.len() == 0 {
        seq![]
    } else {
        frame_bytes(frames[0].0, frames[0].1) + frames_bytes(frames.drop_first())
    }
}

/// The whole frames a reader takes from the start of `s`, one after the other,
/// as tag bytes and payload.
pub open spec fn whole_frames(s: Seq<u8>) -> Seq<(Seq<u8>, Seq<u8>)>
    decreases s.len(),
{
    match first_frame(s) {
        Some((tag, payload, n)) => if 0 < n <= s.len() {
            seq![(tag, payload)] + whole_frames(s.subrange(n, s.len() as int))
        } else {
            seq![]
        },
        None => seq![],
    }
}

/// What is left of `s` once its whole frames are taken.
pub open spec fn unread_after_frames(s: Seq<u8>) -> Seq<u8>
    decreases s.len(),
{
    match first_frame(s) {
        Some((tag, payload, n)) => if 0 < n <= s.len() {
            unread_after_frames(s.subrange(n, s.len() as int))
        } else {
            s
        },
        None => s,
    }
}

/// Every frame of the run has lengths that fit a length field.
pub open spec fn frames_fit(frames: Seq<(Seq<u8>, Seq<u8>)>) -> bool {
    forall|j: int| 0 <= j < frames.len() ==> #[trigger] frames[j].0.len() <= u64::MAX && frames[j].1.len() <= u64::MAX
}

/// A run of whole frames followed by bytes that hold no whole frame yields
/// exactly those frames, in order, and leaves those bytes.
pub proof fn lemma_frames_then_rest(frames: Seq<(Seq<u8>, Seq<u8>)>, rest: Seq<u8>)
    requires
        frames_fit(frames),
        first_frame(rest) is None,
    ensures
        whole_frames(frames_bytes(frames) + rest) == frames,
        unread_after_frames(frames_bytes(frames) + rest) == rest,
    decreases frames.len(),
{
    if frames.len() == 0 {
        assert(frames_bytes(frames) + rest =~= rest);
        assert(frames =~= Seq::<(Seq<u8>, Seq<u8>)>::empty());
    } else {
        let tail = frames.drop_first();
        assert(frames_fit(tail)) by {
            assert forall|j: int| 0 <= j < tail.len() implies #[trigger] tail[j].0.len() <= u64::MAX
                && tail[j].1.len() <= u64::MAX by {
                assert(tail[j] == frames[j + 1]);
            }
        }
        lemma_frames_then_rest(tail, rest);
        let first = frame_bytes(frames[0].0, frames[0].1);
        let after = frames_bytes(tail) + rest;
        assert(frames_bytes(frames) + rest =~= first + after);
        lemma_first_frame_of(frames[0].0, frames[0].1, after);
        assert(frames =~= seq![(frames[0].0, frames[0].1)] + tail);
    }
}

/// A stream cut short inside a frame, after any number of whole frames,
/// yields exactly those whole frames, in order, and none for the cut frame;
/// ending there is a truncation in the field where the cut fell.
pub proof fn lemma_frames_then_cut(
    frames: Seq<(Seq<u8>, Seq<u8>)>,
    tag: Seq<u8>,
    payload: Seq<u8>,
    k: int,
)
    requires
        frames_fit(frames),
        tag.len() <= u64::MAX,
        payload.len() <= u64::MAX,
        0 < k < frame_bytes(tag, payload).len(),
    ensures
        ({
            let s = frames_bytes(frames) + frame_bytes(tag, payload).take(k);
            &&& whole_frames(s) == frames
            &&& unread_after_frames(s) == frame_bytes(tag, payload).take(k)
            &&& stream_end(unread_after_frames(s)) == StreamEnd::Truncated(field_at(tag.len() as int, k))
        }),
{
    lemma_truncated_frame(tag, payload, k);
    lemma_frames_then_rest(frames, frame_bytes(tag, payload).take(k));
}

} // verus!
