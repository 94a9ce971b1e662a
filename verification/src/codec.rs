use vstd::prelude::*;

use crate::errors::NodeError;

verus! {

/// One message on a peer's control stream: subscription announcements,
/// graft/prune decisions, and data carrying a topic and a payload. The
/// kinds are distinguishable on the wire by their leading tag byte.
pub enum Frame {
    Subscribe(Vec<u8>),
    Unsubscribe(Vec<u8>),
    Graft(Vec<u8>),
    Prune(Vec<u8>),
    Data { topic: Vec<u8>, payload: Vec<u8> },
}

impl Frame {
    /// The tag byte that names the kind on the wire.
    pub open spec fn tag_of(self) -> u8 {
        match self {
            Frame::Subscribe(_) => 1,
            Frame::Unsubscribe(_) => 2,
            Frame::Graft(_) => 3,
            Frame::Prune(_) => 4,
            Frame::Data { .. } => 5,
        }
    }

    pub open spec fn topic_of(self) -> Seq<u8> {
        match self {
            Frame::Subscribe(t) => t@,
            Frame::Unsubscribe(t) => t@,
            Frame::Graft(t) => t@,
            Frame::Prune(t) => t@,
            Frame::Data { topic, .. } => topic@,
        }
    }

    /// The payload; empty for every control kind.
    pub open spec fn payload_of(self) -> Seq<u8> {
        match self {
            Frame::Data { payload, .. } => payload@,
            _ => Seq::<u8>::empty(),
        }
    }

    /// A frame fits on the wire when its topic length fits the two length
    /// bytes.
    pub open spec fn wf(self) -> bool {
        self.topic_of().len() <= 0xFFFF
    }
}

/// The bytes of a frame: a tag byte, two big-endian topic-length bytes,
/// the topic, then (for data) the payload, which runs to the end.
pub open spec fn encode_spec(f: Frame) -> Seq<u8> {
    seq![
        f.tag_of(),
        (f.topic_of().len() / 256) as u8,
        (f.topic_of().len() % 256) as u8,
    ] + f.topic_of() + f.payload_of()
}

/// Exactly the byte strings some well-formed frame encodes to: a known
/// tag, and a length that matches the topic-length bytes (control frames
/// carry nothing after the topic; data frames may).
pub open spec fn frame_bytes_wf(s: Seq<u8>) -> bool {
    &&& s.len() >= 3
    &&& 1 <= s[0] <= 5
    &&& (s[0] != 5 ==> s.len() == 3 + (s[1] as int) * 256 + (s[2] as int))
    &&& (s[0] == 5 ==> s.len() >= 3 + (s[1] as int) * 256 + (s[2] as int))
}

/// Append a byte string to a buffer.
fn push_all(out: &mut Vec<u8>, bytes: &Vec<u8>)
    ensures
        final(out)@ == old(out)@ + bytes@,
{
    let mut k: usize = 0;
    while k < bytes.len()
        invariant
            0 <= k <= bytes@.len(),
            out@ == old(out)@ + bytes@.take(k as int),
        decreases bytes@.len() - k,
    {
        out.push(bytes[k]);
        proof {
            assert(out@ =~= old(out)@ + bytes@.take(k + 1 as int));
        }
        k += 1;
    }
    proof {
        assert(old(out)@ + bytes@.take(bytes@.len() as int) =~= old(out)@ + bytes@);
    }
}

/// The bytes of `s` from `from` (inclusive) to `to` (exclusive).
fn copy_range(s: &Vec<u8>, from: usize, to: usize) -> (out: Vec<u8>)
    requires
        from <= to <= s@.len(),
    ensures
        out@ == s@.subrange(from as int, to as int),
{
    let mut out: Vec<u8> = Vec::new();
    let mut k = from;
    while k < to
        invariant
            from <= k <= to <= s@.len(),
            out@ == s@.subrange(from as int, k as int),
        decreases to - k,
    {
        out.push(s[k]);
        proof {
            assert(out@ =~= s@.subrange(from as int, k + 1 as int));
        }
        k += 1;
    }
    out
}

/// Encode a frame for the wire.
pub fn encode_frame(f: &Frame) -> (out: Vec<u8>)
    requires
        f.wf(),
    ensures
        out@ == encode_spec(*f),
{
    let mut out: Vec<u8> = Vec::new();
    let (tag, topic): (u8, &Vec<u8>) = match f {
        Frame::Subscribe(t) => (1, t),
        Frame::Unsubscribe(t) => (2, t),
        Frame::Graft(t) => (3, t),
        Frame::Prune(t) => (4, t),
        Frame::Data { topic, .. } => (5, topic),
    };
    out.push(tag);
    out.push((topic.len() / 256) as u8);
    out.push((topic.len() % 256) as u8);
    push_all(&mut out, topic);
    match f {
        Frame::Data { payload, .. } => {
            push_all(&mut out, payload);
        },
        _ => {},
    }
    proof {
        assert(out@ =~= encode_spec(*f));
    }
    out
}

/// Decode one frame from the wire. Exactly the well-formed frame byte
/// strings decode, to a frame that encodes back to the very same bytes;
/// anything else is the per-peer `PerPeerProtocol` error: the message is
/// discarded and no other peer is affected.
pub fn decode_frame(s: &Vec<u8>) -> (r: Result<Frame, NodeError>)
    ensures
        match r {
            Ok(f) => frame_bytes_wf(s@) && f.wf() && encode_spec(f) == s@,
            Err(e) => !frame_bytes_wf(s@) && e == NodeError::PerPeerProtocol,
        },
{
    if s.len() < 3 {
        return Err(NodeError::PerPeerProtocol);
    }
    let tag = s[0];
    if tag < 1 || tag > 5 {
        return Err(NodeError::PerPeerProtocol);
    }
    let tl: usize = (s[1] as usize) * 256 + (s[2] as usize);
    if tag != 5 {
        if s.len() != 3 + tl {
            return Err(NodeError::PerPeerProtocol);
        }
    } else {
        if s.len() < 3 + tl {
            return Err(NodeError::PerPeerProtocol);
        }
    }
    let topic = copy_range(s, 3, 3 + tl);
    proof {
        assert(topic@.len() == tl as int);
        assert((tl as int) / 256 == s@[1] as int && (tl as int) % 256 == s@[2] as int) by {
            assert(s@[1] as int * 256 + s@[2] as int == tl as int);
            assert((s@[2] as int) < 256);
        }
    }
    let f = match tag {
        1 => Frame::Subscribe(topic),
        2 => Frame::Unsubscribe(topic),
        3 => Frame::Graft(topic),
        4 => Frame::Prune(topic),
        _ => {
            let payload = copy_range(s, 3 + tl, s.len());
            Frame::Data { topic, payload }
        },
    };
    proof {
        assert(encode_spec(f) =~= s@);
    }
    Ok(f)
}

/// The topic length the wire bytes carry, from the two length bytes.
pub open spec fn wire_tlen(s: Seq<u8>) -> int {
    (s[1] as int) * 256 + (s[2] as int)
}

/// The topic the wire bytes carry.
pub open spec fn wire_topic(s: Seq<u8>) -> Seq<u8> {
    s.subrange(3, 3 + wire_tlen(s))
}

/// The payload the wire bytes carry: everything after the topic.
pub open spec fn wire_payload(s: Seq<u8>) -> Seq<u8> {
    s.subrange(3 + wire_tlen(s), s.len() as int)
}

/// A frame's kind, topic and payload are exactly what its encoded bytes
/// carry, so a dispatcher's effect can be stated over the bytes alone.
pub proof fn lemma_wire_fields(f: Frame, s: Seq<u8>)
    requires
        f.wf(),
        encode_spec(f) == s,
    ensures
        s.len() >= 3,
        f.tag_of() == s[0],
        f.topic_of() == wire_topic(s),
        f.payload_of() == wire_payload(s),
{
    let l = f.topic_of().len() as int;
    assert((l / 256) * 256 + l % 256 == l);
    assert(s[1] as int == l / 256 && s[2] as int == l % 256);
    assert(l / 256 < 256);
    assert(wire_tlen(s) == l);
    assert(s.len() == 3 + l + f.payload_of().len());
    assert forall|k: int| 0 <= k < l implies wire_topic(s)[k] == f.topic_of()[k] by {
        assert(s[3 + k] == f.topic_of()[k]);
    }
    assert(f.topic_of() =~= wire_topic(s));
    assert forall|k: int| 0 <= k < f.payload_of().len() implies wire_payload(s)[k]
        == f.payload_of()[k] by {
        assert(s[3 + l + k] == f.payload_of()[k]);
    }
    assert(f.payload_of() =~= wire_payload(s));
}

/// Frames are distinguishable on the wire: two well-formed frames with the
/// same bytes have the same kind, the same topic and the same payload, so
/// a round trip through the codec loses nothing.
pub proof fn lemma_encode_injective(f1: Frame, f2: Frame)
    requires
        f1.wf(),
        f2.wf(),
        encode_spec(f1) == encode_spec(f2),
    ensures
        f1.tag_of() == f2.tag_of(),
        f1.topic_of() == f2.topic_of(),
        f1.payload_of() == f2.payload_of(),
{
    let s1 = encode_spec(f1);
    let s2 = encode_spec(f2);
    assert(s1[0] == f1.tag_of() && s2[0] == f2.tag_of());
    let l1 = f1.topic_of().len() as int;
    let l2 = f2.topic_of().len() as int;
    assert(s1[1] == (l1 / 256) as u8 && s1[2] == (l1 % 256) as u8);
    assert((l1 / 256) * 256 + l1 % 256 == l1 && (l2 / 256) * 256 + l2 % 256 == l2);
    assert(l1 / 256 < 256 && l2 / 256 < 256);
    assert(l1 == l2);
    assert forall|k: int| 0 <= k < l1 implies f1.topic_of()[k] == f2.topic_of()[k] by {
        assert(s1[3 + k] == f1.topic_of()[k]);
        assert(s2[3 + k] == f2.topic_of()[k]);
    }
    assert(f1.topic_of() =~= f2.topic_of());
    assert(s1.len() == 3 + l1 + f1.payload_of().len());
    assert(s2.len() == 3 + l2 + f2.payload_of().len());
    assert forall|k: int| 0 <= k < f1.payload_of().len() implies f1.payload_of()[k]
        == f2.payload_of()[k] by {
        assert(s1[3 + l1 + k] == f1.payload_of()[k]);
        assert(s2[3 + l2 + k] == f2.payload_of()[k]);
    }
    assert(f1.payload_of() =~= f2.payload_of());
}

/// Every well-formed frame's encoding decodes: its bytes satisfy the wire
/// shape the decoder accepts.
pub proof fn lemma_encode_decodable(f: Frame)
    requires
        f.wf(),
    ensures
        frame_bytes_wf(encode_spec(f)),
{
    let s = encode_spec(f);
    let l = f.topic_of().len() as int;
    assert((l / 256) * 256 + l % 256 == l);
    assert(s[1] as int == l / 256 && s[2] as int == l % 256);
    assert(s.len() == 3 + l + f.payload_of().len());
}

} // verus!
