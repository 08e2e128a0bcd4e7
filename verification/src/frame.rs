//! Frames: one envelope behind the varint of its length.
//!
//! The codec keeps no state. A caller gathers bytes in a buffer of its own,
//! asks `decode` what the buffer holds, and drops the bytes of each frame
//! that was read.

use vstd::prelude::*;
use vstd::slice::slice_subrange;
use crate::packet::{
    encode_packet,
    envelope_bytes,
    lemma_unknown_kind_refused,
    lemma_parse_packet_bytes,
    packet_bytes,
    parse_packet,
    Packet,
    PacketType,
    PacketView,
};
use crate::varint::{
    decode_length_delimiter,
    encode_varint,
    lemma_leb128_bounds,
    lemma_leb128_of_bytes,
    lemma_leb128_shape,
    lemma_leb128_truncated,
    lemma_varint_len,
    parse_length_delimiter,
    parse_varint,
    varint_bytes,
    varint_len,
};

verus! {

/// What a buffer holds at its front.
#[derive(Debug, PartialEq, Eq)]
pub enum Decoded {
    /// A whole frame, with the number of bytes it takes.
    Frame { packet: Packet, consumed: usize },
    /// Less than a whole frame: more bytes have to arrive.
    NeedMoreData,
    /// A whole frame that holds no valid envelope.
    Malformed,
}

/// What a buffer holds at its front, as plain values.
pub enum DecodedView {
    Frame { packet: PacketView, consumed: nat },
    NeedMoreData,
    Malformed,
}

impl View for Decoded {
    type V = DecodedView;

    open spec fn view(&self) -> DecodedView {
        match self {
            Decoded::Frame { packet, consumed } => DecodedView::Frame {
                packet: packet@,
                consumed: *consumed as nat,
            },
            Decoded::NeedMoreData => DecodedView::NeedMoreData,
            Decoded::Malformed => DecodedView::Malformed,
        }
    }
}

/// A frame: the shortest varint of the length of `body`, then `body`.
pub open spec fn framed(body: Seq<u8>) -> Seq<u8> {
    varint_bytes(body.len()) + body
}

/// The frame of an envelope.
pub open spec fn frame_bytes(p: PacketView) -> Seq<u8> {
    framed(packet_bytes(p))
}

/// An envelope whose bytes a buffer can hold.
pub open spec fn fits(p: PacketView) -> bool {
    packet_bytes(p).len() <= usize::MAX
}

/// What `buf` holds at its front.
///
/// Until the length prefix can be read and the buffer holds the prefix and
/// as many bytes as it announces, more data is needed; so it is for a
/// prefix that no further byte can complete, ten bytes and more without an
/// end. A frame of the announced size is malformed when its prefix is not
/// the shortest varint of the length or when the bytes behind the prefix
/// are no envelope.
#[verifier::opaque]
pub open spec fn decode_frame(buf: Seq<u8>) -> DecodedView {
    match parse_length_delimiter(buf) {
        None => DecodedView::NeedMoreData,
        Some(len) => {
            let k = varint_len(len as nat);
            if buf.len() < len + k {
                DecodedView::NeedMoreData
            } else if parse_varint(buf).unwrap().1 != k {
                DecodedView::Malformed
            } else {
                match parse_packet(buf.subrange(k as int, k + len)) {
                    Some(packet) => DecodedView::Frame { packet, consumed: k + len as nat },
                    None => DecodedView::Malformed,
                }
            }
        },
    }
}

/// Builds the frame of an envelope made of `kind`, `version` and `payload`.
pub fn encode(kind: PacketType, version: &str, payload: &[u8]) -> (out: Vec<u8>)
    ensures
        out@ == frame_bytes(PacketView { version: version@, kind, data: payload@ }),
{
    let body = encode_packet(kind, version, payload);
    let mut out: Vec<u8> = Vec::new();
    encode_varint(body.len() as u64, &mut out);
    out.extend_from_slice(body.as_slice());
    proof {
        assert(out@ =~= frame_bytes(PacketView { version: version@, kind, data: payload@ }));
    }
    out
}

/// Says what `buf` holds at its front. The buffer is only read: a caller
/// drops `consumed` bytes after a frame, and nothing when more data is
/// needed.
pub fn decode(buf: &[u8]) -> (r: Decoded)
    ensures
        r@ == decode_frame(buf@),
        r matches Decoded::Frame { consumed, .. } ==> 0 < consumed <= buf.len(),
{
    reveal(decode_frame);
    let len: usize = match decode_length_delimiter(buf) {
        Some(len) => len,
        None => { return Decoded::NeedMoreData; },
    };
    let k: usize = prost::length_delimiter_len(len);
    proof {
        lemma_varint_len(len as nat);
    }
    if buf.len() < k || buf.len() - k < len {
        return Decoded::NeedMoreData;
    }
    proof {
        lemma_leb128_shape(buf@, 10);
        lemma_leb128_bounds(buf@, 10);
    }
    if buf[k - 1] >= 0x80 {
        return Decoded::Malformed;
    }
    match Packet::decode(slice_subrange(buf, k, k + len)) {
        Some(packet) => Decoded::Frame { packet, consumed: k + len },
        None => Decoded::Malformed,
    }
}

/// A frame at the front of a buffer is read for what its body spells,
/// whatever follows it: an envelope, or nothing valid.
pub proof fn lemma_decode_framed(body: Seq<u8>, rest: Seq<u8>)
    requires
        body.len() <= usize::MAX,
    ensures
        decode_frame(framed(body) + rest) == match parse_packet(body) {
            Some(packet) => DecodedView::Frame { packet, consumed: framed(body).len() },
            None => DecodedView::Malformed,
        },
{
    reveal(decode_frame);
    let len = body.len();
    let k = varint_len(len);
    let buf = framed(body) + rest;
    lemma_varint_len(len);
    assert(buf =~= varint_bytes(len) + (body + rest));
    lemma_leb128_of_bytes(len, body + rest, 10);
    assert(buf.subrange(k as int, (k + len) as int) =~= body);
}

/// A frame is read back as the envelope it was made from, whatever follows
/// it in the buffer.
pub proof fn lemma_decode_frame_bytes(p: PacketView, rest: Seq<u8>)
    requires
        fits(p),
    ensures
        decode_frame(frame_bytes(p) + rest) == (DecodedView::Frame {
            packet: p,
            consumed: frame_bytes(p).len(),
        }),
{
    lemma_decode_framed(packet_bytes(p), rest);
    lemma_packet_parts_fit(p);
    lemma_parse_packet_bytes(p);
}

/// A frame whose envelope names a kind that is none of the four defined is
/// malformed.
pub proof fn lemma_decode_unknown_kind(version: Seq<char>, kind: u64, data: Seq<u8>, rest: Seq<u8>)
    requires
        envelope_bytes(version, kind, data).len() <= usize::MAX,
        !(1 <= kind as u32 <= 4),
    ensures
        decode_frame(framed(envelope_bytes(version, kind, data)) + rest)
            == DecodedView::Malformed,
{
    lemma_decode_framed(envelope_bytes(version, kind, data), rest);
    lemma_unknown_kind_refused(version, kind, data);
}

/// The parts of an envelope are no longer than the envelope.
proof fn lemma_packet_parts_fit(p: PacketView)
    ensures
        vstd::utf8::encode_utf8(p.version).len() <= packet_bytes(p).len(),
        p.data.len() <= packet_bytes(p).len(),
{
}

/// A frame that has not wholly arrived asks for more data.
pub proof fn lemma_decode_frame_truncated(p: PacketView, k: int)
    requires
        fits(p),
        0 <= k < frame_bytes(p).len(),
    ensures
        decode_frame(frame_bytes(p).subrange(0, k)) == DecodedView::NeedMoreData,
{
    reveal(decode_frame);
    let body = packet_bytes(p);
    let len = body.len();
    let n = varint_len(len);
    let part = frame_bytes(p).subrange(0, k);
    lemma_varint_len(len);
    if k < n {
        assert(part =~= varint_bytes(len).subrange(0, k));
        lemma_leb128_truncated(len, k, 10);
    } else {
        assert(part =~= varint_bytes(len) + body.subrange(0, k - n));
        lemma_leb128_of_bytes(len, body.subrange(0, k - n), 10);
    }
}

/// The envelopes that come out, and the buffer that is left, when the bytes
/// of `incoming` arrive one at a time in a buffer that holds `buf`. After
/// each byte the buffer is decoded: a frame is taken out, a malformed frame
/// empties the buffer.
pub open spec fn absorb(buf: Seq<u8>, incoming: Seq<u8>) -> (Seq<PacketView>, Seq<u8>)
    decreases incoming.len(),
{
    if incoming.len() == 0 {
        (Seq::empty(), buf)
    } else {
        let grown = buf.push(incoming[0]);
        let later = incoming.drop_first();
        match decode_frame(grown) {
            DecodedView::Frame { packet, consumed } => {
                let (packets, left) = absorb(grown.skip(consumed as int), later);
                (seq![packet] + packets, left)
            },
            DecodedView::NeedMoreData => absorb(grown, later),
            DecodedView::Malformed => absorb(Seq::empty(), later),
        }
    }
}

/// The frames of `packets`, one behind the other.
pub open spec fn stream_bytes(packets: Seq<PacketView>) -> Seq<u8>
    decreases packets.len(),
{
    if packets.len() == 0 {
        Seq::empty()
    } else {
        frame_bytes(packets[0]) + stream_bytes(packets.drop_first())
    }
}

proof fn lemma_absorb_frame(p: PacketView, i: int, tail: Seq<u8>)
    requires
        fits(p),
        0 <= i < frame_bytes(p).len(),
    ensures
        absorb(
            frame_bytes(p).subrange(0, i),
            frame_bytes(p).subrange(i, frame_bytes(p).len() as int) + tail,
        ) == (seq![p] + absorb(Seq::empty(), tail).0, absorb(Seq::empty(), tail).1),
    decreases frame_bytes(p).len() - i,
{
    let f = frame_bytes(p);
    let n = f.len() as int;
    let incoming = f.subrange(i, n) + tail;
    let grown = f.subrange(0, i).push(incoming[0]);
    assert(grown =~= f.subrange(0, i + 1));
    assert(incoming.drop_first() =~= f.subrange(i + 1, n) + tail);
    if i + 1 < n {
        lemma_decode_frame_truncated(p, i + 1);
        lemma_absorb_frame(p, i + 1, tail);
    } else {
        assert(grown =~= f + Seq::<u8>::empty());
        lemma_decode_frame_bytes(p, Seq::empty());
        assert(grown.skip(n) =~= Seq::<u8>::empty());
        assert(incoming.drop_first() =~= tail);
    }
}

/// Framing does not depend on how the bytes arrive: when the frames of any
/// envelopes are fed to an empty buffer one byte at a time, exactly these
/// envelopes come out, in their order, and the buffer ends empty.
pub proof fn lemma_stream_byte_by_byte(packets: Seq<PacketView>)
    requires
        forall|i: int| 0 <= i < packets.len() ==> fits(#[trigger] packets[i]),
    ensures
        absorb(Seq::empty(), stream_bytes(packets)) == (packets, Seq::<u8>::empty()),
    decreases packets.len(),
{
    if packets.len() > 0 {
        let p = packets[0];
        let f = frame_bytes(p);
        let later = packets.drop_first();
        let tail = stream_bytes(later);
        lemma_varint_len(packet_bytes(p).len());
        assert(f.subrange(0, 0) =~= Seq::<u8>::empty());
        assert(f.subrange(0, f.len() as int) =~= f);
        lemma_absorb_frame(p, 0, tail);
        assert forall|i: int| 0 <= i < later.len() implies fits(#[trigger] later[i]) by {
            assert(later[i] == packets[i + 1]);
        }
        lemma_stream_byte_by_byte(later);
        assert(seq![p] + later =~= packets);
    }
}

} // verus!
