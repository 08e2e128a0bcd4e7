//! The envelope that every frame carries: a protocol version, the kind of
//! the message, and the message itself as opaque bytes.

use vstd::prelude::*;
use vstd::slice::{slice_subrange, slice_to_vec};
use vstd::utf8::{decode_utf8, encode_utf8, encode_utf8_decode_utf8, encode_utf8_valid_utf8, valid_utf8};
use crate::wire::{
    bytes_field,
    lemma_merge_step,
    lemma_parse_bytes_field,
    lemma_parse_field_bounds,
    lemma_parse_varint_field,
    merge_fields,
    put_bytes_field,
    put_varint_field,
    read_field,
    string_from_utf8,
    varint_field,
    Value,
    WireField,
    WireValue,
};

verus! {

/// The protocol version that this side writes into every envelope.
pub const PROTOCOL_VERSION: &'static str = "0.1.0";

/// The kinds of message that an envelope can carry.
#[derive(Clone, Copy, Debug, PartialEq, Eq, Structural)]
pub enum PacketType {
    /// Opens a link, and answers the opening.
    Connect,
    /// Sensor readings reported by the boat.
    BoatData,
    /// A planned path sent to the boat.
    PathData,
    /// Acknowledges a path.
    Received,
}

impl PacketType {
    /// The number that stands for this kind on the wire.
    pub open spec fn wire_value(self) -> u64 {
        match self {
            PacketType::Connect => 1,
            PacketType::BoatData => 2,
            PacketType::PathData => 3,
            PacketType::Received => 4,
        }
    }

    /// The kind that `value` stands for, if it stands for one.
    pub open spec fn of_wire(value: u32) -> Option<PacketType> {
        if value == 1 {
            Some(PacketType::Connect)
        } else if value == 2 {
            Some(PacketType::BoatData)
        } else if value == 3 {
            Some(PacketType::PathData)
        } else if value == 4 {
            Some(PacketType::Received)
        } else {
            None
        }
    }

    /// The number that stands for this kind on the wire.
    pub fn to_wire(self) -> (value: u64)
        ensures
            value == self.wire_value(),
            PacketType::of_wire(value as u32) == Some(self),
    {
        match self {
            PacketType::Connect => 1,
            PacketType::BoatData => 2,
            PacketType::PathData => 3,
            PacketType::Received => 4,
        }
    }

    /// The kind that `value` stands for; none for zero, the undefined kind,
    /// and for every number above four.
    pub fn from_wire(value: u32) -> (kind: Option<PacketType>)
        ensures
            kind == PacketType::of_wire(value),
            kind is Some <==> 1 <= value <= 4,
    {
        if value == 1 {
            Some(PacketType::Connect)
        } else if value == 2 {
            Some(PacketType::BoatData)
        } else if value == 3 {
            Some(PacketType::PathData)
        } else if value == 4 {
            Some(PacketType::Received)
        } else {
            None
        }
    }
}

/// One envelope.
#[derive(Clone, Debug, PartialEq, Eq)]
pub struct Packet {
    /// The protocol version of the sender.
    pub version: String,
    /// The kind of the message.
    pub kind: PacketType,
    /// The message, serialized.
    pub data: Vec<u8>,
}

/// What an envelope holds.
pub struct PacketView {
    pub version: Seq<char>,
    pub kind: PacketType,
    pub data: Seq<u8>,
}

impl View for Packet {
    type V = PacketView;

    open spec fn view(&self) -> PacketView {
        PacketView { version: self.version@, kind: self.kind, data: self.data@ }
    }
}

/// The fields of an envelope as read so far, the kind still as its number.
pub struct PacketFields {
    pub version: Seq<char>,
    pub kind: u32,
    pub data: Seq<u8>,
}

/// Takes one field into an envelope. Field 1 is the version, as UTF-8 text;
/// field 2 the kind, as the low 32 bits of a varint; field 3 the message. A
/// later occurrence of a field replaces an earlier one, and fields with
/// other numbers are passed over.
pub open spec fn packet_apply(acc: PacketFields, f: WireField) -> Option<PacketFields> {
    if f.number == 1 {
        match f.value {
            WireValue::Bytes(b) => if valid_utf8(b) {
                Some(PacketFields { version: decode_utf8(b), ..acc })
            } else {
                None
            },
            _ => None,
        }
    } else if f.number == 2 {
        match f.value {
            WireValue::Varint(v) => Some(PacketFields { kind: v as u32, ..acc }),
            _ => None,
        }
    } else if f.number == 3 {
        match f.value {
            WireValue::Bytes(b) => Some(PacketFields { data: b, ..acc }),
            _ => None,
        }
    } else {
        Some(acc)
    }
}

/// `packet_apply` as a value.
pub open spec fn packet_applier() -> spec_fn(PacketFields, WireField) -> Option<PacketFields> {
    |acc: PacketFields, f: WireField| packet_apply(acc, f)
}

/// The envelope that the bytes `s` spell: its fields read in order from an
/// empty envelope, and a kind that is one of the four defined.
pub open spec fn parse_packet(s: Seq<u8>) -> Option<PacketView> {
    let start = PacketFields { version: Seq::empty(), kind: 0, data: Seq::empty() };
    match merge_fields(packet_applier(), start, s) {
        Some(fields) => match PacketType::of_wire(fields.kind) {
            Some(kind) => Some(PacketView { version: fields.version, kind, data: fields.data }),
            None => None,
        },
        None => None,
    }
}

/// The version field of an envelope; an empty version is left out.
pub open spec fn version_part(version: Seq<char>) -> Seq<u8> {
    if version.len() == 0 {
        Seq::empty()
    } else {
        bytes_field(1, encode_utf8(version))
    }
}

/// The message field of an envelope; an empty message is left out.
pub open spec fn data_part(data: Seq<u8>) -> Seq<u8> {
    if data.len() == 0 {
        Seq::empty()
    } else {
        bytes_field(3, data)
    }
}

/// The bytes of an envelope whose kind is given as its number: version,
/// kind and message, in this order.
pub open spec fn envelope_bytes(version: Seq<char>, kind: u64, data: Seq<u8>) -> Seq<u8> {
    version_part(version) + varint_field(2, kind) + data_part(data)
}

/// The bytes of an envelope.
pub open spec fn packet_bytes(p: PacketView) -> Seq<u8> {
    envelope_bytes(p.version, p.kind.wire_value(), p.data)
}

impl Packet {
    /// Serializes the envelope.
    pub fn encode_to_vec(&self) -> (out: Vec<u8>)
        ensures
            out@ == packet_bytes(self@),
    {
        encode_packet(self.kind, self.version.as_str(), self.data.as_slice())
    }

    /// Reads an envelope from exactly the bytes of `buf`. It is refused when
    /// the bytes do not split into fields, when the version is not text, or
    /// when the kind is none of the four defined.
    pub fn decode(buf: &[u8]) -> (r: Option<Packet>)
        ensures
            match parse_packet(buf@) {
                Some(p) => r matches Some(x) && x@ == p,
                None => r is None,
            },
    {
        let mut version: String = String::new();
        let mut kind: u32 = 0;
        let mut data: Vec<u8> = Vec::new();
        let mut pos: usize = 0;
        let ghost start = PacketFields { version: Seq::empty(), kind: 0, data: Seq::empty() };
        proof {
            assert(buf@.skip(0) =~= buf@);
        }
        while pos < buf.len()
            invariant
                pos <= buf.len(),
                start == (PacketFields { version: Seq::empty(), kind: 0, data: Seq::empty() }),
                merge_fields(packet_applier(), start, buf@) == merge_fields(
                    packet_applier(),
                    PacketFields { version: version@, kind, data: data@ },
                    buf@.skip(pos as int),
                ),
            decreases buf.len() - pos,
        {
            let ghost rest = buf@.skip(pos as int);
            let field = match read_field(buf, pos) {
                Some(field) => field,
                None => { return None; },
            };
            proof {
                lemma_parse_field_bounds(rest);
                assert(rest.skip(field.end - pos) =~= buf@.skip(field.end as int));
            }
            if field.number == 1 {
                match field.value {
                    Value::Bytes { start, end } => {
                        match string_from_utf8(slice_to_vec(slice_subrange(buf, start, end))) {
                            Some(text) => { version = text; },
                            None => { return None; },
                        }
                    },
                    _ => { return None; },
                }
            } else if field.number == 2 {
                match field.value {
                    Value::Varint(v) => { kind = #[verifier::truncate] (v as u32); },
                    _ => { return None; },
                }
            } else if field.number == 3 {
                match field.value {
                    Value::Bytes { start, end } => {
                        data = slice_to_vec(slice_subrange(buf, start, end));
                    },
                    _ => { return None; },
                }
            }
            pos = field.end;
        }
        match PacketType::from_wire(kind) {
            Some(kind) => Some(Packet { version, kind, data }),
            None => None,
        }
    }
}

/// Serializes an envelope from its parts.
pub fn encode_packet(kind: PacketType, version: &str, data: &[u8]) -> (out: Vec<u8>)
    ensures
        out@ == packet_bytes(PacketView { version: version@, kind, data: data@ }),
{
    let mut out: Vec<u8> = Vec::new();
    let text = version.as_bytes();
    if text.len() > 0 {
        put_bytes_field(&mut out, 1, text);
    }
    proof {
        lemma_encode_utf8_empty(version@);
        assert(out@ =~= version_part(version@));
    }
    put_varint_field(&mut out, 2, kind.to_wire());
    if data.len() > 0 {
        put_bytes_field(&mut out, 3, data);
    }
    proof {
        assert(out@ =~= packet_bytes(PacketView { version: version@, kind, data: data@ }));
    }
    out
}

/// Text is empty exactly when its UTF-8 form is.
proof fn lemma_encode_utf8_empty(chars: Seq<char>)
    ensures
        encode_utf8(chars).len() == 0 <==> chars.len() == 0,
{
    if chars.len() > 0 {
        vstd::utf8::encode_utf8_first_scalar(chars);
    }
}

/// The fields of an envelope read back from its bytes as they were,
/// whatever number stands for the kind.
pub proof fn lemma_merge_envelope(version: Seq<char>, kind: u64, data: Seq<u8>)
    requires
        encode_utf8(version).len() <= u64::MAX,
        data.len() <= u64::MAX,
    ensures
        merge_fields(
            packet_applier(),
            PacketFields { version: Seq::empty(), kind: 0, data: Seq::empty() },
            envelope_bytes(version, kind, data),
        ) == Some(PacketFields { version, kind: kind as u32, data }),
{
    let apply = packet_applier();
    let start = PacketFields { version: Seq::empty(), kind: 0, data: Seq::empty() };
    let versioned = PacketFields { version, ..start };
    let kinded = PacketFields { kind: kind as u32, ..versioned };
    let done = PacketFields { data, ..kinded };
    let kind_field = varint_field(2, kind);
    let tail = kind_field + data_part(data);
    let all = envelope_bytes(version, kind, data);
    assert(all =~= version_part(version) + tail);
    assert(merge_fields(apply, start, all) == merge_fields(apply, versioned, tail)) by {
        if version.len() > 0 {
            let text = encode_utf8(version);
            encode_utf8_valid_utf8(version);
            encode_utf8_decode_utf8(version);
            lemma_parse_bytes_field(1, text, tail);
            lemma_merge_step(
                apply,
                start,
                bytes_field(1, text),
                tail,
                WireField { number: 1, value: WireValue::Bytes(text) },
            );
        } else {
            assert(version_part(version) + tail =~= tail);
            assert(versioned.version =~= start.version);
        }
    }
    assert(merge_fields(apply, versioned, tail) == merge_fields(apply, kinded, data_part(data))) by {
        lemma_parse_varint_field(2, kind, data_part(data));
        lemma_merge_step(
            apply,
            versioned,
            kind_field,
            data_part(data),
            WireField { number: 2, value: WireValue::Varint(kind) },
        );
    }
    assert(merge_fields(apply, kinded, data_part(data)) == Some(done)) by {
        if data.len() > 0 {
            let empty = Seq::<u8>::empty();
            assert(bytes_field(3, data) + empty =~= bytes_field(3, data));
            lemma_parse_bytes_field(3, data, empty);
            lemma_merge_step(
                apply,
                kinded,
                bytes_field(3, data),
                empty,
                WireField { number: 3, value: WireValue::Bytes(data) },
            );
        } else {
            assert(done.data =~= kinded.data);
        }
    }
}

/// An envelope reads back from its bytes as it was.
pub proof fn lemma_parse_packet_bytes(p: PacketView)
    requires
        encode_utf8(p.version).len() <= u64::MAX,
        p.data.len() <= u64::MAX,
    ensures
        parse_packet(packet_bytes(p)) == Some(p),
{
    lemma_merge_envelope(p.version, p.kind.wire_value(), p.data);
}

/// Bytes that spell an envelope of a kind that is none of the four defined
/// are no envelope.
pub proof fn lemma_unknown_kind_refused(version: Seq<char>, kind: u64, data: Seq<u8>)
    requires
        encode_utf8(version).len() <= u64::MAX,
        data.len() <= u64::MAX,
        !(1 <= kind as u32 <= 4),
    ensures
        parse_packet(envelope_bytes(version, kind, data)) is None,
{
    lemma_merge_envelope(version, kind, data);
}

} // verus!
