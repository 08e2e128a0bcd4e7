//! Tagged fields, the unit that every message on the wire is made of.
//!
//! A field is a key, the varint of `number * 8 + kind`, followed by its
//! value: a varint (kind 0), eight bytes (kind 1), a length and that many
//! bytes (kind 2), or four bytes (kind 5). Other kinds are not part of the
//! format.

use vstd::prelude::*;
use vstd::bytes::{
    lemma_auto_spec_u64_to_from_le_bytes,
    spec_u64_from_le_bytes,
    spec_u64_to_le_bytes,
    u64_from_le_bytes,
    u64_to_le_bytes,
};
use vstd::slice::slice_subrange;
use vstd::utf8::{decode_utf8, valid_utf8};
use crate::varint::{
    encode_varint,
    lemma_leb128_bounds,
    lemma_leb128_of_bytes,
    lemma_varint_len,
    parse_varint,
    read_varint,
    varint_bytes,
    varint_len,
};

verus! {

/// The largest field number that a key can carry.
pub const MAX_FIELD_NUMBER: u32 = 0x1FFF_FFFF;

/// What a field carries.
pub enum WireValue {
    Varint(u64),
    Fixed64(u64),
    Bytes(Seq<u8>),
    Fixed32(Seq<u8>),
}

/// One field of a message.
pub struct WireField {
    pub number: u32,
    pub value: WireValue,
}

/// The field at the front of `s` and the number of bytes it takes.
pub open spec fn parse_field(s: Seq<u8>) -> Option<(WireField, nat)> {
    match parse_varint(s) {
        None => None,
        Some((key, k)) => {
            let rest = s.skip(k as int);
            let number = (key / 8) as u32;
            if key > u32::MAX || key / 8 == 0 {
                None
            } else if key % 8 == 0 {
                match parse_varint(rest) {
                    Some((v, n)) => Some((WireField { number, value: WireValue::Varint(v) }, k + n)),
                    None => None,
                }
            } else if key % 8 == 1 {
                if rest.len() >= 8 {
                    Some(
                        (
                            WireField {
                                number,
                                value: WireValue::Fixed64(
                                    spec_u64_from_le_bytes(rest.subrange(0, 8)),
                                ),
                            },
                            k + 8,
                        ),
                    )
                } else {
                    None
                }
            } else if key % 8 == 2 {
                match parse_varint(rest) {
                    Some((len, n)) => if len <= rest.len() - n {
                        Some(
                            (
                                WireField {
                                    number,
                                    value: WireValue::Bytes(rest.subrange(n as int, n + len)),
                                },
                                k + n + len as nat,
                            ),
                        )
                    } else {
                        None
                    },
                    None => None,
                }
            } else if key % 8 == 5 {
                if rest.len() >= 4 {
                    Some(
                        (WireField { number, value: WireValue::Fixed32(rest.subrange(0, 4)) }, k + 4),
                    )
                } else {
                    None
                }
            } else {
                None
            }
        },
    }
}

/// Reads a message as a run of fields, folding each into `acc` with
/// `apply`. The message is refused when its bytes do not split into fields
/// or when `apply` refuses one of them.
pub open spec fn merge_fields<A>(
    apply: spec_fn(A, WireField) -> Option<A>,
    acc: A,
    s: Seq<u8>,
) -> Option<A>
    decreases s.len(),
{
    if s.len() == 0 {
        Some(acc)
    } else {
        match parse_field(s) {
            Some((f, n)) => if 0 < n <= s.len() {
                match apply(acc, f) {
                    Some(next) => merge_fields(apply, next, s.skip(n as int)),
                    None => None,
                }
            } else {
                None
            },
            None => None,
        }
    }
}

/// The key of a field.
pub open spec fn key_bytes(number: u32, kind: nat) -> Seq<u8> {
    varint_bytes(number as nat * 8 + kind)
}

/// A field that carries a varint.
pub open spec fn varint_field(number: u32, value: u64) -> Seq<u8> {
    key_bytes(number, 0) + varint_bytes(value as nat)
}

/// A field that carries eight bytes, least significant first.
pub open spec fn fixed64_field(number: u32, value: u64) -> Seq<u8> {
    key_bytes(number, 1) + spec_u64_to_le_bytes(value)
}

/// A field that carries a run of bytes behind its length.
pub open spec fn bytes_field(number: u32, bytes: Seq<u8>) -> Seq<u8> {
    key_bytes(number, 2) + varint_bytes(bytes.len()) + bytes
}

/// Where the value of a field lies in the buffer it was read from.
pub enum Value {
    Varint(u64),
    Fixed64(u64),
    Bytes { start: usize, end: usize },
    Fixed32 { start: usize },
}

/// A field read from a buffer, with the position after it.
pub struct Field {
    pub number: u32,
    pub value: Value,
    pub end: usize,
}

impl Field {
    /// The field that `self` stands for in `buf`.
    pub open spec fn denotes(self, buf: Seq<u8>) -> WireField {
        WireField {
            number: self.number,
            value: match self.value {
                Value::Varint(v) => WireValue::Varint(v),
                Value::Fixed64(v) => WireValue::Fixed64(v),
                Value::Bytes { start, end } => WireValue::Bytes(buf.subrange(start as int, end as int)),
                Value::Fixed32 { start } => WireValue::Fixed32(buf.subrange(start as int, start + 4)),
            },
        }
    }

    /// The value lies between `pos` and the end of the field.
    pub open spec fn placed(self, pos: usize, len: usize) -> bool {
        &&& pos < self.end <= len
        &&& match self.value {
            Value::Bytes { start, end } => pos <= start <= end <= self.end,
            Value::Fixed32 { start } => pos <= start && start + 4 <= self.end,
            _ => true,
        }
    }
}

/// A field takes at least one byte and ends within the bytes given.
pub proof fn lemma_parse_field_bounds(s: Seq<u8>)
    requires
        parse_field(s) is Some,
    ensures
        0 < parse_field(s).unwrap().1 <= s.len(),
{
    lemma_leb128_bounds(s, 10);
    let k = parse_varint(s).unwrap().1;
    let key = parse_varint(s).unwrap().0;
    let rest = s.skip(k as int);
    if key % 8 == 0 || key % 8 == 2 {
        lemma_leb128_bounds(rest, 10);
    }
}

/// Reads the field that starts at `pos`.
pub fn read_field(buf: &[u8], pos: usize) -> (r: Option<Field>)
    requires
        pos <= buf.len(),
    ensures
        match parse_field(buf@.skip(pos as int)) {
            Some((f, n)) => r matches Some(x) && x.end == pos + n && x.denotes(buf@) == f
                && x.placed(pos, buf.len()),
            None => r is None,
        },
{
    let ghost s = buf@.skip(pos as int);
    let (key, at): (u64, usize) = match read_varint(buf, pos) {
        Some(pair) => pair,
        None => { return None; },
    };
    if key > 0xFFFF_FFFF || key / 8 == 0 {
        return None;
    }
    let number: u32 = (key / 8) as u32;
    let kind: u64 = key % 8;
    let ghost k = (at - pos) as nat;
    let ghost rest = s.skip(k as int);
    proof {
        assert(rest =~= buf@.skip(at as int));
    }
    if kind == 0 {
        match read_varint(buf, at) {
            Some((v, end)) => Some(Field { number, value: Value::Varint(v), end }),
            None => None,
        }
    } else if kind == 1 {
        if buf.len() - at < 8 {
            return None;
        }
        let v: u64 = u64_from_le_bytes(slice_subrange(buf, at, at + 8));
        proof {
            assert(rest.subrange(0, 8) =~= buf@.subrange(at as int, at + 8));
        }
        Some(Field { number, value: Value::Fixed64(v), end: at + 8 })
    } else if kind == 2 {
        match read_varint(buf, at) {
            Some((len, start)) => {
                if len > (buf.len() - start) as u64 {
                    return None;
                }
                let end: usize = start + len as usize;
                proof {
                    let n = (start - at) as nat;
                    assert(rest.subrange(n as int, n + len) =~= buf@.subrange(
                        start as int,
                        end as int,
                    ));
                }
                Some(Field { number, value: Value::Bytes { start, end }, end })
            },
            None => None,
        }
    } else if kind == 5 {
        if buf.len() - at < 4 {
            return None;
        }
        proof {
            assert(rest.subrange(0, 4) =~= buf@.subrange(at as int, at + 4));
        }
        Some(Field { number, value: Value::Fixed32 { start: at }, end: at + 4 })
    } else {
        None
    }
}

/// Appends the key of a field.
fn put_key(out: &mut Vec<u8>, number: u32, kind: u8)
    requires
        kind < 8,
    ensures
        final(out)@ == old(out)@ + key_bytes(number, kind as nat),
{
    let key: u64 = (number as u64) * 8 + (kind as u64);
    encode_varint(key, out);
}

/// Appends a field that carries a varint.
pub fn put_varint_field(out: &mut Vec<u8>, number: u32, value: u64)
    ensures
        final(out)@ == old(out)@ + varint_field(number, value),
{
    put_key(out, number, 0);
    encode_varint(value, out);
    proof {
        assert(final(out)@ =~= old(out)@ + varint_field(number, value));
    }
}

/// Appends a field that carries eight bytes.
pub fn put_fixed64_field(out: &mut Vec<u8>, number: u32, value: u64)
    ensures
        final(out)@ == old(out)@ + fixed64_field(number, value),
{
    put_key(out, number, 1);
    let bytes = u64_to_le_bytes(value);
    out.extend_from_slice(bytes.as_slice());
    proof {
        assert(final(out)@ =~= old(out)@ + fixed64_field(number, value));
    }
}

/// Appends a field that carries a run of bytes.
pub fn put_bytes_field(out: &mut Vec<u8>, number: u32, bytes: &[u8])
    ensures
        final(out)@ == old(out)@ + bytes_field(number, bytes@),
{
    put_key(out, number, 2);
    encode_varint(bytes.len() as u64, out);
    out.extend_from_slice(bytes);
    proof {
        assert(final(out)@ =~= old(out)@ + bytes_field(number, bytes@));
    }
}

/// `String::from_utf8`: the text that `bytes` spell, when they are valid
/// UTF-8, and nothing otherwise.
#[verifier::external_body]
pub(crate) fn string_from_utf8(bytes: Vec<u8>) -> (r: Option<String>)
    ensures
        r is Some <==> valid_utf8(bytes@),
        r matches Some(text) ==> text@ == decode_utf8(bytes@),
{
    String::from_utf8(bytes).ok()
}

/// A key reads back as the number and kind it was made from.
proof fn lemma_parse_key(number: u32, kind: nat, rest: Seq<u8>)
    requires
        1 <= number <= MAX_FIELD_NUMBER,
        kind < 8,
    ensures
        parse_varint(key_bytes(number, kind) + rest) == Some(
            ((number as nat * 8 + kind) as u64, key_bytes(number, kind).len()),
        ),
        (key_bytes(number, kind) + rest).skip(key_bytes(number, kind).len() as int) == rest,
        1 <= key_bytes(number, kind).len() <= 5,
{
    let key = number as nat * 8 + kind;
    lemma_varint_len(key);
    lemma_varint_len_small(key);
    lemma_leb128_of_bytes(key, rest, 10);
    assert((key_bytes(number, kind) + rest).skip(key_bytes(number, kind).len() as int) =~= rest);
}

/// A value below 2^35 takes at most five bytes.
proof fn lemma_varint_len_small(v: nat)
    requires
        v < 0x8_0000_0000,
    ensures
        varint_len(v) <= 5,
{
    reveal_with_fuel(varint_len, 6);
}

/// The fields with small numbers are short: a key takes one byte, a varint
/// at most ten, and a length at most ten.
pub proof fn lemma_field_lengths(number: u32, value: u64, bytes: Seq<u8>)
    requires
        1 <= number <= 15,
        bytes.len() <= u64::MAX,
    ensures
        varint_field(number, value).len() <= 11,
        fixed64_field(number, value).len() == 9,
        bytes_field(number, bytes).len() <= 11 + bytes.len(),
{
    lemma_auto_spec_u64_to_from_le_bytes();
    lemma_varint_len(value as nat);
    lemma_varint_len(bytes.len());
    lemma_varint_len((number as nat * 8) as nat);
    lemma_varint_len((number as nat * 8 + 1) as nat);
    lemma_varint_len((number as nat * 8 + 2) as nat);
}

/// A varint field reads back as written, whatever follows it.
pub proof fn lemma_parse_varint_field(number: u32, value: u64, rest: Seq<u8>)
    requires
        1 <= number <= MAX_FIELD_NUMBER,
    ensures
        parse_field(varint_field(number, value) + rest) == Some(
            (
                WireField { number, value: WireValue::Varint(value) },
                varint_field(number, value).len(),
            ),
        ),
{
    let tail = varint_bytes(value as nat) + rest;
    assert(varint_field(number, value) + rest =~= key_bytes(number, 0) + tail);
    lemma_parse_key(number, 0, tail);
    lemma_varint_len(value as nat);
    lemma_leb128_of_bytes(value as nat, rest, 10);
}

/// An eight-byte field reads back as written, whatever follows it.
pub proof fn lemma_parse_fixed64_field(number: u32, value: u64, rest: Seq<u8>)
    requires
        1 <= number <= MAX_FIELD_NUMBER,
    ensures
        parse_field(fixed64_field(number, value) + rest) == Some(
            (
                WireField { number, value: WireValue::Fixed64(value) },
                fixed64_field(number, value).len(),
            ),
        ),
{
    let tail = spec_u64_to_le_bytes(value) + rest;
    assert(fixed64_field(number, value) + rest =~= key_bytes(number, 1) + tail);
    lemma_parse_key(number, 1, tail);
    lemma_auto_spec_u64_to_from_le_bytes();
    assert(tail.subrange(0, 8) =~= spec_u64_to_le_bytes(value));
}

/// A bytes field reads back as written, whatever follows it.
pub proof fn lemma_parse_bytes_field(number: u32, bytes: Seq<u8>, rest: Seq<u8>)
    requires
        1 <= number <= MAX_FIELD_NUMBER,
        bytes.len() <= u64::MAX,
    ensures
        parse_field(bytes_field(number, bytes) + rest) == Some(
            (
                WireField { number, value: WireValue::Bytes(bytes) },
                bytes_field(number, bytes).len(),
            ),
        ),
{
    let body = bytes + rest;
    let tail = varint_bytes(bytes.len()) + body;
    assert(bytes_field(number, bytes) + rest =~= key_bytes(number, 2) + tail);
    lemma_parse_key(number, 2, tail);
    lemma_varint_len(bytes.len());
    lemma_leb128_of_bytes(bytes.len(), body, 10);
    let n = varint_len(bytes.len());
    assert(tail.subrange(n as int, (n + bytes.len()) as int) =~= bytes);
}

/// Reading a message whose first field is known comes to applying that
/// field and reading on behind it.
pub proof fn lemma_merge_step<A>(
    apply: spec_fn(A, WireField) -> Option<A>,
    acc: A,
    field: Seq<u8>,
    rest: Seq<u8>,
    f: WireField,
)
    requires
        parse_field(field + rest) == Some((f, field.len())),
    ensures
        merge_fields(apply, acc, field + rest) == match apply(acc, f) {
            Some(next) => merge_fields(apply, next, rest),
            None => None,
        },
{
    lemma_parse_field_bounds(field + rest);
    assert((field + rest).skip(field.len() as int) =~= rest);
}

} // verus!
