//! The two messages of the link layer itself: the greeting that opens a
//! link, and the acknowledgement of a path.

use vstd::prelude::*;
use vstd::slice::{slice_subrange, slice_to_vec};
use vstd::utf8::{decode_utf8, encode_utf8, encode_utf8_decode_utf8, encode_utf8_valid_utf8, valid_utf8};
use crate::wire::{
    bytes_field,
    lemma_merge_step,
    lemma_parse_bytes_field,
    lemma_parse_field_bounds,
    merge_fields,
    put_bytes_field,
    read_field,
    string_from_utf8,
    Value,
    WireField,
    WireValue,
};

verus! {

/// The greeting: the protocol version of the sender.
#[derive(Clone, Debug, PartialEq, Eq)]
pub struct Connect {
    pub version: String,
}

impl View for Connect {
    type V = Seq<char>;

    open spec fn view(&self) -> Seq<char> {
        self.version@
    }
}

/// Takes one field into a greeting. Field 1 holds the version as UTF-8
/// text; fields with other numbers are passed over.
pub open spec fn connect_apply(acc: Seq<char>, f: WireField) -> Option<Seq<char>> {
    if f.number == 1 {
        match f.value {
            WireValue::Bytes(b) => if valid_utf8(b) {
                Some(decode_utf8(b))
            } else {
                None
            },
            _ => None,
        }
    } else {
        Some(acc)
    }
}

/// `connect_apply` as a value.
pub open spec fn connect_applier() -> spec_fn(Seq<char>, WireField) -> Option<Seq<char>> {
    |acc: Seq<char>, f: WireField| connect_apply(acc, f)
}

/// The version of the greeting that the bytes `s` spell.
pub open spec fn parse_connect(s: Seq<u8>) -> Option<Seq<char>> {
    merge_fields(connect_applier(), Seq::empty(), s)
}

/// The bytes of a greeting; an empty version is left out.
pub open spec fn connect_bytes(version: Seq<char>) -> Seq<u8> {
    if version.len() == 0 {
        Seq::empty()
    } else {
        bytes_field(1, encode_utf8(version))
    }
}

impl Connect {
    /// Serializes the greeting.
    pub fn encode_to_vec(&self) -> (out: Vec<u8>)
        ensures
            out@ == connect_bytes(self@),
    {
        let mut out: Vec<u8> = Vec::new();
        let text = self.version.as_str().as_bytes();
        if text.len() > 0 {
            put_bytes_field(&mut out, 1, text);
        }
        proof {
            if self@.len() > 0 {
                vstd::utf8::encode_utf8_first_scalar(self@);
            }
            assert(out@ =~= connect_bytes(self@));
        }
        out
    }

    /// Reads a greeting from exactly the bytes of `buf`.
    pub fn decode(buf: &[u8]) -> (r: Option<Connect>)
        ensures
            match parse_connect(buf@) {
                Some(version) => r matches Some(x) && x@ == version,
                None => r is None,
            },
    {
        let mut version: String = String::new();
        let mut pos: usize = 0;
        proof {
            assert(buf@.skip(0) =~= buf@);
        }
        while pos < buf.len()
            invariant
                pos <= buf.len(),
                parse_connect(buf@) == merge_fields(
                    connect_applier(),
                    version@,
                    buf@.skip(pos as int),
                ),
            decreases buf.len() - pos,
        {
            let ghost rest = buf@.skip(pos as int);
            let field = match read_field(buf, pos) {
                Some(field) => field,
                None => { return None; },
            };
            proof {
                lemma_parse_field_bounds(rest);
                assert(rest.skip(field.end - pos) =~= buf@.skip(field.end as int));
            }
            if field.number == 1 {
                match field.value {
                    Value::Bytes { start, end } => {
                        match string_from_utf8(slice_to_vec(slice_subrange(buf, start, end))) {
                            Some(text) => { version = text; },
                            None => { return None; },
                        }
                    },
                    _ => { return None; },
                }
            }
            pos = field.end;
        }
        Some(Connect { version })
    }
}

/// A greeting reads back from its bytes as it was.
pub proof fn lemma_parse_connect_bytes(version: Seq<char>)
    requires
        encode_utf8(version).len() <= u64::MAX,
    ensures
        parse_connect(connect_bytes(version)) == Some(version),
{
    if version.len() > 0 {
        let text = encode_utf8(version);
        let empty = Seq::<u8>::empty();
        encode_utf8_valid_utf8(version);
        encode_utf8_decode_utf8(version);
        assert(bytes_field(1, text) + empty =~= bytes_field(1, text));
        lemma_parse_bytes_field(1, text, empty);
        lemma_merge_step(
            connect_applier(),
            Seq::<char>::empty(),
            bytes_field(1, text),
            empty,
            WireField { number: 1, value: WireValue::Bytes(text) },
        );
    } else {
        assert(version =~= Seq::<char>::empty());
    }
}

/// The acknowledgement of a path. It has no fields of its own.
#[derive(Clone, Copy, Debug, PartialEq, Eq, Structural)]
pub struct Received {}

/// Takes one field into an acknowledgement: every field is passed over.
pub open spec fn received_apply(acc: Received, f: WireField) -> Option<Received> {
    Some(acc)
}

/// `received_apply` as a value.
pub open spec fn received_applier() -> spec_fn(Received, WireField) -> Option<Received> {
    |acc: Received, f: WireField| received_apply(acc, f)
}

/// Whether the bytes `s` spell an acknowledgement: they split into fields.
pub open spec fn parse_received(s: Seq<u8>) -> Option<Received> {
    merge_fields(received_applier(), Received {  }, s)
}

impl Received {
    /// Serializes the acknowledgement: no bytes.
    pub fn encode_to_vec(&self) -> (out: Vec<u8>)
        ensures
            out@ == Seq::<u8>::empty(),
            parse_received(out@) == Some(*self),
    {
        Vec::new()
    }

    /// Reads an acknowledgement from exactly the bytes of `buf`.
    pub fn decode(buf: &[u8]) -> (r: Option<Received>)
        ensures
            r == parse_received(buf@),
    {
        let mut pos: usize = 0;
        proof {
            assert(buf@.skip(0) =~= buf@);
        }
        while pos < buf.len()
            invariant
                pos <= buf.len(),
                parse_received(buf@) == merge_fields(
                    received_applier(),
                    Received {  },
                    buf@.skip(pos as int),
                ),
            decreases buf.len() - pos,
        {
            let ghost rest = buf@.skip(pos as int);
            let field = match read_field(buf, pos) {
                Some(field) => field,
                None => { return None; },
            };
            proof {
                lemma_parse_field_bounds(rest);
                assert(rest.skip(field.end - pos) =~= buf@.skip(field.end as int));
            }
            pos = field.end;
        }
        Some(Received {  })
    }
}

} // verus!
