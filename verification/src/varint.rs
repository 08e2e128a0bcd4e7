//! Base-128 variable-length integers, least significant group first.

use vstd::prelude::*;

verus! {

/// The value and the length of the varint at the front of `s`, reading at
/// most `limit` bytes. Each byte carries seven bits of the value; the first
/// byte below `0x80` ends the integer.
pub open spec fn leb128(s: Seq<u8>, limit: nat) -> Option<(nat, nat)>
    decreases limit,
{
    if limit == 0 || s.len() == 0 {
        None
    } else if s[0] < 0x80 {
        Some((s[0] as nat, 1nat))
    } else {
        match leb128(s.drop_first(), (limit - 1) as nat) {
            Some((v, n)) => Some(((s[0] - 0x80) as nat + 128 * v, n + 1)),
            None => None,
        }
    }
}

/// The 64-bit varint at the front of `s` with the number of bytes it takes:
/// at most ten bytes, and a value that fits in 64 bits.
pub open spec fn parse_varint(s: Seq<u8>) -> Option<(u64, nat)> {
    match leb128(s, 10) {
        Some((v, n)) => if v <= u64::MAX {
            Some((v as u64, n))
        } else {
            None
        },
        None => None,
    }
}

/// The shortest varint that carries `v`.
pub open spec fn varint_bytes(v: nat) -> Seq<u8>
    decreases v,
{
    if v < 128 {
        seq![v as u8]
    } else {
        seq![(v % 128 + 128) as u8] + varint_bytes(v / 128)
    }
}

/// The number of bytes of the shortest varint that carries `v`.
pub open spec fn varint_len(v: nat) -> nat
    decreases v,
{
    if v < 128 {
        1
    } else {
        1 + varint_len(v / 128)
    }
}

/// The length prefix at the front of `s`: a 64-bit varint whose value fits
/// in `usize`.
pub open spec fn parse_length_delimiter(s: Seq<u8>) -> Option<usize> {
    match parse_varint(s) {
        Some((v, _)) => if v <= usize::MAX {
            Some(v as usize)
        } else {
            None
        },
        None => None,
    }
}

/// `prost::length_delimiter_len`: the number of bytes that the varint of
/// `length` takes, between one and ten.
pub assume_specification[ prost::length_delimiter_len ](length: usize) -> (n: usize)
    ensures
        n == varint_len(length as nat),
;

/// `prost::decode_length_delimiter` on a byte slice: reads the varint at the
/// front of `buf`. It fails when no byte below `0x80` stands among the first
/// ten bytes, when the value takes more than 64 bits, or when it does not
/// fit in `usize`.
#[verifier::external_body]
pub(crate) fn decode_length_delimiter(buf: &[u8]) -> (r: Option<usize>)
    ensures
        r == parse_length_delimiter(buf@),
{
    prost::decode_length_delimiter(buf).ok()
}

/// `prost::encoding::encode_varint` on a byte vector: appends the shortest
/// varint of `value`, at most ten bytes. The vector grows as it does under
/// `Vec::extend_from_slice`.
#[verifier::external_body]
pub(crate) fn encode_varint(value: u64, out: &mut Vec<u8>)
    ensures
        final(out)@ == old(out)@ + varint_bytes(value as nat),
{
    prost::encoding::encode_varint(value, out)
}

/// A varint takes between one and ten bytes for a 64-bit value, and
/// `varint_bytes` has the length that `varint_len` gives.
pub proof fn lemma_varint_len(v: nat)
    ensures
        varint_bytes(v).len() == varint_len(v),
        varint_len(v) >= 1,
        v <= u64::MAX ==> varint_len(v) <= 10,
{
    lemma_varint_len_bound(v, 10);
    assert(pow128(10) > u64::MAX) by {
        reveal_with_fuel(pow128, 11);
    }
}

proof fn lemma_varint_len_bound(v: nat, k: nat)
    requires
        k >= 1,
    ensures
        varint_bytes(v).len() == varint_len(v),
        varint_len(v) >= 1,
        v < pow128(k) ==> varint_len(v) <= k,
    decreases v,
{
    reveal_with_fuel(pow128, 2);
    if v >= 128 {
        if k >= 2 {
            lemma_varint_len_bound(v / 128, (k - 1) as nat);
            assert(v < pow128(k) ==> v / 128 < pow128((k - 1) as nat)) by (nonlinear_arith)
                requires
                    pow128(k) == 128 * pow128((k - 1) as nat),
            ;
        } else {
            lemma_varint_len_bound(v / 128, 1);
        }
    }
}

/// 128 to the power `k`.
pub open spec fn pow128(k: nat) -> nat
    decreases k,
{
    if k == 0 {
        1
    } else {
        128 * pow128((k - 1) as nat)
    }
}

/// The varint that `varint_bytes` writes reads back as the value it was made
/// from, whatever follows it.
pub proof fn lemma_leb128_of_bytes(v: nat, rest: Seq<u8>, limit: nat)
    requires
        varint_len(v) <= limit,
    ensures
        leb128(varint_bytes(v) + rest, limit) == Some((v, varint_len(v))),
    decreases v,
{
    let s = varint_bytes(v) + rest;
    if v >= 128 {
        let tail = varint_bytes(v / 128) + rest;
        assert(s.drop_first() =~= tail);
        lemma_leb128_of_bytes(v / 128, rest, (limit - 1) as nat);
        assert(s[0] == (v % 128 + 128) as u8);
    } else {
        assert(s[0] == v as u8);
    }
}

/// A varint ends within the bytes read.
pub proof fn lemma_leb128_bounds(s: Seq<u8>, limit: nat)
    requires
        leb128(s, limit) is Some,
    ensures
        1 <= leb128(s, limit).unwrap().1 <= limit,
        leb128(s, limit).unwrap().1 <= s.len(),
    decreases limit,
{
    if s[0] >= 0x80 {
        lemma_leb128_bounds(s.drop_first(), (limit - 1) as nat);
    }
}

/// Every byte of a varint but its last is at least `0x80`, and no varint is
/// shorter than the shortest one of its value.
pub proof fn lemma_leb128_shape(s: Seq<u8>, limit: nat)
    requires
        leb128(s, limit) is Some,
    ensures
        s[leb128(s, limit).unwrap().1 - 1] < 0x80,
        forall|i: int| 0 <= i < leb128(s, limit).unwrap().1 - 1 ==> s[i] >= 0x80,
        varint_len(leb128(s, limit).unwrap().0) <= leb128(s, limit).unwrap().1,
    decreases limit,
{
    lemma_leb128_bounds(s, limit);
    if s[0] >= 0x80 {
        let s1 = s.drop_first();
        let k = (limit - 1) as nat;
        lemma_leb128_shape(s1, k);
        lemma_leb128_bounds(s1, k);
        let n1 = leb128(s1, k).unwrap().1;
        let v1 = leb128(s1, k).unwrap().0;
        assert forall|i: int| 0 <= i < n1 implies s[i] >= 0x80 by {
            if i > 0 {
                assert(s[i] == s1[i - 1]);
            }
        }
        assert(s[n1 as int] == s1[n1 - 1]);
        let v = (s[0] - 0x80) as nat + 128 * v1;
        assert(v / 128 == v1);
    }
}

/// No proper prefix of a shortest varint is itself a varint.
pub proof fn lemma_leb128_truncated(v: nat, k: int, limit: nat)
    requires
        0 <= k < varint_len(v),
    ensures
        leb128(varint_bytes(v).subrange(0, k), limit) is None,
    decreases v,
{
    lemma_varint_len(v);
    let s = varint_bytes(v);
    let p = s.subrange(0, k);
    if k > 0 && limit > 0 {
        assert(v >= 128);
        lemma_varint_len(v / 128);
        assert(p[0] == (v % 128 + 128) as u8);
        assert(p.drop_first() =~= varint_bytes(v / 128).subrange(0, k - 1));
        lemma_leb128_truncated(v / 128, k - 1, (limit - 1) as nat);
    }
}

/// Joins the groups already read with the varint that the remaining bytes
/// hold.
spec fn resume(acc: nat, scale: nat, read: nat, rest: Option<(nat, nat)>) -> Option<(nat, nat)> {
    match rest {
        Some((v, n)) => Some((acc + scale * v, n + read)),
        None => None,
    }
}

/// Reads the 64-bit varint that starts at `pos`, and returns its value with
/// the position after it.
pub fn read_varint(buf: &[u8], pos: usize) -> (r: Option<(u64, usize)>)
    requires
        pos <= buf.len(),
    ensures
        match parse_varint(buf@.skip(pos as int)) {
            Some((v, n)) => r == Some((v, (pos + n) as usize)) && 0 < n && pos + n <= buf.len(),
            None => r is None,
        },
{
    let ghost s = buf@.skip(pos as int);
    let mut acc: u64 = 0;
    let mut scale: u64 = 1;
    let mut i: usize = 0;
    proof {
        reveal_with_fuel(pow128, 11);
        assert(s.skip(0) =~= s);
        assert(resume(0, 1, 0, leb128(s, 10)) == leb128(s, 10));
    }
    while i < 10 && pos + i < buf.len()
        invariant
            i <= 10,
            pos + i <= buf.len(),
            s == buf@.skip(pos as int),
            i <= 9 ==> scale * pow128((9 - i) as nat) == 0x8000_0000_0000_0000,
            i <= 9 ==> acc < scale,
            leb128(s, 10) == resume(acc as nat, scale as nat, i as nat, leb128(s.skip(i as int), (10 - i) as nat)),
        decreases 10 - i,
    {
        let b: u8 = buf[pos + i];
        let ghost rest = s.skip(i as int);
        let ghost limit = (10 - i) as nat;
        proof {
            assert(rest[0] == b);
            assert(rest.drop_first() =~= s.skip(i + 1));
            lemma_pow128_positive((9 - i) as nat);
            assert(scale <= 0x8000_0000_0000_0000) by (nonlinear_arith)
                requires
                    scale * pow128((9 - i) as nat) == 0x8000_0000_0000_0000,
                    pow128((9 - i) as nat) >= 1,
            ;
        }
        if b < 0x80 {
            proof {
                assert(leb128(rest, limit) == Some((b as nat, 1nat)));
            }
            if i == 9 && b >= 2 {
                proof {
                    assert(pow128(0) == 1);
                    assert(scale == 0x8000_0000_0000_0000) by (nonlinear_arith)
                        requires
                            scale * pow128((9 - i) as nat) == 0x8000_0000_0000_0000,
                            pow128((9 - i) as nat) == 1,
                    ;
                    assert(acc + scale * b > u64::MAX) by (nonlinear_arith)
                        requires
                            scale == 0x8000_0000_0000_0000,
                            b >= 2,
                    ;
                }
                return None;
            }
            proof {
                if i < 9 {
                    assert(pow128((9 - i) as nat) == 128 * pow128((8 - i) as nat));
                    lemma_pow128_positive((8 - i) as nat);
                    assert(scale * 128 <= 0x8000_0000_0000_0000) by (nonlinear_arith)
                        requires
                            scale * (128 * pow128((8 - i) as nat)) == 0x8000_0000_0000_0000,
                            pow128((8 - i) as nat) >= 1,
                    ;
                }
                assert(acc + scale * b <= u64::MAX && scale * b <= u64::MAX) by (nonlinear_arith)
                    requires
                        acc < scale,
                        scale <= 0x8000_0000_0000_0000,
                        b < 128,
                        i < 9 ==> scale * 128 <= 0x8000_0000_0000_0000,
                        i == 9 ==> b <= 1,
                        i <= 9,
                ;
            }
            let value: u64 = acc + scale * (b as u64);
            return Some((value, pos + i + 1));
        }
        if i == 9 {
            proof {
                assert(leb128(rest.drop_first(), 0) is None);
            }
            return None;
        }
        proof {
            assert(pow128((9 - i) as nat) == 128 * pow128((8 - i) as nat));
            lemma_pow128_positive((8 - i) as nat);
            assert(scale * 128 <= 0x8000_0000_0000_0000) by (nonlinear_arith)
                requires
                    scale * (128 * pow128((8 - i) as nat)) == 0x8000_0000_0000_0000,
                    pow128((8 - i) as nat) >= 1,
            ;
            assert(scale * 128 * pow128((8 - i) as nat) == 0x8000_0000_0000_0000) by (nonlinear_arith)
                requires
                    scale * (128 * pow128((8 - i) as nat)) == 0x8000_0000_0000_0000,
            ;
            assert(acc + scale * (b - 0x80) < scale * 128) by (nonlinear_arith)
                requires
                    acc < scale,
                    0x80 <= b < 256,
            ;
            let inner = leb128(rest.drop_first(), (limit - 1) as nat);
            assert(resume(acc as nat, scale as nat, i as nat, leb128(rest, limit)) == resume(
                (acc + scale * (b - 0x80)) as nat,
                (scale * 128) as nat,
                (i + 1) as nat,
                inner,
            )) by {
                if inner is Some {
                    let v = inner.unwrap().0;
                    assert(acc + scale * ((b - 0x80) as nat + 128 * v) == (acc + scale * (b - 0x80))
                        + (scale * 128) * v) by (nonlinear_arith)
                        requires
                            b >= 0x80,
                    ;
                }
            }
        }
        acc = acc + scale * ((b - 0x80) as u64);
        scale = scale * 128;
        i = i + 1;
    }
    proof {
        assert(leb128(s.skip(i as int), (10 - i) as nat) is None);
    }
    None
}

proof fn lemma_pow128_positive(k: nat)
    ensures
        pow128(k) >= 1,
    decreases k,
{
    if k > 0 {
        lemma_pow128_positive((k - 1) as nat);
    }
}

} // verus!
