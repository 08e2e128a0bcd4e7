use boat_link::varint::read_varint;
use boat_link::wire::{
    put_bytes_field, put_fixed64_field, put_varint_field, read_field, Field, Value,
};

fn outside_varint(value: u64) -> Vec<u8> {
    let mut out: Vec<u8> = Vec::new();
    prost::encoding::encode_varint(value, &mut out);
    out
}

const SAMPLES: [u64; 16] = [
    0,
    1,
    127,
    128,
    300,
    16383,
    16384,
    0x1f_ffff,
    0x20_0000,
    0xffff_ffff,
    0x1_0000_0000,
    0x7fff_ffff_ffff_ffff,
    0x8000_0000_0000_0000,
    0xffff_ffff_ffff_fffe,
    0xffff_ffff_ffff_ffff,
    1u64 << 56,
];

#[test]
fn read_varint_reads_what_the_outside_encoder_wrote() {
    for value in SAMPLES {
        let mut bytes = vec![0xaa, 0xbb];
        let written = outside_varint(value);
        bytes.extend_from_slice(&written);
        bytes.push(0x55);
        assert_eq!(read_varint(&bytes, 2), Some((value, 2 + written.len())), "{}", value);
    }
}

#[test]
fn read_varint_agrees_with_the_outside_decoder() {
    let cases: Vec<Vec<u8>> = vec![
        vec![],
        vec![0x00],
        vec![0x7f],
        vec![0x80],
        vec![0x80, 0x00],
        vec![0x80, 0x80, 0x00, 0x05],
        vec![0xff, 0xff, 0xff, 0xff, 0xff, 0xff, 0xff, 0xff, 0xff, 0x01],
        vec![0xff, 0xff, 0xff, 0xff, 0xff, 0xff, 0xff, 0xff, 0xff, 0x02],
        vec![0xff, 0xff, 0xff, 0xff, 0xff, 0xff, 0xff, 0xff, 0xff, 0x7f],
        vec![0xff, 0xff, 0xff, 0xff, 0xff, 0xff, 0xff, 0xff, 0xff, 0x80, 0x00],
        vec![0x80, 0x80, 0x80, 0x80, 0x80, 0x80, 0x80, 0x80, 0x80, 0x00],
        vec![0x80, 0x80, 0x80, 0x80, 0x80, 0x80, 0x80, 0x80, 0x80, 0x01, 0x33],
        vec![0x81, 0x82, 0x83],
        vec![0x81, 0x82, 0x03],
        vec![0xff; 10],
        vec![0xff; 11],
    ];
    for bytes in cases {
        let mut slice: &[u8] = &bytes;
        let outside = prost::encoding::decode_varint(&mut slice).ok();
        let used = bytes.len() - slice.len();
        let mine = read_varint(&bytes, 0);
        match outside {
            Some(value) => assert_eq!(mine, Some((value, used)), "{:?}", bytes),
            None => assert_eq!(mine, None, "{:?}", bytes),
        }
    }
}

#[test]
fn read_varint_at_the_end_of_the_buffer_finds_nothing() {
    assert_eq!(read_varint(&[1, 2, 3], 3), None);
    assert_eq!(read_varint(&[1, 2, 0x83], 2), None);
    assert_eq!(read_varint(&[1, 2, 0x03], 2), Some((3, 3)));
}

#[test]
fn varint_field_has_the_expected_bytes() {
    let mut out: Vec<u8> = vec![0xee];
    put_varint_field(&mut out, 2, 300);
    assert_eq!(out, vec![0xee, 0x10, 0xac, 0x02]);
    let mut reference: Vec<u8> = vec![0xee];
    prost::encoding::uint64::encode(2, &300u64, &mut reference);
    assert_eq!(out, reference);
}

#[test]
fn fixed64_field_has_the_expected_bytes() {
    let mut out: Vec<u8> = Vec::new();
    put_fixed64_field(&mut out, 1, 0x0102_0304_0506_0708);
    assert_eq!(out, vec![0x09, 8, 7, 6, 5, 4, 3, 2, 1]);
    let mut reference: Vec<u8> = Vec::new();
    prost::encoding::fixed64::encode(1, &0x0102_0304_0506_0708u64, &mut reference);
    assert_eq!(out, reference);
    let mut as_double: Vec<u8> = Vec::new();
    prost::encoding::double::encode(1, &f64::from_bits(0x0102_0304_0506_0708), &mut as_double);
    assert_eq!(out, as_double);
}

#[test]
fn bytes_field_has_the_expected_bytes() {
    let mut out: Vec<u8> = Vec::new();
    put_bytes_field(&mut out, 3, &[9, 8, 7]);
    assert_eq!(out, vec![0x1a, 3, 9, 8, 7]);
    let mut large: Vec<u8> = Vec::new();
    put_bytes_field(&mut large, 536_870_911, &[]);
    assert_eq!(large, vec![0xfa, 0xff, 0xff, 0xff, 0x0f, 0]);
}

#[test]
fn read_field_reads_each_kind() {
    let mut buf: Vec<u8> = vec![0x77];
    put_varint_field(&mut buf, 5, 1 << 40);
    let a = buf.len();
    put_fixed64_field(&mut buf, 6, 42);
    let b = buf.len();
    put_bytes_field(&mut buf, 7, &[1, 2, 3, 4]);
    let c = buf.len();
    buf.extend_from_slice(&[0x45, 0xde, 0xad, 0xbe, 0xef]);
    let d = buf.len();
    assert_eq!(field_parts(read_field(&buf, 1)), Some((5, "varint", 1 << 40, a)));
    assert_eq!(field_parts(read_field(&buf, a)), Some((6, "fixed64", 42, b)));
    assert_eq!(field_parts(read_field(&buf, b)), Some((7, "bytes", 4, c)));
    match read_field(&buf, b) {
        Some(Field { value: Value::Bytes { start, end }, .. }) => {
            assert_eq!(&buf[start..end], &[1, 2, 3, 4])
        }
        _ => panic!("no bytes field"),
    }
    assert_eq!(field_parts(read_field(&buf, c)), Some((8, "fixed32", (c + 1) as u64, d)));
    assert!(read_field(&buf, d).is_none());
}

fn field_parts(field: Option<Field>) -> Option<(u32, &'static str, u64, usize)> {
    field.map(|f| match f.value {
        Value::Varint(v) => (f.number, "varint", v, f.end),
        Value::Fixed64(v) => (f.number, "fixed64", v, f.end),
        Value::Bytes { start, end } => (f.number, "bytes", (end - start) as u64, f.end),
        Value::Fixed32 { start } => (f.number, "fixed32", start as u64, f.end),
    })
}

#[test]
fn read_field_refuses_what_is_no_field() {
    // no key
    assert!(read_field(&[], 0).is_none());
    // field number zero
    assert!(read_field(&[0x00, 0x01], 0).is_none());
    // kinds 3, 4, 6 and 7
    assert!(read_field(&[0x0b, 0x00], 0).is_none());
    assert!(read_field(&[0x0c, 0x00], 0).is_none());
    assert!(read_field(&[0x0e, 0x00], 0).is_none());
    assert!(read_field(&[0x0f, 0x00], 0).is_none());
    // a key above 32 bits
    assert!(read_field(&[0x80, 0x80, 0x80, 0x80, 0x10, 0x00], 0).is_none());
    // values cut short
    assert!(read_field(&[0x08], 0).is_none());
    assert!(read_field(&[0x09, 1, 2, 3, 4, 5, 6, 7], 0).is_none());
    assert!(read_field(&[0x0d, 1, 2, 3], 0).is_none());
    assert!(read_field(&[0x0a, 3, 1, 2], 0).is_none());
    assert!(read_field(&[0x0a, 0xff, 0xff, 0xff, 0xff, 0xff, 0xff, 0xff, 0xff, 0xff, 0x01, 0], 0)
        .is_none());
}
