use boat_link::connection::{Connect, Received};
use boat_link::data::{BoatData, BoatDataFeature, LatLng, Layer, ReceivedDataPayload, Timestamp};
use prost::Message;

fn feature(temperature: f64, depth: f64, layer: Layer, seconds: i64, nanos: i32, lat: f64, lng: f64) -> BoatDataFeature {
    BoatDataFeature::new(
        temperature.to_bits(),
        depth.to_bits(),
        layer,
        Timestamp { seconds, nanos },
        LatLng { latitude: lat.to_bits(), longitude: lng.to_bits() },
    )
}

/// A field that carries a message: key, length, body.
fn message_field(number: u8, body: &[u8]) -> Vec<u8> {
    let mut out = vec![number << 3 | 2];
    prost::encode_length_delimiter(body.len(), &mut out).unwrap();
    out.extend_from_slice(body);
    out
}

/// The message of a reading as the generated code of the message compiler
/// writes it, built from the encoders of the outside crates.
fn reference_feature(temperature: f64, depth: f64, layer: i32, seconds: i64, nanos: i32, lat: f64, lng: f64) -> Vec<u8> {
    let mut out: Vec<u8> = Vec::new();
    if temperature != 0.0 {
        prost::encoding::double::encode(1, &temperature, &mut out);
    }
    if depth != 0.0 {
        prost::encoding::double::encode(2, &depth, &mut out);
    }
    if layer != 0 {
        prost::encoding::int32::encode(3, &layer, &mut out);
    }
    let time = prost_types::Timestamp { seconds, nanos }.encode_to_vec();
    out.extend_from_slice(&message_field(4, &time));
    let mut place: Vec<u8> = Vec::new();
    if lat != 0.0 {
        prost::encoding::double::encode(1, &lat, &mut place);
    }
    if lng != 0.0 {
        prost::encoding::double::encode(2, &lng, &mut place);
    }
    out.extend_from_slice(&message_field(5, &place));
    out
}

#[test]
fn layers_have_their_names() {
    assert_eq!(Layer::Surface.as_str(), "surface");
    assert_eq!(Layer::Middle.as_str(), "middle");
    assert_eq!(Layer::SeaBed.as_str(), "sea bed");
}

#[test]
fn layers_have_their_numbers() {
    assert_eq!(Layer::Surface.to_wire(), 0);
    assert_eq!(Layer::Middle.to_wire(), 1);
    assert_eq!(Layer::SeaBed.to_wire(), 2);
    assert_eq!(Layer::from_wire(0), Layer::Surface);
    assert_eq!(Layer::from_wire(1), Layer::Middle);
    assert_eq!(Layer::from_wire(2), Layer::SeaBed);
    assert_eq!(Layer::from_wire(3), Layer::Surface);
    assert_eq!(Layer::from_wire(u32::MAX), Layer::Surface);
}

#[test]
fn default_report_has_the_local_version_and_no_readings() {
    let data = BoatData::default();
    assert_eq!(data.version(), "0.1.0");
    assert!(data.features().is_empty());
}

#[test]
fn getters_give_the_parts() {
    let f = feature(20.5, 1.5, Layer::Middle, 1_650_000_000, 250, 50.9, -1.4);
    assert_eq!(f64::from_bits(f.temperature()), 20.5);
    assert_eq!(f64::from_bits(f.depth()), 1.5);
    assert_eq!(f.layer(), Layer::Middle);
    assert_eq!(f.time(), Timestamp { seconds: 1_650_000_000, nanos: 250 });
    assert_eq!(f.geometry(), LatLng { latitude: 50.9f64.to_bits(), longitude: (-1.4f64).to_bits() });
    let data = BoatData::new("1.2.3".to_string(), vec![f]);
    assert_eq!(data.version(), "1.2.3");
    assert_eq!(data.features(), &[f]);
    let payload = ReceivedDataPayload::new(data.clone(), "COM4".to_string());
    assert_eq!(payload.data, data);
    assert_eq!(payload.port, "COM4");
}

#[test]
fn timestamp_agrees_with_the_outside_message() {
    let cases: [(i64, i32); 9] = [
        (0, 0),
        (1, 0),
        (0, 1),
        (1_700_000_000, 999_999_999),
        (-1, 0),
        (-62_135_596_800, 0),
        (i64::MAX, i32::MAX),
        (i64::MIN, i32::MIN),
        (5, -7),
    ];
    for (seconds, nanos) in cases {
        let mine = Timestamp { seconds, nanos };
        let outside = prost_types::Timestamp { seconds, nanos };
        assert_eq!(mine.encode_to_vec(), outside.encode_to_vec(), "{} {}", seconds, nanos);
        assert_eq!(Timestamp::decode(&outside.encode_to_vec()), Some(mine));
        let back = prost_types::Timestamp::decode(&mine.encode_to_vec()[..]).unwrap();
        assert_eq!((back.seconds, back.nanos), (seconds, nanos));
    }
    assert_eq!(Timestamp { seconds: 1, nanos: 2 }.encode_to_vec(), vec![0x08, 1, 0x10, 2]);
}

#[test]
fn place_has_the_expected_bytes() {
    let place = LatLng { latitude: 1.0f64.to_bits(), longitude: (-2.0f64).to_bits() };
    assert_eq!(
        place.encode_to_vec(),
        vec![0x09, 0, 0, 0, 0, 0, 0, 0xf0, 0x3f, 0x11, 0, 0, 0, 0, 0, 0, 0x00, 0xc0]
    );
    assert_eq!(LatLng::decode(&place.encode_to_vec()), Some(place));
    assert_eq!(LatLng { latitude: 0, longitude: 0 }.encode_to_vec(), Vec::<u8>::new());
    assert_eq!(LatLng::decode(&[]), Some(LatLng { latitude: 0, longitude: 0 }));
    assert_eq!(LatLng::decode(&[0x08, 1]), None);
    assert_eq!(LatLng::decode(&[0x09, 1, 2, 3]), None);
}

#[test]
fn reading_agrees_with_the_outside_encoders() {
    let cases = [
        (21.5, 3.25, Layer::Middle, 1, 1_700_000_000i64, 5i32, 50.9, -1.4),
        (0.0, 0.0, Layer::Surface, 0, 0, 0, 0.0, 0.0),
        (-4.0, 1e300, Layer::SeaBed, 2, -5, 0, 90.0, 180.0),
        (f64::MAX, f64::MIN_POSITIVE, Layer::Surface, 0, 1, 1, -90.0, 0.0),
    ];
    for (t, d, layer, number, seconds, nanos, lat, lng) in cases {
        let mine = feature(t, d, layer, seconds, nanos, lat, lng).encode_to_vec();
        assert_eq!(mine, reference_feature(t, d, number, seconds, nanos, lat, lng));
    }
}

#[test]
fn report_with_n_readings_reads_back_with_the_same_values() {
    for n in [0usize, 1, 2, 7, 100] {
        let features: Vec<BoatDataFeature> = (0..n)
            .map(|i| {
                let x = i as f64;
                let layer = [Layer::Surface, Layer::Middle, Layer::SeaBed][i % 3];
                feature(10.0 + x / 3.0, x * 0.5, layer, 1_700_000_000 + i as i64, (i * 1000) as i32, 50.0 + x / 100.0, -1.0 - x / 7.0)
            })
            .collect();
        let data = BoatData::new("0.1.0".to_string(), features.clone());
        let bytes = data.encode_to_vec();
        let back = BoatData::decode(&bytes).expect("the report reads back");
        assert_eq!(back.version(), "0.1.0");
        assert_eq!(back.features().len(), n);
        for (got, sent) in back.features().iter().zip(features.iter()) {
            assert_eq!(got.temperature(), sent.temperature());
            assert_eq!(got.depth(), sent.depth());
            assert_eq!(got.layer(), sent.layer());
            assert_eq!(got.time(), sent.time());
            assert_eq!(got.geometry(), sent.geometry());
        }
        assert_eq!(back, data);
    }
}

#[test]
fn unusual_numbers_read_back_bit_for_bit() {
    let features = vec![
        feature(-0.0, f64::NAN, Layer::Surface, -1, -1, f64::INFINITY, f64::NEG_INFINITY),
        feature(f64::MIN, f64::EPSILON, Layer::SeaBed, i64::MIN, i32::MIN, -0.0, 0.0),
        BoatDataFeature::new(
            0x7ff8_0000_0000_0001,
            u64::MAX,
            Layer::Middle,
            Timestamp { seconds: i64::MAX, nanos: i32::MAX },
            LatLng { latitude: 1, longitude: 0x8000_0000_0000_0000 },
        ),
    ];
    let data = BoatData::new(String::new(), features);
    assert_eq!(BoatData::decode(&data.encode_to_vec()), Some(data));
}

#[test]
fn report_has_the_expected_bytes() {
    let data = BoatData::new(
        "0.1.0".to_string(),
        vec![feature(1.0, 0.0, Layer::SeaBed, 3, 0, 0.0, 2.0)],
    );
    let expected: Vec<u8> = vec![
        0x0a, 5, b'0', b'.', b'1', b'.', b'0', // version
        0x12, 26, // one reading
        0x09, 0, 0, 0, 0, 0, 0, 0xf0, 0x3f, // temperature 1.0
        0x18, 2, // sea bed
        0x22, 2, 0x08, 3, // three seconds
        0x2a, 9, 0x11, 0, 0, 0, 0, 0, 0, 0x00, 0x40, // longitude 2.0
    ];
    assert_eq!(data.encode_to_vec(), expected);
    let mut reference: Vec<u8> = Vec::new();
    prost::encoding::string::encode(1, &"0.1.0".to_string(), &mut reference);
    reference.extend_from_slice(&message_field(2, &reference_feature(1.0, 0.0, 2, 3, 0, 0.0, 2.0)));
    assert_eq!(data.encode_to_vec(), reference);
}

#[test]
fn reading_without_time_or_place_is_refused() {
    let whole = feature(1.0, 2.0, Layer::Middle, 3, 4, 5.0, 6.0).encode_to_vec();
    assert!(BoatDataFeature::decode(&whole).is_some());
    // temperature alone
    assert_eq!(BoatDataFeature::decode(&[0x09, 0, 0, 0, 0, 0, 0, 0xf0, 0x3f]), None);
    // a time and no place
    assert_eq!(BoatDataFeature::decode(&[0x22, 2, 0x08, 3]), None);
    // a place and no time
    assert_eq!(BoatDataFeature::decode(&[0x2a, 0]), None);
    // an empty time and an empty place
    assert_eq!(
        BoatDataFeature::decode(&[0x22, 0, 0x2a, 0]),
        Some(feature(0.0, 0.0, Layer::Surface, 0, 0, 0.0, 0.0))
    );
    assert_eq!(BoatDataFeature::decode(&[]), None);
    assert_eq!(BoatData::decode(&[0x12, 0]), None);
    assert_eq!(BoatData::decode(&[0x12, 2, 0x2a, 0]), None);
}

#[test]
fn second_time_is_read_into_the_first() {
    // seconds 3, then a time with nanos 9 alone
    let bytes = [0x22, 2, 0x08, 3, 0x22, 2, 0x10, 9, 0x2a, 0];
    assert_eq!(
        BoatDataFeature::decode(&bytes),
        Some(feature(0.0, 0.0, Layer::Surface, 3, 9, 0.0, 0.0))
    );
}

#[test]
fn unknown_layer_reads_as_the_surface() {
    let bytes = [0x18, 7, 0x22, 0, 0x2a, 0];
    assert_eq!(
        BoatDataFeature::decode(&bytes),
        Some(feature(0.0, 0.0, Layer::Surface, 0, 0, 0.0, 0.0))
    );
}

#[test]
fn report_that_is_no_message_is_refused() {
    assert_eq!(BoatData::decode(&[]), Some(BoatData::new(String::new(), vec![])));
    assert_eq!(BoatData::decode(&[0x0a]), None);
    assert_eq!(BoatData::decode(&[0x0a, 2, 0xc3, 0x28]), None);
    assert_eq!(BoatData::decode(&[0x08, 1]), None);
    assert_eq!(BoatData::decode(&[0x10, 1]), None);
    assert_eq!(BoatData::decode(&[0x18, 1]), Some(BoatData::new(String::new(), vec![])));
    assert_eq!(BoatData::decode(&[0x0a, 1, b'x']), Some(BoatData::new("x".to_string(), vec![])));
}

#[test]
fn greeting_round_trip() {
    let greeting = Connect { version: "0.1.0".to_string() };
    assert_eq!(greeting.encode_to_vec(), vec![0x0a, 5, b'0', b'.', b'1', b'.', b'0']);
    assert_eq!(Connect::decode(&greeting.encode_to_vec()), Some(greeting));
    let text = Connect { version: "caf\u{e9} \u{26f5}".to_string() };
    assert_eq!(Connect::decode(&text.encode_to_vec()), Some(text));
    assert_eq!(Connect { version: String::new() }.encode_to_vec(), Vec::<u8>::new());
    assert_eq!(Connect::decode(&[]), Some(Connect { version: String::new() }));
    assert_eq!(Connect::decode(&[0x0a, 1, 0xff]), None);
    assert_eq!(Connect::decode(&[0x08, 1]), None);
    assert_eq!(Connect::decode(&[0x10, 1]), Some(Connect { version: String::new() }));
    // the greeting is the outside message that holds one text
    assert_eq!(
        Connect { version: "0.1.0".to_string() }.encode_to_vec(),
        "0.1.0".to_string().encode_to_vec()
    );
}

#[test]
fn acknowledgement_is_empty() {
    assert_eq!(Received {}.encode_to_vec(), Vec::<u8>::new());
    assert_eq!(Received::decode(&[]), Some(Received {}));
    assert_eq!(Received::decode(&[0x08, 1, 0x12, 1, 0]), Some(Received {}));
    assert_eq!(Received::decode(&[0x08]), None);
    assert_eq!(Received::decode(&[0x0b]), None);
}

#[test]
fn layer_is_the_low_32_bits_of_its_varint() {
    // the varint of 2^32 + 2, whose low 32 bits are 2
    let bytes = [0x18, 0x82, 0x80, 0x80, 0x80, 0x10, 0x22, 0, 0x2a, 0];
    assert_eq!(
        BoatDataFeature::decode(&bytes),
        Some(feature(0.0, 0.0, Layer::SeaBed, 0, 0, 0.0, 0.0))
    );
    let mut outside: i32 = 0;
    let mut buf: &[u8] = &bytes[1..6];
    prost::encoding::int32::merge(
        prost::encoding::WireType::Varint,
        &mut outside,
        &mut buf,
        prost::encoding::DecodeContext::default(),
    )
    .unwrap();
    assert_eq!(outside, 2);
}
