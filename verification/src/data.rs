//! Sensor readings reported by the boat, and their message on the wire.
//!
//! Real numbers are held as the 64 bits of their binary64 form, the form in
//! which the wire carries them: the engine moves them and never computes
//! with them.

use vstd::prelude::*;
use vstd::slice::{slice_subrange, slice_to_vec};
use vstd::utf8::{decode_utf8, encode_utf8, encode_utf8_decode_utf8, encode_utf8_valid_utf8, valid_utf8};
use crate::wire::{
    bytes_field,
    fixed64_field,
    lemma_field_lengths,
    lemma_merge_step,
    lemma_parse_bytes_field,
    lemma_parse_field_bounds,
    lemma_parse_fixed64_field,
    lemma_parse_varint_field,
    merge_fields,
    put_bytes_field,
    put_fixed64_field,
    put_varint_field,
    read_field,
    string_from_utf8,
    varint_field,
    Value,
    WireField,
    WireValue,
};

verus! {

/// The layer of the water body that a reading was taken in.
#[derive(Clone, Copy, Debug, PartialEq, Eq, Structural)]
pub enum Layer {
    /// At the surface.
    Surface,
    /// Between the surface and the sea bed.
    Middle,
    /// At the sea bed.
    SeaBed,
}

impl Layer {
    /// The number that stands for this layer on the wire.
    pub open spec fn wire_value(self) -> u64 {
        match self {
            Layer::Surface => 0,
            Layer::Middle => 1,
            Layer::SeaBed => 2,
        }
    }

    /// The layer that `value` stands for. A number that stands for no layer
    /// reads as the surface.
    pub open spec fn of_wire(value: u32) -> Layer {
        if value == 1 {
            Layer::Middle
        } else if value == 2 {
            Layer::SeaBed
        } else {
            Layer::Surface
        }
    }

    /// The name of the layer as text.
    pub open spec fn label(self) -> Seq<char> {
        match self {
            Layer::Surface => "surface"@,
            Layer::Middle => "middle"@,
            Layer::SeaBed => "sea bed"@,
        }
    }

    /// The number that stands for this layer on the wire.
    pub fn to_wire(self) -> (value: u64)
        ensures
            value == self.wire_value(),
            Layer::of_wire(value as u32) == self,
    {
        match self {
            Layer::Surface => 0,
            Layer::Middle => 1,
            Layer::SeaBed => 2,
        }
    }

    /// The layer that `value` stands for.
    pub fn from_wire(value: u32) -> (layer: Layer)
        ensures
            layer == Layer::of_wire(value),
    {
        if value == 1 {
            Layer::Middle
        } else if value == 2 {
            Layer::SeaBed
        } else {
            Layer::Surface
        }
    }

    /// The name of the layer: "surface", "middle" or "sea bed".
    pub fn as_str(&self) -> (name: &'static str)
        ensures
            name@ == self.label(),
    {
        match self {
            Layer::Surface => "surface",
            Layer::Middle => "middle",
            Layer::SeaBed => "sea bed",
        }
    }
}

/// A point in time: whole seconds since the Unix epoch and the nanoseconds
/// past them.
#[derive(Clone, Copy, Debug, PartialEq, Eq, Structural)]
pub struct Timestamp {
    pub seconds: i64,
    pub nanos: i32,
}

/// A place on the globe. Each coordinate is the bit pattern of a binary64
/// number of degrees.
#[derive(Clone, Copy, Debug, PartialEq, Eq, Structural)]
pub struct LatLng {
    pub latitude: u64,
    pub longitude: u64,
}

/// One reading.
#[derive(Clone, Copy, Debug, PartialEq, Eq, Structural)]
pub struct BoatDataFeature {
    /// The bit pattern of the temperature measured.
    pub temperature: u64,
    /// The bit pattern of the depth at which it was measured.
    pub depth: u64,
    /// The layer in which it was measured.
    pub layer: Layer,
    /// The time at which it was measured.
    pub time: Timestamp,
    /// The place at which it was measured.
    pub geometry: LatLng,
}

impl BoatDataFeature {
    /// A reading made of the given parts.
    pub fn new(temperature: u64, depth: u64, layer: Layer, time: Timestamp, geometry: LatLng) -> (feature:
        BoatDataFeature)
        ensures
            feature == (BoatDataFeature { temperature, depth, layer, time, geometry }),
    {
        BoatDataFeature { temperature, depth, layer, time, geometry }
    }

    /// The bit pattern of the temperature measured.
    pub fn temperature(&self) -> (bits: u64)
        ensures
            bits == self.temperature,
    {
        self.temperature
    }

    /// The bit pattern of the depth at which the temperature was measured.
    pub fn depth(&self) -> (bits: u64)
        ensures
            bits == self.depth,
    {
        self.depth
    }

    /// The layer in which the temperature was measured.
    pub fn layer(&self) -> (layer: Layer)
        ensures
            layer == self.layer,
    {
        self.layer
    }

    /// The time at which the temperature was measured.
    pub fn time(&self) -> (time: Timestamp)
        ensures
            time == self.time,
    {
        self.time
    }

    /// The place at which the temperature was measured.
    pub fn geometry(&self) -> (place: LatLng)
        ensures
            place == self.geometry,
    {
        self.geometry
    }
}

/// The readings of one report.
#[derive(Clone, Debug, PartialEq, Eq)]
pub struct BoatData {
    /// The version of the format of the report.
    pub version: String,
    /// The readings.
    pub features: Vec<BoatDataFeature>,
}

/// What a report holds.
pub struct BoatDataView {
    pub version: Seq<char>,
    pub features: Seq<BoatDataFeature>,
}

impl View for BoatData {
    type V = BoatDataView;

    open spec fn view(&self) -> BoatDataView {
        BoatDataView { version: self.version@, features: self.features@ }
    }
}

impl BoatData {
    /// A report made of the given parts.
    pub fn new(version: String, features: Vec<BoatDataFeature>) -> (data: BoatData)
        ensures
            data@ == (BoatDataView { version: version@, features: features@ }),
    {
        BoatData { version, features }
    }

    /// The version of the format of the report.
    pub fn version(&self) -> (version: &str)
        ensures
            version@ == self@.version,
    {
        self.version.as_str()
    }

    /// The readings.
    pub fn features(&self) -> (features: &[BoatDataFeature])
        ensures
            features@ == self@.features,
    {
        self.features.as_slice()
    }
}

impl Default for BoatData {
    /// A report of version "0.1.0" with no readings.
    fn default() -> (data: BoatData)
        ensures
            data@ == (BoatDataView { version: "0.1.0"@, features: Seq::empty() }),
    {
        BoatData { version: "0.1.0".to_string(), features: Vec::new() }
    }
}

/// What is sent outward when a link has received a report.
#[derive(Clone, Debug, PartialEq, Eq)]
pub struct ReceivedDataPayload {
    /// The report.
    pub data: BoatData,
    /// The name of the link that received it.
    pub port: String,
}

impl ReceivedDataPayload {
    /// Pairs a report with the name of the link that received it.
    pub fn new(data: BoatData, port: String) -> (payload: ReceivedDataPayload)
        ensures
            payload.data == data,
            payload.port == port,
    {
        ReceivedDataPayload { data, port }
    }
}

/// Takes one field into a point in time. Field 1 holds the seconds and
/// field 2 the nanoseconds, each as a varint in two's complement.
pub open spec fn timestamp_apply(acc: Timestamp, f: WireField) -> Option<Timestamp> {
    if f.number == 1 {
        match f.value {
            WireValue::Varint(v) => Some(Timestamp { seconds: v as i64, ..acc }),
            _ => None,
        }
    } else if f.number == 2 {
        match f.value {
            WireValue::Varint(v) => Some(Timestamp { nanos: v as i32, ..acc }),
            _ => None,
        }
    } else {
        Some(acc)
    }
}

/// `timestamp_apply` as a value.
pub open spec fn timestamp_applier() -> spec_fn(Timestamp, WireField) -> Option<Timestamp> {
    |acc: Timestamp, f: WireField| timestamp_apply(acc, f)
}

/// Takes one field into a place. Field 1 holds the latitude and field 2 the
/// longitude, each as eight bytes.
pub open spec fn latlng_apply(acc: LatLng, f: WireField) -> Option<LatLng> {
    if f.number == 1 {
        match f.value {
            WireValue::Fixed64(v) => Some(LatLng { latitude: v, ..acc }),
            _ => None,
        }
    } else if f.number == 2 {
        match f.value {
            WireValue::Fixed64(v) => Some(LatLng { longitude: v, ..acc }),
            _ => None,
        }
    } else {
        Some(acc)
    }
}

/// `latlng_apply` as a value.
pub open spec fn latlng_applier() -> spec_fn(LatLng, WireField) -> Option<LatLng> {
    |acc: LatLng, f: WireField| latlng_apply(acc, f)
}

/// The bytes of a place. A coordinate whose bits are all zero is left out.
pub open spec fn latlng_bytes(place: LatLng) -> Seq<u8> {
    let latitude = if place.latitude != 0 {
        fixed64_field(1, place.latitude)
    } else {
        Seq::empty()
    };
    let longitude = if place.longitude != 0 {
        fixed64_field(2, place.longitude)
    } else {
        Seq::empty()
    };
    latitude + longitude
}

impl LatLng {
    /// Serializes the place.
    pub fn encode_to_vec(&self) -> (out: Vec<u8>)
        ensures
            out@ == latlng_bytes(*self),
    {
        let mut out: Vec<u8> = Vec::new();
        if self.latitude != 0 {
            put_fixed64_field(&mut out, 1, self.latitude);
        }
        if self.longitude != 0 {
            put_fixed64_field(&mut out, 2, self.longitude);
        }
        proof {
            assert(out@ =~= latlng_bytes(*self));
        }
        out
    }

    /// Reads a place from exactly the bytes of `buf`.
    pub fn decode(buf: &[u8]) -> (r: Option<LatLng>)
        ensures
            r == merge_fields(latlng_applier(), origin(), buf@),
    {
        merge_latlng(buf, LatLng { latitude: 0, longitude: 0 })
    }
}

/// The fields of a reading as read so far. The time and the place may be
/// missing.
pub struct FeatureFields {
    pub temperature: u64,
    pub depth: u64,
    pub layer: Layer,
    pub time: Option<Timestamp>,
    pub geometry: Option<LatLng>,
}

/// The time that a message without fields spells.
pub open spec fn epoch() -> Timestamp {
    Timestamp { seconds: 0, nanos: 0 }
}

/// The place that a message without fields spells.
pub open spec fn origin() -> LatLng {
    LatLng { latitude: 0, longitude: 0 }
}

/// A reading of which no field has been read.
pub open spec fn no_fields() -> FeatureFields {
    FeatureFields { temperature: 0, depth: 0, layer: Layer::Surface, time: None, geometry: None }
}

/// Takes one field into a reading. Fields 1 and 2 hold the temperature and
/// the depth as eight bytes each, field 3 the layer as the low 32 bits of a
/// varint, field 4 the time and field 5 the place, each as a message. A
/// second time or place is read into the first.
pub open spec fn feature_apply(acc: FeatureFields, f: WireField) -> Option<FeatureFields> {
    if f.number == 1 {
        match f.value {
            WireValue::Fixed64(v) => Some(FeatureFields { temperature: v, ..acc }),
            _ => None,
        }
    } else if f.number == 2 {
        match f.value {
            WireValue::Fixed64(v) => Some(FeatureFields { depth: v, ..acc }),
            _ => None,
        }
    } else if f.number == 3 {
        match f.value {
            WireValue::Varint(v) => Some(FeatureFields { layer: Layer::of_wire(v as u32), ..acc }),
            _ => None,
        }
    } else if f.number == 4 {
        match f.value {
            WireValue::Bytes(b) => {
                let before = match acc.time {
                    Some(t) => t,
                    None => epoch(),
                };
                match merge_fields(timestamp_applier(), before, b) {
                    Some(t) => Some(FeatureFields { time: Some(t), ..acc }),
                    None => None,
                }
            },
            _ => None,
        }
    } else if f.number == 5 {
        match f.value {
            WireValue::Bytes(b) => {
                let before = match acc.geometry {
                    Some(g) => g,
                    None => origin(),
                };
                match merge_fields(latlng_applier(), before, b) {
                    Some(g) => Some(FeatureFields { geometry: Some(g), ..acc }),
                    None => None,
                }
            },
            _ => None,
        }
    } else {
        Some(acc)
    }
}

/// `feature_apply` as a value.
pub open spec fn feature_applier() -> spec_fn(FeatureFields, WireField) -> Option<FeatureFields> {
    |acc: FeatureFields, f: WireField| feature_apply(acc, f)
}

/// The reading that the bytes `s` spell. A reading without a time or
/// without a place is refused.
pub open spec fn parse_feature(s: Seq<u8>) -> Option<BoatDataFeature> {
    match merge_fields(feature_applier(), no_fields(), s) {
        Some(fields) => match (fields.time, fields.geometry) {
            (Some(time), Some(geometry)) => Some(
                BoatDataFeature {
                    temperature: fields.temperature,
                    depth: fields.depth,
                    layer: fields.layer,
                    time,
                    geometry,
                },
            ),
            _ => None,
        },
        None => None,
    }
}

/// Takes one field into a report. Field 1 holds the version as UTF-8 text;
/// each field 2 holds one more reading.
pub open spec fn boat_data_apply(acc: BoatDataView, f: WireField) -> Option<BoatDataView> {
    if f.number == 1 {
        match f.value {
            WireValue::Bytes(b) => if valid_utf8(b) {
                Some(BoatDataView { version: decode_utf8(b), ..acc })
            } else {
                None
            },
            _ => None,
        }
    } else if f.number == 2 {
        match f.value {
            WireValue::Bytes(b) => match parse_feature(b) {
                Some(feature) => Some(BoatDataView { features: acc.features.push(feature), ..acc }),
                None => None,
            },
            _ => None,
        }
    } else {
        Some(acc)
    }
}

/// `boat_data_apply` as a value.
pub open spec fn boat_data_applier() -> spec_fn(BoatDataView, WireField) -> Option<BoatDataView> {
    |acc: BoatDataView, f: WireField| boat_data_apply(acc, f)
}

/// The report that the bytes `s` spell.
pub open spec fn parse_boat_data(s: Seq<u8>) -> Option<BoatDataView> {
    merge_fields(
        boat_data_applier(),
        BoatDataView { version: Seq::empty(), features: Seq::empty() },
        s,
    )
}

/// Reads the fields of a point in time into `init`.
fn merge_timestamp(buf: &[u8], init: Timestamp) -> (r: Option<Timestamp>)
    ensures
        r == merge_fields(timestamp_applier(), init, buf@),
{
    let mut acc = init;
    let mut pos: usize = 0;
    proof {
        assert(buf@.skip(0) =~= buf@);
    }
    while pos < buf.len()
        invariant
            pos <= buf.len(),
            merge_fields(timestamp_applier(), init, buf@) == merge_fields(
                timestamp_applier(),
                acc,
                buf@.skip(pos as int),
            ),
        decreases buf.len() - pos,
    {
        let ghost rest = buf@.skip(pos as int);
        let field = match read_field(buf, pos) {
            Some(field) => field,
            None => { return None; },
        };
        proof {
            lemma_parse_field_bounds(rest);
            assert(rest.skip(field.end - pos) =~= buf@.skip(field.end as int));
        }
        if field.number == 1 {
            match field.value {
                Value::Varint(v) => {
                    acc = Timestamp { seconds: #[verifier::truncate] (v as i64), nanos: acc.nanos };
                },
                _ => { return None; },
            }
        } else if field.number == 2 {
            match field.value {
                Value::Varint(v) => {
                    acc = Timestamp { seconds: acc.seconds, nanos: #[verifier::truncate] (v as i32) };
                },
                _ => { return None; },
            }
        }
        pos = field.end;
    }
    Some(acc)
}

/// Reads the fields of a place into `init`.
fn merge_latlng(buf: &[u8], init: LatLng) -> (r: Option<LatLng>)
    ensures
        r == merge_fields(latlng_applier(), init, buf@),
{
    let mut acc = init;
    let mut pos: usize = 0;
    proof {
        assert(buf@.skip(0) =~= buf@);
    }
    while pos < buf.len()
        invariant
            pos <= buf.len(),
            merge_fields(latlng_applier(), init, buf@) == merge_fields(
                latlng_applier(),
                acc,
                buf@.skip(pos as int),
            ),
        decreases buf.len() - pos,
    {
        let ghost rest = buf@.skip(pos as int);
        let field = match read_field(buf, pos) {
            Some(field) => field,
            None => { return None; },
        };
        proof {
            lemma_parse_field_bounds(rest);
            assert(rest.skip(field.end - pos) =~= buf@.skip(field.end as int));
        }
        if field.number == 1 {
            match field.value {
                Value::Fixed64(v) => {
                    acc = LatLng { latitude: v, longitude: acc.longitude };
                },
                _ => { return None; },
            }
        } else if field.number == 2 {
            match field.value {
                Value::Fixed64(v) => {
                    acc = LatLng { latitude: acc.latitude, longitude: v };
                },
                _ => { return None; },
            }
        }
        pos = field.end;
    }
    Some(acc)
}

impl BoatDataFeature {
    /// Reads a reading from exactly the bytes of `buf`.
    pub fn decode(buf: &[u8]) -> (r: Option<BoatDataFeature>)
        ensures
            r == parse_feature(buf@),
    {
        let mut temperature: u64 = 0;
        let mut depth: u64 = 0;
        let mut layer = Layer::Surface;
        let mut time: Option<Timestamp> = None;
        let mut geometry: Option<LatLng> = None;
        let mut pos: usize = 0;
        proof {
            assert(buf@.skip(0) =~= buf@);
        }
        while pos < buf.len()
            invariant
                pos <= buf.len(),
                merge_fields(feature_applier(), no_fields(), buf@) == merge_fields(
                    feature_applier(),
                    FeatureFields { temperature, depth, layer, time, geometry },
                    buf@.skip(pos as int),
                ),
            decreases buf.len() - pos,
        {
            let ghost rest = buf@.skip(pos as int);
            let field = match read_field(buf, pos) {
                Some(field) => field,
                None => { return None; },
            };
            proof {
                lemma_parse_field_bounds(rest);
                assert(rest.skip(field.end - pos) =~= buf@.skip(field.end as int));
            }
            if field.number == 1 {
                match field.value {
                    Value::Fixed64(v) => { temperature = v; },
                    _ => { return None; },
                }
            } else if field.number == 2 {
                match field.value {
                    Value::Fixed64(v) => { depth = v; },
                    _ => { return None; },
                }
            } else if field.number == 3 {
                match field.value {
                    Value::Varint(v) => {
                        layer = Layer::from_wire(#[verifier::truncate] (v as u32));
                    },
                    _ => { return None; },
                }
            } else if field.number == 4 {
                match field.value {
                    Value::Bytes { start, end } => {
                        let before = match time {
                            Some(t) => t,
                            None => Timestamp { seconds: 0, nanos: 0 },
                        };
                        match merge_timestamp(slice_subrange(buf, start, end), before) {
                            Some(t) => { time = Some(t); },
                            None => { return None; },
                        }
                    },
                    _ => { return None; },
                }
            } else if field.number == 5 {
                match field.value {
                    Value::Bytes { start, end } => {
                        let before = match geometry {
                            Some(g) => g,
                            None => LatLng { latitude: 0, longitude: 0 },
                        };
                        match merge_latlng(slice_subrange(buf, start, end), before) {
                            Some(g) => { geometry = Some(g); },
                            None => { return None; },
                        }
                    },
                    _ => { return None; },
                }
            }
            pos = field.end;
        }
        match (time, geometry) {
            (Some(time), Some(geometry)) => Some(
                BoatDataFeature { temperature, depth, layer, time, geometry },
            ),
            _ => None,
        }
    }
}

impl BoatData {
    /// Reads a report from exactly the bytes of `buf`. It is refused when
    /// the bytes do not split into fields, when the version is not text, or
    /// when a reading is refused.
    pub fn decode(buf: &[u8]) -> (r: Option<BoatData>)
        ensures
            match parse_boat_data(buf@) {
                Some(data) => r matches Some(x) && x@ == data,
                None => r is None,
            },
    {
        let mut version: String = String::new();
        let mut features: Vec<BoatDataFeature> = Vec::new();
        let mut pos: usize = 0;
        let ghost start = BoatDataView { version: Seq::empty(), features: Seq::empty() };
        proof {
            assert(buf@.skip(0) =~= buf@);
        }
        while pos < buf.len()
            invariant
                pos <= buf.len(),
                start == (BoatDataView { version: Seq::empty(), features: Seq::empty() }),
                merge_fields(boat_data_applier(), start, buf@) == merge_fields(
                    boat_data_applier(),
                    BoatDataView { version: version@, features: features@ },
                    buf@.skip(pos as int),
                ),
            decreases buf.len() - pos,
        {
            let ghost rest = buf@.skip(pos as int);
            let field = match read_field(buf, pos) {
                Some(field) => field,
                None => { return None; },
            };
            proof {
                lemma_parse_field_bounds(rest);
                assert(rest.skip(field.end - pos) =~= buf@.skip(field.end as int));
            }
            if field.number == 1 {
                match field.value {
                    Value::Bytes { start, end } => {
                        match string_from_utf8(slice_to_vec(slice_subrange(buf, start, end))) {
                            Some(text) => { version = text; },
                            None => { return None; },
                        }
                    },
                    _ => { return None; },
                }
            } else if field.number == 2 {
                match field.value {
                    Value::Bytes { start, end } => {
                        match BoatDataFeature::decode(slice_subrange(buf, start, end)) {
                            Some(feature) => { features.push(feature); },
                            None => { return None; },
                        }
                    },
                    _ => { return None; },
                }
            }
            pos = field.end;
        }
        Some(BoatData { version, features })
    }
}

/// The bytes of a point in time. A part that is zero is left out.
pub open spec fn timestamp_bytes(time: Timestamp) -> Seq<u8> {
    let seconds = if time.seconds != 0 {
        varint_field(1, time.seconds as u64)
    } else {
        Seq::empty()
    };
    let nanos = if time.nanos != 0 {
        varint_field(2, time.nanos as u64)
    } else {
        Seq::empty()
    };
    seconds + nanos
}

/// The bytes of a reading: temperature, depth and layer, each left out when
/// its bits are all zero, then the time and the place.
pub open spec fn feature_bytes(feature: BoatDataFeature) -> Seq<u8> {
    let temperature = if feature.temperature != 0 {
        fixed64_field(1, feature.temperature)
    } else {
        Seq::empty()
    };
    let depth = if feature.depth != 0 {
        fixed64_field(2, feature.depth)
    } else {
        Seq::empty()
    };
    let layer = if feature.layer != Layer::Surface {
        varint_field(3, feature.layer.wire_value())
    } else {
        Seq::empty()
    };
    temperature + depth + layer + bytes_field(4, timestamp_bytes(feature.time)) + bytes_field(
        5,
        latlng_bytes(feature.geometry),
    )
}

/// The bytes of the readings of a report: each reading as one field 2.
pub open spec fn features_bytes(features: Seq<BoatDataFeature>) -> Seq<u8>
    decreases features.len(),
{
    if features.len() == 0 {
        Seq::empty()
    } else {
        bytes_field(2, feature_bytes(features[0])) + features_bytes(features.drop_first())
    }
}

/// The bytes of a report: its version as field 1, left out when empty, then
/// its readings.
pub open spec fn boat_data_bytes(data: BoatDataView) -> Seq<u8> {
    let version = if data.version.len() == 0 {
        Seq::empty()
    } else {
        bytes_field(1, encode_utf8(data.version))
    };
    version + features_bytes(data.features)
}

/// One more reading at the end of a report adds its field at the end of the
/// bytes.
pub proof fn lemma_features_bytes_push(features: Seq<BoatDataFeature>, feature: BoatDataFeature)
    ensures
        features_bytes(features.push(feature)) == features_bytes(features) + bytes_field(
            2,
            feature_bytes(feature),
        ),
    decreases features.len(),
{
    let longer = features.push(feature);
    let field = bytes_field(2, feature_bytes(feature));
    assert(longer[0] == if features.len() == 0 { feature } else { features[0] });
    if features.len() == 0 {
        assert(longer.drop_first() =~= Seq::<BoatDataFeature>::empty());
        assert(features_bytes(longer.drop_first()) =~= Seq::<u8>::empty());
        assert(features_bytes(longer) =~= features_bytes(features) + field);
    } else {
        assert(longer.drop_first() =~= features.drop_first().push(feature));
        lemma_features_bytes_push(features.drop_first(), feature);
        assert(features_bytes(longer) =~= features_bytes(features) + field);
    }
}

impl Timestamp {
    /// Serializes the point in time.
    pub fn encode_to_vec(&self) -> (out: Vec<u8>)
        ensures
            out@ == timestamp_bytes(*self),
    {
        let mut out: Vec<u8> = Vec::new();
        if self.seconds != 0 {
            put_varint_field(&mut out, 1, #[verifier::truncate] (self.seconds as u64));
        }
        if self.nanos != 0 {
            put_varint_field(&mut out, 2, #[verifier::truncate] (self.nanos as u64));
        }
        proof {
            assert(out@ =~= timestamp_bytes(*self));
        }
        out
    }

    /// Reads a point in time from exactly the bytes of `buf`.
    pub fn decode(buf: &[u8]) -> (r: Option<Timestamp>)
        ensures
            r == merge_fields(timestamp_applier(), epoch(), buf@),
    {
        merge_timestamp(buf, Timestamp { seconds: 0, nanos: 0 })
    }
}

impl BoatDataFeature {
    /// Serializes the reading.
    pub fn encode_to_vec(&self) -> (out: Vec<u8>)
        ensures
            out@ == feature_bytes(*self),
    {
        let mut out: Vec<u8> = Vec::new();
        if self.temperature != 0 {
            put_fixed64_field(&mut out, 1, self.temperature);
        }
        if self.depth != 0 {
            put_fixed64_field(&mut out, 2, self.depth);
        }
        match self.layer {
            Layer::Surface => {},
            _ => {
                put_varint_field(&mut out, 3, self.layer.to_wire());
            },
        }
        let time = self.time.encode_to_vec();
        put_bytes_field(&mut out, 4, time.as_slice());
        let place = self.geometry.encode_to_vec();
        put_bytes_field(&mut out, 5, place.as_slice());
        proof {
            assert(out@ =~= feature_bytes(*self));
        }
        out
    }
}

impl BoatData {
    /// Serializes the report.
    pub fn encode_to_vec(&self) -> (out: Vec<u8>)
        ensures
            out@ == boat_data_bytes(self@),
    {
        let mut out: Vec<u8> = Vec::new();
        let text = self.version.as_str().as_bytes();
        if text.len() > 0 {
            put_bytes_field(&mut out, 1, text);
        }
        let ghost head = out@;
        proof {
            if self.version@.len() > 0 {
                vstd::utf8::encode_utf8_first_scalar(self.version@);
            }
            assert(self.features@.subrange(0, 0) =~= Seq::<BoatDataFeature>::empty());
            assert(out@ =~= head + features_bytes(self.features@.subrange(0, 0)));
        }
        let mut i: usize = 0;
        while i < self.features.len()
            invariant
                i <= self.features.len(),
                head + features_bytes(self.features@) == boat_data_bytes(self@),
                out@ == head + features_bytes(self.features@.subrange(0, i as int)),
            decreases self.features.len() - i,
        {
            let feature = self.features[i].encode_to_vec();
            put_bytes_field(&mut out, 2, feature.as_slice());
            proof {
                let done = self.features@.subrange(0, i as int);
                lemma_features_bytes_push(done, self.features@[i as int]);
                assert(done.push(self.features@[i as int]) =~= self.features@.subrange(0, i + 1));
                assert(out@ =~= head + features_bytes(self.features@.subrange(0, i + 1)));
            }
            i = i + 1;
        }
        proof {
            assert(self.features@.subrange(0, i as int) =~= self.features@);
        }
        out
    }
}

/// A point in time reads back from its bytes as it was.
pub proof fn lemma_timestamp_round_trip(time: Timestamp)
    ensures
        merge_fields(timestamp_applier(), epoch(), timestamp_bytes(time)) == Some(time),
        timestamp_bytes(time).len() <= 22,
{
    let apply = timestamp_applier();
    let secs = time.seconds;
    let nanos = time.nanos;
    let nanos_part = if nanos != 0 {
        varint_field(2, nanos as u64)
    } else {
        Seq::empty()
    };
    let after_seconds = Timestamp { seconds: secs, nanos: 0 };
    let empty = Seq::<u8>::empty();
    lemma_field_lengths(1, secs as u64, empty);
    lemma_field_lengths(2, nanos as u64, empty);
    assert((secs as u64) as i64 == secs) by (bit_vector);
    assert((nanos as u64) as i32 == nanos) by (bit_vector);
    assert(merge_fields(apply, epoch(), timestamp_bytes(time)) == merge_fields(
        apply,
        after_seconds,
        nanos_part,
    )) by {
        if secs != 0 {
            lemma_parse_varint_field(1, secs as u64, nanos_part);
            lemma_merge_step(
                apply,
                epoch(),
                varint_field(1, secs as u64),
                nanos_part,
                WireField { number: 1, value: WireValue::Varint(secs as u64) },
            );
        } else {
            assert(timestamp_bytes(time) =~= nanos_part);
        }
    }
    assert(merge_fields(apply, after_seconds, nanos_part) == Some(time)) by {
        if nanos != 0 {
            assert(nanos_part + empty =~= nanos_part);
            lemma_parse_varint_field(2, nanos as u64, empty);
            lemma_merge_step(
                apply,
                after_seconds,
                nanos_part,
                empty,
                WireField { number: 2, value: WireValue::Varint(nanos as u64) },
            );
        }
    }
}

/// A place reads back from its bytes as it was.
pub proof fn lemma_latlng_round_trip(place: LatLng)
    ensures
        merge_fields(latlng_applier(), origin(), latlng_bytes(place)) == Some(place),
        latlng_bytes(place).len() <= 18,
{
    let apply = latlng_applier();
    let longitude_part = if place.longitude != 0 {
        fixed64_field(2, place.longitude)
    } else {
        Seq::empty()
    };
    let after_latitude = LatLng { latitude: place.latitude, longitude: 0 };
    let empty = Seq::<u8>::empty();
    lemma_field_lengths(1, place.latitude, empty);
    lemma_field_lengths(2, place.longitude, empty);
    assert(merge_fields(apply, origin(), latlng_bytes(place)) == merge_fields(
        apply,
        after_latitude,
        longitude_part,
    )) by {
        if place.latitude != 0 {
            lemma_parse_fixed64_field(1, place.latitude, longitude_part);
            lemma_merge_step(
                apply,
                origin(),
                fixed64_field(1, place.latitude),
                longitude_part,
                WireField { number: 1, value: WireValue::Fixed64(place.latitude) },
            );
        } else {
            assert(latlng_bytes(place) =~= longitude_part);
        }
    }
    assert(merge_fields(apply, after_latitude, longitude_part) == Some(place)) by {
        if place.longitude != 0 {
            assert(longitude_part + empty =~= longitude_part);
            lemma_parse_fixed64_field(2, place.longitude, empty);
            lemma_merge_step(
                apply,
                after_latitude,
                longitude_part,
                empty,
                WireField { number: 2, value: WireValue::Fixed64(place.longitude) },
            );
        }
    }
}

/// An eight-byte field of a reading that is left out when zero reads back
/// into the part it stands for.
proof fn lemma_feature_fixed(acc: FeatureFields, number: u32, value: u64, rest: Seq<u8>)
    requires
        number == 1 || number == 2,
        value == 0 ==> (if number == 1 {
            acc.temperature
        } else {
            acc.depth
        }) == 0,
    ensures
        merge_fields(
            feature_applier(),
            acc,
            (if value != 0 {
                fixed64_field(number, value)
            } else {
                Seq::empty()
            }) + rest,
        ) == merge_fields(
            feature_applier(),
            if number == 1 {
                FeatureFields { temperature: value, ..acc }
            } else {
                FeatureFields { depth: value, ..acc }
            },
            rest,
        ),
{
    if value != 0 {
        lemma_parse_fixed64_field(number, value, rest);
        lemma_merge_step(
            feature_applier(),
            acc,
            fixed64_field(number, value),
            rest,
            WireField { number, value: WireValue::Fixed64(value) },
        );
    } else {
        assert(Seq::<u8>::empty() + rest =~= rest);
    }
}

/// The layer of a reading, left out when it is the surface, reads back.
proof fn lemma_feature_layer(acc: FeatureFields, layer: Layer, rest: Seq<u8>)
    requires
        acc.layer == Layer::Surface,
    ensures
        merge_fields(
            feature_applier(),
            acc,
            (if layer != Layer::Surface {
                varint_field(3, layer.wire_value())
            } else {
                Seq::empty()
            }) + rest,
        ) == merge_fields(feature_applier(), FeatureFields { layer, ..acc }, rest),
{
    if layer != Layer::Surface {
        lemma_parse_varint_field(3, layer.wire_value(), rest);
        lemma_merge_step(
            feature_applier(),
            acc,
            varint_field(3, layer.wire_value()),
            rest,
            WireField { number: 3, value: WireValue::Varint(layer.wire_value()) },
        );
    } else {
        assert(Seq::<u8>::empty() + rest =~= rest);
    }
}

/// The time of a reading reads back.
proof fn lemma_feature_time(acc: FeatureFields, time: Timestamp, rest: Seq<u8>)
    requires
        acc.time is None,
    ensures
        merge_fields(feature_applier(), acc, bytes_field(4, timestamp_bytes(time)) + rest)
            == merge_fields(feature_applier(), FeatureFields { time: Some(time), ..acc }, rest),
{
    let body = timestamp_bytes(time);
    lemma_timestamp_round_trip(time);
    lemma_parse_bytes_field(4, body, rest);
    lemma_merge_step(
        feature_applier(),
        acc,
        bytes_field(4, body),
        rest,
        WireField { number: 4, value: WireValue::Bytes(body) },
    );
}

/// The place of a reading reads back.
proof fn lemma_feature_place(acc: FeatureFields, place: LatLng, rest: Seq<u8>)
    requires
        acc.geometry is None,
    ensures
        merge_fields(feature_applier(), acc, bytes_field(5, latlng_bytes(place)) + rest)
            == merge_fields(feature_applier(), FeatureFields { geometry: Some(place), ..acc }, rest),
{
    let body = latlng_bytes(place);
    lemma_latlng_round_trip(place);
    lemma_parse_bytes_field(5, body, rest);
    lemma_merge_step(
        feature_applier(),
        acc,
        bytes_field(5, body),
        rest,
        WireField { number: 5, value: WireValue::Bytes(body) },
    );
}

/// A reading takes at most a hundred bytes.
proof fn lemma_feature_len(feature: BoatDataFeature)
    ensures
        feature_bytes(feature).len() <= 100,
{
    let empty = Seq::<u8>::empty();
    lemma_timestamp_round_trip(feature.time);
    lemma_latlng_round_trip(feature.geometry);
    lemma_field_lengths(1, feature.temperature, empty);
    lemma_field_lengths(2, feature.depth, empty);
    lemma_field_lengths(3, feature.layer.wire_value(), empty);
    lemma_field_lengths(4, 0, timestamp_bytes(feature.time));
    lemma_field_lengths(5, 0, latlng_bytes(feature.geometry));
}

/// A reading reads back from its bytes as it was.
pub proof fn lemma_feature_round_trip(feature: BoatDataFeature)
    ensures
        parse_feature(feature_bytes(feature)) == Some(feature),
        feature_bytes(feature).len() <= 100,
{
    let apply = feature_applier();
    let empty = Seq::<u8>::empty();
    let s4 = bytes_field(5, latlng_bytes(feature.geometry));
    let s3 = bytes_field(4, timestamp_bytes(feature.time)) + s4;
    let layer_part = if feature.layer != Layer::Surface {
        varint_field(3, feature.layer.wire_value())
    } else {
        Seq::empty()
    };
    let s2 = layer_part + s3;
    let depth_part = if feature.depth != 0 {
        fixed64_field(2, feature.depth)
    } else {
        Seq::empty()
    };
    let s1 = depth_part + s2;
    let temperature_part = if feature.temperature != 0 {
        fixed64_field(1, feature.temperature)
    } else {
        Seq::empty()
    };
    let a0 = no_fields();
    let a1 = FeatureFields { temperature: feature.temperature, ..a0 };
    let a2 = FeatureFields { depth: feature.depth, ..a1 };
    let a3 = FeatureFields { layer: feature.layer, ..a2 };
    let a4 = FeatureFields { time: Some(feature.time), ..a3 };
    let a5 = FeatureFields { geometry: Some(feature.geometry), ..a4 };
    lemma_feature_len(feature);
    assert(feature_bytes(feature) =~= temperature_part + s1);
    assert(s4 + empty =~= s4);
    lemma_feature_fixed(a0, 1, feature.temperature, s1);
    lemma_feature_fixed(a1, 2, feature.depth, s2);
    lemma_feature_layer(a2, feature.layer, s3);
    lemma_feature_time(a3, feature.time, s4);
    lemma_feature_place(a4, feature.geometry, empty);
    assert(merge_fields(apply, a5, empty) == Some(a5));
}

/// The readings of a report read back from their bytes after those that
/// were read before.
pub proof fn lemma_features_round_trip(acc: BoatDataView, features: Seq<BoatDataFeature>)
    ensures
        merge_fields(boat_data_applier(), acc, features_bytes(features)) == Some(
            BoatDataView { features: acc.features + features, ..acc },
        ),
    decreases features.len(),
{
    if features.len() == 0 {
        assert(acc.features + features =~= acc.features);
    } else {
        let first = features[0];
        let rest = features.drop_first();
        let body = feature_bytes(first);
        lemma_feature_round_trip(first);
        lemma_parse_bytes_field(2, body, features_bytes(rest));
        lemma_merge_step(
            boat_data_applier(),
            acc,
            bytes_field(2, body),
            features_bytes(rest),
            WireField { number: 2, value: WireValue::Bytes(body) },
        );
        let next = BoatDataView { features: acc.features.push(first), ..acc };
        lemma_features_round_trip(next, rest);
        assert(next.features + rest =~= acc.features + features);
    }
}

/// A report with any number of readings reads back from its bytes as it
/// was: the same version, and the same readings in the same order, each
/// with the same temperature, depth, layer, time and place.
pub proof fn lemma_boat_data_round_trip(data: BoatDataView)
    requires
        encode_utf8(data.version).len() <= u64::MAX,
    ensures
        parse_boat_data(boat_data_bytes(data)) == Some(data),
{
    let apply = boat_data_applier();
    let start = BoatDataView { version: Seq::empty(), features: Seq::empty() };
    let versioned = BoatDataView { version: data.version, ..start };
    let tail = features_bytes(data.features);
    assert(merge_fields(apply, start, boat_data_bytes(data)) == merge_fields(apply, versioned, tail))
        by {
        if data.version.len() > 0 {
            let text = encode_utf8(data.version);
            encode_utf8_valid_utf8(data.version);
            encode_utf8_decode_utf8(data.version);
            lemma_parse_bytes_field(1, text, tail);
            lemma_merge_step(
                apply,
                start,
                bytes_field(1, text),
                tail,
                WireField { number: 1, value: WireValue::Bytes(text) },
            );
        } else {
            assert(boat_data_bytes(data) =~= tail);
            assert(versioned.version =~= start.version);
        }
    }
    lemma_features_round_trip(versioned, data.features);
    assert(versioned.features + data.features =~= data.features);
}

} // verus!
