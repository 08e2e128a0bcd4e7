//! The planned path that is sent to the boat, and its message on the wire.

use vstd::prelude::*;
use vstd::slice::{slice_subrange, slice_to_vec};
use vstd::string::StringExecFns;
use vstd::utf8::{decode_utf8, encode_utf8, encode_utf8_decode_utf8, encode_utf8_valid_utf8, valid_utf8};
use crate::data::{latlng_applier, latlng_bytes, lemma_latlng_round_trip, origin, LatLng};
use crate::error::{CommError, CommErrorView};
use crate::event::{Action, ActionView, Event, EventView, ReadOutcomeView};
use crate::exchange::{
    all_ignored,
    drive,
    exchange_step,
    fresh,
    lemma_exchange_acknowledged,
    lemma_exchange_exhausted,
    port_after,
    script,
    Exchange,
    ExchangeView,
    Phase,
    MAX_ATTEMPTS,
};
use crate::frame::{encode, fits, frame_bytes};
use crate::packet::{version_part, PacketType, PacketView, PROTOCOL_VERSION};
use crate::port::{lemma_receive_frame, received, BoatPort, PortView};
use crate::wire::{
    bytes_field,
    lemma_merge_step,
    lemma_parse_bytes_field,
    lemma_parse_field_bounds,
    merge_fields,
    put_bytes_field,
    read_field,
    string_from_utf8,
    Value,
    WireField,
    WireValue,
};

verus! {

/// A planned path: the places at which the boat is to take readings, in the
/// order in which it is to visit them.
#[derive(Clone, Debug, PartialEq, Eq)]
pub struct PathData {
    /// The version of the format of the path.
    pub version: String,
    /// The places to visit.
    pub points: Vec<LatLng>,
}

/// What a path holds.
pub struct PathDataView {
    pub version: Seq<char>,
    pub points: Seq<LatLng>,
}

impl View for PathData {
    type V = PathDataView;

    open spec fn view(&self) -> PathDataView {
        PathDataView { version: self.version@, points: self.points@ }
    }
}

/// The bytes of the places of a path: each place as one field 2.
pub open spec fn points_bytes(points: Seq<LatLng>) -> Seq<u8>
    decreases points.len(),
{
    if points.len() == 0 {
        Seq::empty()
    } else {
        bytes_field(2, latlng_bytes(points[0])) + points_bytes(points.drop_first())
    }
}

/// The bytes of a path: its version as field 1, left out when empty, then
/// its places.
pub open spec fn path_bytes(path: PathDataView) -> Seq<u8> {
    version_part(path.version) + points_bytes(path.points)
}

/// Takes one field into a path. Field 1 holds the version as UTF-8 text;
/// each field 2 holds one more place.
pub open spec fn path_apply(acc: PathDataView, f: WireField) -> Option<PathDataView> {
    if f.number == 1 {
        match f.value {
            WireValue::Bytes(b) => if valid_utf8(b) {
                Some(PathDataView { version: decode_utf8(b), ..acc })
            } else {
                None
            },
            _ => None,
        }
    } else if f.number == 2 {
        match f.value {
            WireValue::Bytes(b) => match merge_fields(latlng_applier(), origin(), b) {
                Some(place) => Some(PathDataView { points: acc.points.push(place), ..acc }),
                None => None,
            },
            _ => None,
        }
    } else {
        Some(acc)
    }
}

/// `path_apply` as a value.
pub open spec fn path_applier() -> spec_fn(PathDataView, WireField) -> Option<PathDataView> {
    |acc: PathDataView, f: WireField| path_apply(acc, f)
}

/// The path that the bytes `s` spell.
pub open spec fn parse_path(s: Seq<u8>) -> Option<PathDataView> {
    merge_fields(path_applier(), PathDataView { version: Seq::empty(), points: Seq::empty() }, s)
}

/// The places of a path read back from their bytes after those that were
/// read before.
pub proof fn lemma_points_round_trip(acc: PathDataView, points: Seq<LatLng>)
    ensures
        merge_fields(path_applier(), acc, points_bytes(points)) == Some(
            PathDataView { points: acc.points + points, ..acc },
        ),
    decreases points.len(),
{
    if points.len() == 0 {
        assert(acc.points + points =~= acc.points);
    } else {
        let first = points[0];
        let rest = points.drop_first();
        let body = latlng_bytes(first);
        lemma_latlng_round_trip(first);
        lemma_parse_bytes_field(2, body, points_bytes(rest));
        lemma_merge_step(
            path_applier(),
            acc,
            bytes_field(2, body),
            points_bytes(rest),
            WireField { number: 2, value: WireValue::Bytes(body) },
        );
        let next = PathDataView { points: acc.points.push(first), ..acc };
        lemma_points_round_trip(next, rest);
        assert(next.points + rest =~= acc.points + points);
    }
}

/// A path reads back from its bytes as it was: the same version, and the
/// same places in the same order.
pub proof fn lemma_path_round_trip(path: PathDataView)
    requires
        encode_utf8(path.version).len() <= u64::MAX,
    ensures
        parse_path(path_bytes(path)) == Some(path),
{
    let apply = path_applier();
    let start = PathDataView { version: Seq::empty(), points: Seq::empty() };
    let versioned = PathDataView { version: path.version, ..start };
    let tail = points_bytes(path.points);
    assert(merge_fields(apply, start, path_bytes(path)) == merge_fields(apply, versioned, tail)) by {
        if path.version.len() > 0 {
            let text = encode_utf8(path.version);
            encode_utf8_valid_utf8(path.version);
            encode_utf8_decode_utf8(path.version);
            lemma_parse_bytes_field(1, text, tail);
            lemma_merge_step(
                apply,
                start,
                bytes_field(1, text),
                tail,
                WireField { number: 1, value: WireValue::Bytes(text) },
            );
        } else {
            assert(path_bytes(path) =~= tail);
            assert(versioned.version =~= start.version);
        }
    }
    lemma_points_round_trip(versioned, path.points);
    assert(versioned.points + path.points =~= path.points);
}

/// One more place at the end of a path adds its field at the end of the
/// bytes.
pub proof fn lemma_points_bytes_push(points: Seq<LatLng>, place: LatLng)
    ensures
        points_bytes(points.push(place)) == points_bytes(points) + bytes_field(
            2,
            latlng_bytes(place),
        ),
    decreases points.len(),
{
    let longer = points.push(place);
    assert(longer[0] == if points.len() == 0 { place } else { points[0] });
    if points.len() == 0 {
        assert(longer.drop_first() =~= Seq::<LatLng>::empty());
        assert(points_bytes(longer.drop_first()) =~= Seq::<u8>::empty());
        assert(points_bytes(longer) =~= points_bytes(points) + bytes_field(2, latlng_bytes(place)));
    } else {
        assert(longer.drop_first() =~= points.drop_first().push(place));
        lemma_points_bytes_push(points.drop_first(), place);
        assert(points_bytes(longer) =~= points_bytes(points) + bytes_field(2, latlng_bytes(place)));
    }
}

impl PathData {
    /// Serializes the path.
    pub fn encode_to_vec(&self) -> (out: Vec<u8>)
        ensures
            out@ == path_bytes(self@),
    {
        let mut out: Vec<u8> = Vec::new();
        let text = self.version.as_str().as_bytes();
        if text.len() > 0 {
            put_bytes_field(&mut out, 1, text);
        }
        proof {
            if self.version@.len() > 0 {
                vstd::utf8::encode_utf8_first_scalar(self.version@);
            }
            assert(out@ =~= version_part(self.version@));
            assert(self.points@.subrange(0, 0) =~= Seq::<LatLng>::empty());
        }
        let mut i: usize = 0;
        while i < self.points.len()
            invariant
                i <= self.points.len(),
                out@ == version_part(self.version@) + points_bytes(self.points@.subrange(0, i as int)),
            decreases self.points.len() - i,
        {
            let place = self.points[i].encode_to_vec();
            put_bytes_field(&mut out, 2, place.as_slice());
            proof {
                let done = self.points@.subrange(0, i as int);
                lemma_points_bytes_push(done, self.points@[i as int]);
                assert(done.push(self.points@[i as int]) =~= self.points@.subrange(0, i + 1));
                assert(out@ =~= version_part(self.version@) + points_bytes(
                    self.points@.subrange(0, i + 1),
                ));
            }
            i = i + 1;
        }
        proof {
            assert(self.points@.subrange(0, i as int) =~= self.points@);
        }
        out
    }
}

impl PathData {
    /// Reads a path from exactly the bytes of `buf`. It is refused when the
    /// bytes do not split into fields, when the version is not text, or when
    /// a place is refused.
    pub fn decode(buf: &[u8]) -> (r: Option<PathData>)
        ensures
            match parse_path(buf@) {
                Some(path) => r matches Some(x) && x@ == path,
                None => r is None,
            },
    {
        let mut version: String = String::new();
        let mut points: Vec<LatLng> = Vec::new();
        let mut pos: usize = 0;
        let ghost start = PathDataView { version: Seq::empty(), points: Seq::empty() };
        proof {
            assert(buf@.skip(0) =~= buf@);
        }
        while pos < buf.len()
            invariant
                pos <= buf.len(),
                start == (PathDataView { version: Seq::empty(), points: Seq::empty() }),
                merge_fields(path_applier(), start, buf@) == merge_fields(
                    path_applier(),
                    PathDataView { version: version@, points: points@ },
                    buf@.skip(pos as int),
                ),
            decreases buf.len() - pos,
        {
            let ghost rest = buf@.skip(pos as int);
            let field = match read_field(buf, pos) {
                Some(field) => field,
                None => { return None; },
            };
            proof {
                lemma_parse_field_bounds(rest);
                assert(rest.skip(field.end - pos) =~= buf@.skip(field.end as int));
            }
            if field.number == 1 {
                match field.value {
                    Value::Bytes { start, end } => {
                        match string_from_utf8(slice_to_vec(slice_subrange(buf, start, end))) {
                            Some(text) => { version = text; },
                            None => { return None; },
                        }
                    },
                    _ => { return None; },
                }
            } else if field.number == 2 {
                match field.value {
                    Value::Bytes { start, end } => {
                        match LatLng::decode(slice_subrange(buf, start, end)) {
                            Some(place) => { points.push(place); },
                            None => { return None; },
                        }
                    },
                    _ => { return None; },
                }
            }
            pos = field.end;
        }
        Some(PathData { version, points })
    }
}

impl Default for PathData {
    /// A path of version "0.1.0" without places.
    fn default() -> (path: PathData)
        ensures
            path@ == (PathDataView { version: PROTOCOL_VERSION@, points: Seq::empty() }),
    {
        PathData { version: String::from_str(PROTOCOL_VERSION), points: Vec::new() }
    }
}

/// The transfer of a path in progress.
#[derive(Debug)]
pub struct PathTransfer {
    exchange: Exchange,
}

impl View for PathTransfer {
    type V = ExchangeView;

    closed spec fn view(&self) -> ExchangeView {
        self.exchange@
    }
}

/// The frame that the transfer of `path` sends.
pub open spec fn path_frame(path: PathDataView) -> Seq<u8> {
    frame_bytes(
        PacketView { version: PROTOCOL_VERSION@, kind: PacketType::PathData, data: path_bytes(path) },
    )
}

/// The transfer of `path`, of which nothing has happened yet.
pub open spec fn fresh_transfer(path: PathDataView) -> ExchangeView {
    fresh(path_frame(path), PacketType::Received, false)
}

/// The transfer of a path over a link that is up succeeds with the attempt
/// that brings the acknowledgement, when the attempts before it, fewer than
/// ten, found the remote failing or answering something else: it has then
/// made exactly one attempt for each read.
pub proof fn lemma_transfer_acknowledged(
    path: PathDataView,
    port: PortView,
    missed: Seq<ReadOutcomeView>,
    hit: ReadOutcomeView,
)
    requires
        port.connected,
        missed.len() < MAX_ATTEMPTS,
        all_ignored(PacketType::Received, port, missed),
        received(port_after(port, missed), hit).1 == Ok::<PacketType, CommErrorView>(
            PacketType::Received,
        ),
    ensures
        drive(
            exchange_step(fresh_transfer(path), port, EventView::Start),
            script(missed.push(hit)),
        ) == (
            ExchangeView {
                attempts: missed.len() + 1,
                phase: Phase::Done,
                verdict: Ok(()),
                ..fresh_transfer(path)
            },
            received(port_after(port, missed), hit).0,
            ActionView::<Result<(), CommErrorView>>::Finished(Ok(())),
        ),
{
    lemma_exchange_acknowledged(fresh_transfer(path), port, missed, hit);
}

/// The frame of an acknowledgement, read by a link that is up and holds no
/// bytes, is the reply that ends a transfer well: the link tells of a
/// message of the kind `Received` and is left as it was.
pub proof fn lemma_acknowledgement_received(port: PortView, version: Seq<char>)
    requires
        port.connected,
        port.buf.len() == 0,
        fits(PacketView { version, kind: PacketType::Received, data: Seq::empty() }),
    ensures
        received(
            port,
            ReadOutcomeView::Data(
                frame_bytes(
                    PacketView { version, kind: PacketType::Received, data: Seq::empty() },
                ),
            ),
        ) == (port, Ok::<PacketType, CommErrorView>(PacketType::Received)),
{
    let packet = PacketView { version, kind: PacketType::Received, data: Seq::empty() };
    let empty = Seq::<u8>::empty();
    assert(frame_bytes(packet) + empty =~= frame_bytes(packet));
    lemma_receive_frame(port, packet, empty);
    assert(port.buf =~= empty);
}

/// The transfer of a path over a link that is up fails with "no
/// acknowledgement" after exactly ten attempts when the remote never
/// acknowledges, and the link is still up.
pub proof fn lemma_transfer_unacknowledged(
    path: PathDataView,
    port: PortView,
    reads: Seq<ReadOutcomeView>,
)
    requires
        port.connected,
        reads.len() == MAX_ATTEMPTS,
        all_ignored(PacketType::Received, port, reads),
    ensures
        drive(exchange_step(fresh_transfer(path), port, EventView::Start), script(reads)) == (
            ExchangeView {
                attempts: MAX_ATTEMPTS as nat,
                phase: Phase::Done,
                verdict: Err(CommErrorView::NoAcknowledgement),
                ..fresh_transfer(path)
            },
            port_after(port, reads),
            ActionView::<Result<(), CommErrorView>>::Finished(
                Err(CommErrorView::NoAcknowledgement),
            ),
        ),
        port_after(port, reads).connected,
{
    lemma_exchange_exhausted(fresh_transfer(path), port, reads);
}

impl PathTransfer {
    /// The transfer of `path`, of which nothing has happened yet.
    pub fn new(path: &PathData) -> (transfer: PathTransfer)
        ensures
            transfer@ == fresh_transfer(path@),
    {
        let message = path.encode_to_vec();
        let frame = encode(PacketType::PathData, PROTOCOL_VERSION, message.as_slice());
        PathTransfer { exchange: Exchange::new(frame, PacketType::Received, false) }
    }

    /// The number of attempts begun, never more than ten.
    pub fn attempts(&self) -> (n: u8)
        ensures
            n == self@.attempts,
            n <= MAX_ATTEMPTS,
    {
        self.exchange.attempts()
    }
}

impl BoatPort {
    /// Takes the report of the driver into the transfer of a path over this
    /// link and says what to do next. The transfer ends well when the boat
    /// has acknowledged the path. It ends with the failure of a write, with
    /// the failure of a receive on a link that is down, or, after ten
    /// attempts without an acknowledgement, with `NoAcknowledgement`; the
    /// transfer itself never takes the link down.
    pub fn send_path(&mut self, transfer: &mut PathTransfer, event: Event) -> (action: Action<
        Result<(), CommError>,
    >)
        ensures
            final(transfer)@ == exchange_step(old(transfer)@, old(self)@, event@).0,
            final(self)@ == exchange_step(old(transfer)@, old(self)@, event@).1,
            action.deep() == exchange_step(old(transfer)@, old(self)@, event@).2,
            final(transfer)@.attempts <= MAX_ATTEMPTS,
            action is Read ==> final(self)@.connected,
            !old(self)@.connected ==> !final(self)@.connected,
            final(self)@.name == old(self)@.name,
    {
        transfer.exchange.step(self, event)
    }
}

} // verus!
