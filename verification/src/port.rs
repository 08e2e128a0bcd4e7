//! One link: its name, whether it is up, and the bytes that have arrived
//! and not yet been read as a frame.
//!
//! The transport itself stays with the driver. The driver hands each read
//! to `receive_packet`, writes what `send_packet` returns, and forwards the
//! events that have gathered in the link.

use vstd::prelude::*;
use crate::connection::{parse_connect, parse_received, Connect, Received};
use crate::data::{parse_boat_data, BoatData, ReceivedDataPayload};
use crate::error::{CommError, CommErrorView, Fault};
use crate::event::{events_view, LinkEvent, LinkEventView, ReadOutcome, ReadOutcomeView};
use crate::frame::{
    decode,
    decode_frame,
    encode,
    fits,
    frame_bytes,
    framed,
    lemma_decode_frame_bytes,
    lemma_decode_frame_truncated,
    lemma_decode_unknown_kind,
    stream_bytes,
    Decoded,
    DecodedView,
};
use crate::packet::{envelope_bytes, packet_bytes, Packet, PacketType, PacketView, PROTOCOL_VERSION};
use crate::varint::lemma_varint_len;

verus! {

/// What the platform tells of one serial port, as far as a link needs it.
#[derive(Clone, Debug, PartialEq, Eq)]
pub struct PortInfo {
    /// The name under which the platform opens the port.
    pub port_name: String,
}

/// One link to a boat.
#[derive(Debug)]
pub struct BoatPort {
    name: String,
    connected: bool,
    buf: Vec<u8>,
    events: Vec<LinkEvent>,
}

/// What a link holds.
pub struct PortView {
    /// The name of the link, by which the table finds it.
    pub name: Seq<char>,
    /// Whether the link is up. A link that went down stays down.
    pub connected: bool,
    /// The bytes that have arrived and are not yet read as a frame.
    pub buf: Seq<u8>,
    /// The events that wait to be forwarded.
    pub events: Seq<LinkEventView>,
}

impl View for BoatPort {
    type V = PortView;

    closed spec fn view(&self) -> PortView {
        PortView {
            name: self.name@,
            connected: self.connected,
            buf: self.buf@,
            events: events_view(self.events@),
        }
    }
}

/// A link after it was told to disconnect: it is down, and one more event
/// says that it was lost.
pub open spec fn disconnected(port: PortView) -> PortView {
    PortView {
        connected: false,
        events: port.events.push(LinkEventView::LinkLost { port: port.name }),
        ..port
    }
}

/// What a link makes of a frame that arrived whole: the kind of a greeting
/// or an acknowledgement whose message is valid, the kind of a report that
/// could be read, and a fault for everything else.
pub open spec fn handled(packet: PacketView) -> Result<PacketType, CommErrorView> {
    match packet.kind {
        PacketType::BoatData => match parse_boat_data(packet.data) {
            Some(_) => Ok(PacketType::BoatData),
            None => Err(CommErrorView::Protocol(Fault::Payload)),
        },
        PacketType::Connect => match parse_connect(packet.data) {
            Some(_) => Ok(PacketType::Connect),
            None => Err(CommErrorView::Protocol(Fault::Payload)),
        },
        PacketType::Received => match parse_received(packet.data) {
            Some(_) => Ok(PacketType::Received),
            None => Err(CommErrorView::Protocol(Fault::Payload)),
        },
        PacketType::PathData => Err(CommErrorView::Protocol(Fault::Misuse)),
    }
}

/// The events of a link after it handled a frame: a report that could be
/// read is announced under the name of the link.
pub open spec fn announced(port: PortView, packet: PacketView) -> Seq<LinkEventView> {
    match (packet.kind, parse_boat_data(packet.data)) {
        (PacketType::BoatData, Some(data)) => port.events.push(
            LinkEventView::DataReceived { data, port: port.name },
        ),
        _ => port.events,
    }
}

/// What one read does to a link, and what the caller is told.
///
/// A link that is down fails at once and stays as it is. A failed read
/// takes the link down. Otherwise the bytes read join the buffer, and the
/// buffer is decoded once: without a whole frame the buffer keeps all its
/// bytes; a frame that cannot be processed empties it; a frame that can
/// leaves it without the bytes of that frame.
pub open spec fn received(port: PortView, read: ReadOutcomeView) -> (
    PortView,
    Result<PacketType, CommErrorView>,
) {
    if !port.connected {
        (port, Err(CommErrorView::NotConnected))
    } else {
        match read {
            ReadOutcomeView::Failed(reason) => (
                disconnected(port),
                Err(CommErrorView::Transport(reason)),
            ),
            ReadOutcomeView::Data(bytes) => {
                let buf = port.buf + bytes;
                match decode_frame(buf) {
                    DecodedView::NeedMoreData => (
                        PortView { buf, ..port },
                        Err(CommErrorView::NothingReceived),
                    ),
                    DecodedView::Malformed => (
                        PortView { buf: Seq::empty(), ..port },
                        Err(CommErrorView::Protocol(Fault::Malformed)),
                    ),
                    DecodedView::Frame { packet, consumed } => match handled(packet) {
                        Ok(kind) => (
                            PortView {
                                buf: buf.skip(consumed as int),
                                events: announced(port, packet),
                                ..port
                            },
                            Ok(kind),
                        ),
                        Err(e) => (PortView { buf: Seq::empty(), ..port }, Err(e)),
                    },
                }
            },
        }
    }
}

/// A link that is up and holds no bytes reads a frame that arrives whole,
/// alone or with more bytes behind it, as the envelope it was made from:
/// the caller is told what the link makes of that envelope, and what
/// follows the frame stays in the buffer when the envelope could be acted
/// on.
pub proof fn lemma_receive_frame(port: PortView, packet: PacketView, tail: Seq<u8>)
    requires
        port.connected,
        port.buf.len() == 0,
        fits(packet),
    ensures
        received(port, ReadOutcomeView::Data(frame_bytes(packet) + tail)).1 == handled(packet),
        handled(packet) is Ok ==> received(
            port,
            ReadOutcomeView::Data(frame_bytes(packet) + tail),
        ).0 == (PortView { buf: tail, events: announced(port, packet), ..port }),
{
    let bytes = frame_bytes(packet) + tail;
    assert(port.buf + bytes =~= bytes);
    lemma_decode_frame_bytes(packet, tail);
    assert(bytes.skip(frame_bytes(packet).len() as int) =~= tail);
}

/// A link that is up and holds no bytes answers a frame whose envelope
/// names a kind that is none of the four defined with a protocol error: the
/// buffer is emptied, and the link stays up.
pub proof fn lemma_receive_unknown_kind(
    port: PortView,
    version: Seq<char>,
    kind: u64,
    data: Seq<u8>,
    tail: Seq<u8>,
)
    requires
        port.connected,
        port.buf.len() == 0,
        envelope_bytes(version, kind, data).len() <= usize::MAX,
        !(1 <= kind as u32 <= 4),
    ensures
        received(
            port,
            ReadOutcomeView::Data(framed(envelope_bytes(version, kind, data)) + tail),
        ) == (
            PortView { buf: Seq::empty(), ..port },
            Err::<PacketType, CommErrorView>(CommErrorView::Protocol(Fault::Malformed)),
        ),
{
    let bytes = framed(envelope_bytes(version, kind, data)) + tail;
    assert(port.buf + bytes =~= bytes);
    lemma_decode_unknown_kind(version, kind, data, tail);
}

/// The link at the end, and the kinds of the messages that the link has
/// told of, when the bytes of `incoming` arrive one at a time, each in a
/// read of its own.
pub open spec fn fed(port: PortView, incoming: Seq<u8>) -> (PortView, Seq<PacketType>)
    decreases incoming.len(),
{
    if incoming.len() == 0 {
        (port, Seq::empty())
    } else {
        let (next, reply) = received(port, ReadOutcomeView::Data(seq![incoming[0]]));
        let (last, kinds) = fed(next, incoming.drop_first());
        match reply {
            Ok(kind) => (last, seq![kind] + kinds),
            Err(_) => (last, kinds),
        }
    }
}

/// The link after it has announced the reports among `packets`.
pub open spec fn told(port: PortView, packets: Seq<PacketView>) -> PortView
    decreases packets.len(),
{
    if packets.len() == 0 {
        port
    } else {
        told(PortView { events: announced(port, packets[0]), ..port }, packets.drop_first())
    }
}

/// The kinds of a list of envelopes.
pub open spec fn kinds_of(packets: Seq<PacketView>) -> Seq<PacketType> {
    packets.map_values(|p: PacketView| p.kind)
}

proof fn lemma_fed_frame(port: PortView, packet: PacketView, i: int, tail: Seq<u8>)
    requires
        port.connected,
        fits(packet),
        handled(packet) is Ok,
        0 <= i < frame_bytes(packet).len(),
        port.buf == frame_bytes(packet).subrange(0, i),
    ensures
        fed(port, frame_bytes(packet).subrange(i, frame_bytes(packet).len() as int) + tail) == ({
            let after = PortView {
                buf: Seq::empty(),
                events: announced(port, packet),
                ..port
            };
            (fed(after, tail).0, seq![packet.kind] + fed(after, tail).1)
        }),
    decreases frame_bytes(packet).len() - i,
{
    let f = frame_bytes(packet);
    let n = f.len() as int;
    let incoming = f.subrange(i, n) + tail;
    let grown = port.buf + seq![incoming[0]];
    assert(grown =~= f.subrange(0, i + 1));
    assert(incoming.drop_first() =~= f.subrange(i + 1, n) + tail);
    if i + 1 < n {
        lemma_decode_frame_truncated(packet, i + 1);
        let next = PortView { buf: grown, ..port };
        lemma_fed_frame(next, packet, i + 1, tail);
    } else {
        assert(grown =~= f + Seq::<u8>::empty());
        lemma_decode_frame_bytes(packet, Seq::empty());
        assert(grown.skip(n) =~= Seq::<u8>::empty());
        assert(incoming.drop_first() =~= tail);
    }
}

/// What a link reads does not depend on how the bytes arrive: when the
/// frames of envelopes that the link can act on reach a link that is up and
/// holds no bytes, one byte in each read, the link tells of exactly these
/// messages, in their order, announces the reports among them, and ends
/// with an empty buffer.
pub proof fn lemma_fed_byte_by_byte(port: PortView, packets: Seq<PacketView>)
    requires
        port.connected,
        port.buf.len() == 0,
        forall|i: int| 0 <= i < packets.len() ==> fits(#[trigger] packets[i]),
        forall|i: int| 0 <= i < packets.len() ==> handled(#[trigger] packets[i]) is Ok,
    ensures
        fed(port, stream_bytes(packets)) == (told(port, packets), kinds_of(packets)),
        told(port, packets).buf.len() == 0,
        told(port, packets).connected,
    decreases packets.len(),
{
    if packets.len() == 0 {
        assert(kinds_of(packets) =~= Seq::<PacketType>::empty());
    } else {
        let first = packets[0];
        let f = frame_bytes(first);
        let later = packets.drop_first();
        let tail = stream_bytes(later);
        lemma_varint_len(packet_bytes(first).len());
        assert(port.buf =~= f.subrange(0, 0));
        assert(f.subrange(0, f.len() as int) =~= f);
        lemma_fed_frame(port, first, 0, tail);
        let after = PortView { buf: Seq::empty(), events: announced(port, first), ..port };
        assert(after == (PortView { events: announced(port, first), ..port })) by {
            assert(port.buf =~= Seq::<u8>::empty());
        }
        assert forall|i: int| 0 <= i < later.len() implies fits(#[trigger] later[i]) by {
            assert(later[i] == packets[i + 1]);
        }
        assert forall|i: int| 0 <= i < later.len() implies handled(#[trigger] later[i]) is Ok by {
            assert(later[i] == packets[i + 1]);
        }
        lemma_fed_byte_by_byte(after, later);
        assert(seq![first.kind] + kinds_of(later) =~= kinds_of(packets));
    }
}

/// The result of an operation, its error as plain values.
pub open spec fn outcome_view<T>(r: Result<T, CommError>) -> Result<T, CommErrorView> {
    match r {
        Ok(value) => Ok(value),
        Err(e) => Err(e@),
    }
}

impl BoatPort {
    /// A link of this name that is taken to be up, with nothing received
    /// and nothing to forward. The handshake then shows whether a boat
    /// answers on it.
    pub fn new(port_name: String) -> (port: BoatPort)
        ensures
            port@ == (PortView {
                name: port_name@,
                connected: true,
                buf: Seq::empty(),
                events: Seq::empty(),
            }),
    {
        let port = BoatPort { name: port_name, connected: true, buf: Vec::new(), events: Vec::new() };
        proof {
            assert(port@.events =~= Seq::empty());
        }
        port
    }

    /// A link on the serial port that `port` describes, named as the port
    /// is, taken to be up, with nothing received and nothing to forward.
    pub fn from_port_info(port: PortInfo) -> (link: BoatPort)
        ensures
            link@ == (PortView {
                name: port.port_name@,
                connected: true,
                buf: Seq::empty(),
                events: Seq::empty(),
            }),
    {
        BoatPort::new(port.port_name)
    }

    /// The name of the link.
    pub fn name(&self) -> (name: &str)
        ensures
            name@ == self@.name,
    {
        self.name.as_str()
    }

    /// Whether the link has this name.
    pub fn has_name(&self, name: &String) -> (same: bool)
        ensures
            same == (self@.name == name@),
    {
        self.name == *name
    }

    /// Whether the link is up.
    pub fn connected(&self) -> (up: bool)
        ensures
            up == self@.connected,
    {
        self.connected
    }

    /// The bytes that have arrived and are not yet read as a frame.
    pub fn pending(&self) -> (bytes: &[u8])
        ensures
            bytes@ == self@.buf,
    {
        self.buf.as_slice()
    }

    /// Hands out the events that wait to be forwarded, oldest first, and
    /// leaves none behind.
    pub fn take_events(&mut self) -> (events: Vec<LinkEvent>)
        ensures
            events_view(events@) == old(self)@.events,
            final(self)@ == (PortView { events: Seq::empty(), ..old(self)@ }),
    {
        let mut events: Vec<LinkEvent> = Vec::new();
        std::mem::swap(&mut events, &mut self.events);
        proof {
            assert(final(self)@.events =~= Seq::empty());
        }
        events
    }

    /// Takes the link down and leaves the event that says so.
    pub fn disconnect(&mut self)
        ensures
            final(self)@ == disconnected(old(self)@),
    {
        self.connected = false;
        self.events.push(LinkEvent::LinkLost(self.name.clone()));
        proof {
            assert(final(self)@.events =~= disconnected(old(self)@).events);
        }
    }

    /// The frame to write for a message of the given kind: its envelope
    /// carries the protocol version of this side.
    pub fn send_packet(&self, kind: PacketType, message: &[u8]) -> (frame: Vec<u8>)
        ensures
            frame@ == frame_bytes(
                PacketView { version: PROTOCOL_VERSION@, kind, data: message@ },
            ),
    {
        encode(kind, PROTOCOL_VERSION, message)
    }

    /// Reads the report that `message` spells and leaves the event that
    /// announces it.
    fn handle_boat_data(&mut self, message: &[u8]) -> (r: Result<PacketType, CommError>)
        ensures
            outcome_view(r) == handled(
                PacketView { version: Seq::empty(), kind: PacketType::BoatData, data: message@ },
            ),
            final(self)@ == (PortView {
                events: announced(
                    old(self)@,
                    PacketView {
                        version: Seq::empty(),
                        kind: PacketType::BoatData,
                        data: message@,
                    },
                ),
                ..old(self)@
            }),
    {
        match BoatData::decode(message) {
            Some(data) => {
                let payload = ReceivedDataPayload::new(data, self.name.clone());
                self.events.push(LinkEvent::DataReceived(payload));
                proof {
                    assert(final(self)@.events =~= old(self)@.events.push(
                        LinkEventView::DataReceived {
                            data: parse_boat_data(message@).unwrap(),
                            port: old(self)@.name,
                        },
                    ));
                }
                Ok(PacketType::BoatData)
            },
            None => Err(CommError::Protocol(Fault::Payload)),
        }
    }

    /// Acts on a frame that arrived whole.
    fn handle_packet(&mut self, packet: &Packet) -> (r: Result<PacketType, CommError>)
        ensures
            outcome_view(r) == handled(packet@),
            final(self)@ == (PortView { events: announced(old(self)@, packet@), ..old(self)@ }),
    {
        match packet.kind {
            PacketType::BoatData => self.handle_boat_data(packet.data.as_slice()),
            PacketType::Connect => match Connect::decode(packet.data.as_slice()) {
                Some(_) => Ok(PacketType::Connect),
                None => Err(CommError::Protocol(Fault::Payload)),
            },
            PacketType::Received => match Received::decode(packet.data.as_slice()) {
                Some(_) => Ok(PacketType::Received),
                None => Err(CommError::Protocol(Fault::Payload)),
            },
            PacketType::PathData => Err(CommError::Protocol(Fault::Misuse)),
        }
    }

    /// Takes in what one read of the transport gave and tries to read one
    /// frame from the buffer.
    ///
    /// On a link that is down this fails with `NotConnected` whatever was
    /// read, and changes nothing: the driver asks `connected` first and
    /// does not read the transport of such a link.
    pub fn receive_packet(&mut self, read: ReadOutcome) -> (r: Result<PacketType, CommError>)
        ensures
            final(self)@ == received(old(self)@, read@).0,
            outcome_view(r) == received(old(self)@, read@).1,
            !old(self)@.connected ==> final(self)@ == old(self)@ && outcome_view(r) == Err::<
                PacketType,
                CommErrorView,
            >(CommErrorView::NotConnected),
            outcome_view(r) == Err::<PacketType, CommErrorView>(CommErrorView::NothingReceived)
                ==> read@ is Data && final(self)@.buf == old(self)@.buf + read@->Data_0,
            final(self)@.name == old(self)@.name,
    {
        if !self.connected {
            return Err(CommError::NotConnected);
        }
        match read {
            ReadOutcome::Failed(reason) => {
                self.disconnect();
                Err(CommError::Transport(reason))
            },
            ReadOutcome::Data(bytes) => {
                self.buf.extend_from_slice(bytes.as_slice());
                proof {
                    assert(self.buf@ =~= old(self)@.buf + bytes@);
                }
                match decode(self.buf.as_slice()) {
                    Decoded::NeedMoreData => Err(CommError::NothingReceived),
                    Decoded::Malformed => {
                        self.buf.clear();
                        Err(CommError::Protocol(Fault::Malformed))
                    },
                    Decoded::Frame { packet, consumed } => {
                        match self.handle_packet(&packet) {
                            Ok(kind) => {
                                let rest = self.buf.split_off(consumed);
                                self.buf = rest;
                                proof {
                                    let buf = old(self)@.buf + bytes@;
                                    assert(final(self)@.buf =~= buf.skip(consumed as int));
                                }
                                Ok(kind)
                            },
                            Err(e) => {
                                self.buf.clear();
                                Err(e)
                            },
                        }
                    },
                }
            },
        }
    }
}

} // verus!
