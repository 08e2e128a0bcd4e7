//! The handshake: the exchange of greetings that shows that a boat answers
//! on a link. It opens a link, and later probes one that has gone quiet.

use vstd::prelude::*;
use vstd::string::StringExecFns;
use crate::connection::{connect_bytes, lemma_parse_connect_bytes, Connect};
use crate::error::CommErrorView;
use crate::event::{Action, ActionView, Event, EventView, ReadOutcomeView};
use crate::exchange::{
    all_ignored,
    drive,
    exchange_step,
    fresh,
    lemma_exchange_acknowledged,
    lemma_exchange_exhausted,
    port_after,
    script,
    Exchange,
    ExchangeView,
    Phase,
    Stepped,
    MAX_ATTEMPTS,
};
use crate::frame::{encode, fits, frame_bytes};
use crate::packet::{PacketType, PacketView, PROTOCOL_VERSION};
use crate::port::{disconnected, lemma_receive_frame, received, BoatPort, PortView};

verus! {

/// A handshake in progress.
#[derive(Debug)]
pub struct Handshake {
    exchange: Exchange,
}

impl View for Handshake {
    type V = ExchangeView;

    closed spec fn view(&self) -> ExchangeView {
        self.exchange@
    }
}

/// The frame that a handshake sends: a greeting with the protocol version
/// of this side.
pub open spec fn greeting_frame() -> Seq<u8> {
    frame_bytes(
        PacketView {
            version: PROTOCOL_VERSION@,
            kind: PacketType::Connect,
            data: connect_bytes(PROTOCOL_VERSION@),
        },
    )
}

/// One step of a handshake: the handshake and the link afterwards, and what
/// the driver is asked to do.
pub type Shaken = (ExchangeView, PortView, ActionView<bool>);

/// The step of a handshake that a step of its exchange comes to: the
/// handshake ends with whether the exchange ended well.
pub open spec fn shaken(stepped: Stepped) -> Shaken {
    (
        stepped.0,
        stepped.1,
        match stepped.2 {
            ActionView::Finished(verdict) => ActionView::Finished(verdict is Ok),
            ActionView::Write(bytes) => ActionView::Write(bytes),
            ActionView::Wait(millis) => ActionView::Wait(millis),
            ActionView::Read => ActionView::Read,
        },
    )
}

/// What a handshake does when the driver reports `event`. The handshake is
/// an exchange of greetings that takes the link down when it ends badly.
pub open spec fn handshake_step(h: ExchangeView, port: PortView, event: EventView) -> Shaken {
    shaken(exchange_step(h, port, event))
}

/// A handshake of which nothing has happened yet.
pub open spec fn fresh_handshake() -> ExchangeView {
    fresh(greeting_frame(), PacketType::Connect, true)
}

/// What has come of a handshake once the driver has reported `events` one
/// after the other, beginning from `start`.
pub open spec fn handshake_drive(start: Shaken, events: Seq<EventView>) -> Shaken
    decreases events.len(),
{
    if events.len() == 0 {
        start
    } else {
        handshake_drive(handshake_step(start.0, start.1, events[0]), events.drop_first())
    }
}

/// A handshake goes the way of its exchange.
pub proof fn lemma_handshake_drive(start: Stepped, events: Seq<EventView>)
    ensures
        handshake_drive(shaken(start), events) == shaken(drive(start, events)),
    decreases events.len(),
{
    if events.len() > 0 {
        lemma_handshake_drive(exchange_step(start.0, start.1, events[0]), events.drop_first());
    }
}

/// A handshake on a link that is up begins by sending the greeting, and
/// succeeds with exactly one attempt when the first read brings a greeting.
pub proof fn lemma_handshake_first_attempt(port: PortView, reply: ReadOutcomeView)
    requires
        port.connected,
        received(port, reply).1 == Ok::<PacketType, CommErrorView>(
            PacketType::Connect,
        ),
    ensures
        handshake_step(fresh_handshake(), port, EventView::Start) == (
            ExchangeView { attempts: 1, phase: Phase::Sending, ..fresh_handshake() },
            port,
            ActionView::<bool>::Write(greeting_frame()),
        ),
        handshake_drive(
            handshake_step(fresh_handshake(), port, EventView::Start),
            seq![EventView::Written, EventView::Waited, EventView::Read(reply)],
        ) == (
            ExchangeView {
                attempts: 1,
                phase: Phase::Done,
                verdict: Ok(()),
                ..fresh_handshake()
            },
            received(port, reply).0,
            ActionView::Finished(true),
        ),
{
    let none = Seq::<ReadOutcomeView>::empty();
    lemma_exchange_acknowledged(fresh_handshake(), port, none, reply);
    lemma_handshake_drive(
        exchange_step(fresh_handshake(), port, EventView::Start),
        script(none.push(reply)),
    );
    assert(script(none.push(reply)) =~= seq![
        EventView::Written,
        EventView::Waited,
        EventView::Read(reply),
    ]) by {
        assert(none.push(reply).drop_first() =~= none);
        assert(script(none.push(reply).drop_first()) =~= Seq::<EventView>::empty());
    }
}

/// A handshake on a link that is up and holds no bytes succeeds with
/// exactly one attempt when the first read brings the frame of a greeting,
/// whatever versions the greeting and its envelope name.
pub proof fn lemma_handshake_answered_at_once(
    port: PortView,
    envelope_version: Seq<char>,
    version: Seq<char>,
)
    requires
        port.connected,
        port.buf.len() == 0,
        vstd::utf8::encode_utf8(version).len() <= u64::MAX,
        fits(
            PacketView {
                version: envelope_version,
                kind: PacketType::Connect,
                data: connect_bytes(version),
            },
        ),
    ensures
        handshake_drive(
            handshake_step(fresh_handshake(), port, EventView::Start),
            seq![
                EventView::Written,
                EventView::Waited,
                EventView::Read(
                    ReadOutcomeView::Data(
                        frame_bytes(
                            PacketView {
                                version: envelope_version,
                                kind: PacketType::Connect,
                                data: connect_bytes(version),
                            },
                        ),
                    ),
                ),
            ],
        ) == (
            ExchangeView {
                attempts: 1,
                phase: Phase::Done,
                verdict: Ok(()),
                ..fresh_handshake()
            },
            port,
            ActionView::Finished(true),
        ),
{
    let packet = PacketView {
        version: envelope_version,
        kind: PacketType::Connect,
        data: connect_bytes(version),
    };
    let empty = Seq::<u8>::empty();
    assert(frame_bytes(packet) + empty =~= frame_bytes(packet));
    lemma_parse_connect_bytes(version);
    lemma_receive_frame(port, packet, empty);
    assert(port.buf =~= empty);
    lemma_handshake_first_attempt(port, ReadOutcomeView::Data(frame_bytes(packet)));
}

/// A handshake on a link that is up succeeds with the attempt that brings
/// a greeting, when the attempts before it, fewer than ten, were ignored:
/// it has then made exactly one attempt for each read.
pub proof fn lemma_handshake_succeeds(
    port: PortView,
    missed: Seq<ReadOutcomeView>,
    hit: ReadOutcomeView,
)
    requires
        port.connected,
        missed.len() < MAX_ATTEMPTS,
        all_ignored(PacketType::Connect, port, missed),
        received(port_after(port, missed), hit).1 == Ok::<PacketType, CommErrorView>(
            PacketType::Connect,
        ),
    ensures
        handshake_drive(
            handshake_step(fresh_handshake(), port, EventView::Start),
            script(missed.push(hit)),
        ) == (
            ExchangeView {
                attempts: missed.len() + 1,
                phase: Phase::Done,
                verdict: Ok(()),
                ..fresh_handshake()
            },
            received(port_after(port, missed), hit).0,
            ActionView::Finished(true),
        ),
{
    lemma_exchange_acknowledged(fresh_handshake(), port, missed, hit);
    lemma_handshake_drive(
        exchange_step(fresh_handshake(), port, EventView::Start),
        script(missed.push(hit)),
    );
}

/// A handshake on a link that is up fails after exactly ten attempts when
/// ten reads are all ignored, and the link is then down.
pub proof fn lemma_handshake_exhausted(port: PortView, reads: Seq<ReadOutcomeView>)
    requires
        port.connected,
        reads.len() == MAX_ATTEMPTS,
        all_ignored(PacketType::Connect, port, reads),
    ensures
        handshake_drive(
            handshake_step(fresh_handshake(), port, EventView::Start),
            script(reads),
        ) == (
            ExchangeView {
                attempts: MAX_ATTEMPTS as nat,
                phase: Phase::Done,
                verdict: Err(CommErrorView::NoAcknowledgement),
                ..fresh_handshake()
            },
            disconnected(port_after(port, reads)),
            ActionView::Finished(false),
        ),
        !handshake_drive(
            handshake_step(fresh_handshake(), port, EventView::Start),
            script(reads),
        ).1.connected,
{
    lemma_exchange_exhausted(fresh_handshake(), port, reads);
    lemma_handshake_drive(exchange_step(fresh_handshake(), port, EventView::Start), script(reads));
}

impl Handshake {
    /// A handshake of which nothing has happened yet.
    pub fn new() -> (h: Handshake)
        ensures
            h@ == fresh_handshake(),
    {
        let greeting = Connect { version: String::from_str(PROTOCOL_VERSION) };
        let message = greeting.encode_to_vec();
        let frame = encode(PacketType::Connect, PROTOCOL_VERSION, message.as_slice());
        Handshake { exchange: Exchange::new(frame, PacketType::Connect, true) }
    }

    /// The number of attempts begun, never more than ten.
    pub fn attempts(&self) -> (n: u8)
        ensures
            n == self@.attempts,
            n <= MAX_ATTEMPTS,
    {
        self.exchange.attempts()
    }
}

impl BoatPort {
    /// Takes the report of the driver into the handshake on this link and
    /// says what to do next. The handshake ends with `true` when the boat
    /// has answered with a greeting, and with `false`, the link marked as
    /// down, when a write failed, when the link went down, or when ten
    /// attempts brought no greeting.
    pub fn check_connection(&mut self, handshake: &mut Handshake, event: Event) -> (action: Action<
        bool,
    >)
        ensures
            final(handshake)@ == handshake_step(old(handshake)@, old(self)@, event@).0,
            final(self)@ == handshake_step(old(handshake)@, old(self)@, event@).1,
            action.plain() == handshake_step(old(handshake)@, old(self)@, event@).2,
            final(handshake)@.attempts <= MAX_ATTEMPTS,
            action is Read ==> final(self)@.connected,
            old(handshake)@.closing && old(handshake)@.phase != Phase::Done && action
                == Action::<bool>::Finished(false) ==> !final(self)@.connected,
            !old(self)@.connected ==> !final(self)@.connected,
            final(self)@.name == old(self)@.name,
    {
        match handshake.exchange.step(self, event) {
            Action::Finished(verdict) => Action::Finished(verdict.is_ok()),
            Action::Write(bytes) => Action::Write(bytes),
            Action::Wait(millis) => Action::Wait(millis),
            Action::Read => Action::Read,
        }
    }
}

} // verus!
