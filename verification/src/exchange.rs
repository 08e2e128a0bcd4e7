//! The exchange that both the handshake and the transfer of a path are
//! made of: send a frame, wait, read once, and decide; at most ten times.

use vstd::prelude::*;
use crate::error::{CommError, CommErrorView};
use crate::event::{Action, ActionView, Event, EventView, ReadOutcomeView, REPLY_DELAY_MS};
use crate::packet::PacketType;
use crate::port::{disconnected, outcome_view, received, BoatPort, PortView};

verus! {

/// The number of attempts after which an exchange gives up.
pub const MAX_ATTEMPTS: u8 = 10;

/// Where an exchange stands.
#[derive(Clone, Copy, Debug, PartialEq, Eq, Structural)]
pub enum Phase {
    /// Nothing has been asked of the driver yet.
    Idle,
    /// The driver is writing the frame.
    Sending,
    /// The driver lets the reply delay pass.
    Waiting,
    /// The driver is reading the transport.
    Reading,
    /// The exchange has ended.
    Done,
}

/// An exchange in progress.
#[derive(Debug)]
pub struct Exchange {
    frame: Vec<u8>,
    expect: PacketType,
    closing: bool,
    attempts: u8,
    phase: Phase,
    verdict: Result<(), CommError>,
}

/// What an exchange holds.
pub struct ExchangeView {
    /// The frame that each attempt sends.
    pub frame: Seq<u8>,
    /// The kind of reply that ends the exchange well.
    pub expect: PacketType,
    /// Whether the link is taken down when the exchange ends badly.
    pub closing: bool,
    /// The number of attempts begun.
    pub attempts: nat,
    /// Where the exchange stands.
    pub phase: Phase,
    /// How the exchange ended, once it is done.
    pub verdict: Result<(), CommErrorView>,
}

impl View for Exchange {
    type V = ExchangeView;

    closed spec fn view(&self) -> ExchangeView {
        ExchangeView {
            frame: self.frame@,
            expect: self.expect,
            closing: self.closing,
            attempts: self.attempts as nat,
            phase: self.phase,
            verdict: outcome_view(self.verdict),
        }
    }
}

/// An exchange of which nothing has happened yet.
pub open spec fn fresh(frame: Seq<u8>, expect: PacketType, closing: bool) -> ExchangeView {
    ExchangeView { frame, expect, closing, attempts: 0, phase: Phase::Idle, verdict: Ok(()) }
}

/// One step of an exchange: the exchange and the link afterwards, and what
/// the driver is asked to do.
pub type Stepped = (ExchangeView, PortView, ActionView<Result<(), CommErrorView>>);

/// The exchange ends with `verdict`. A closing exchange that ends badly
/// takes the link down.
pub open spec fn finish(x: ExchangeView, port: PortView, verdict: Result<(), CommErrorView>) -> Stepped {
    (
        ExchangeView { phase: Phase::Done, verdict, ..x },
        if x.closing && verdict is Err {
            disconnected(port)
        } else {
            port
        },
        ActionView::Finished(verdict),
    )
}

/// The next attempt begins with the writing of the frame; after ten
/// attempts the exchange ends without an acknowledgement.
pub open spec fn begin(x: ExchangeView, port: PortView) -> Stepped {
    if x.attempts < MAX_ATTEMPTS {
        (
            ExchangeView { attempts: x.attempts + 1, phase: Phase::Sending, ..x },
            port,
            ActionView::Write(x.frame),
        )
    } else {
        finish(x, port, Err(CommErrorView::NoAcknowledgement))
    }
}

/// What follows from the one receive of an attempt: the expected kind ends
/// the exchange well; another kind, or a failure on a link that is still
/// up, leads to the next attempt; a failure on a link that is down ends the
/// exchange with that failure.
pub open spec fn settle(
    x: ExchangeView,
    port: PortView,
    reply: Result<PacketType, CommErrorView>,
) -> Stepped {
    match reply {
        Ok(kind) => if kind == x.expect {
            finish(x, port, Ok(()))
        } else {
            begin(x, port)
        },
        Err(e) => if port.connected {
            begin(x, port)
        } else {
            finish(x, port, Err(e))
        },
    }
}

/// What an exchange does when the driver reports `event`.
///
/// An exchange of which nothing has happened yet begins its first attempt,
/// whatever the report. From then on a report that does not answer what was
/// asked changes nothing, and the driver is asked the same again. The
/// transport of a link that is down is never read: the receive of such an
/// attempt fails without it.
pub open spec fn exchange_step(x: ExchangeView, port: PortView, event: EventView) -> Stepped {
    match x.phase {
        Phase::Idle => begin(x, port),
        Phase::Sending => match event {
            EventView::Written => (
                ExchangeView { phase: Phase::Waiting, ..x },
                port,
                ActionView::Wait(REPLY_DELAY_MS),
            ),
            EventView::WriteFailed(reason) => finish(x, port, Err(CommErrorView::Transport(reason))),
            _ => (x, port, ActionView::Write(x.frame)),
        },
        Phase::Waiting => match event {
            EventView::Waited => if port.connected {
                (ExchangeView { phase: Phase::Reading, ..x }, port, ActionView::Read)
            } else {
                settle(x, port, Err(CommErrorView::NotConnected))
            },
            _ => (x, port, ActionView::Wait(REPLY_DELAY_MS)),
        },
        Phase::Reading => match event {
            EventView::Read(outcome) => settle(
                x,
                received(port, outcome).0,
                received(port, outcome).1,
            ),
            _ => if port.connected {
                (x, port, ActionView::Read)
            } else {
                settle(x, port, Err(CommErrorView::NotConnected))
            },
        },
        Phase::Done => (x, port, ActionView::Finished(x.verdict)),
    }
}

/// What has come of an exchange once the driver has reported `events` one
/// after the other, beginning from `start`.
pub open spec fn drive(start: Stepped, events: Seq<EventView>) -> Stepped
    decreases events.len(),
{
    if events.len() == 0 {
        start
    } else {
        drive(exchange_step(start.0, start.1, events[0]), events.drop_first())
    }
}

/// The reports of a driver that carries out one attempt after the other:
/// each write succeeds, each pause passes, and the reads give `reads`.
pub open spec fn script(reads: Seq<ReadOutcomeView>) -> Seq<EventView>
    decreases reads.len(),
{
    if reads.len() == 0 {
        Seq::empty()
    } else {
        seq![EventView::Written, EventView::Waited, EventView::Read(reads[0])] + script(
            reads.drop_first(),
        )
    }
}

/// Each of `reads`, taken in by the link one after the other, leaves the
/// link up and brings no message of the kind `expect`: the remote fails to
/// answer, or answers something else.
pub open spec fn all_ignored(expect: PacketType, port: PortView, reads: Seq<ReadOutcomeView>) -> bool
    decreases reads.len(),
{
    reads.len() == 0 || {
        let (next, reply) = received(port, reads[0]);
        &&& next.connected
        &&& reply != Ok::<PacketType, CommErrorView>(expect)
        &&& all_ignored(expect, next, reads.drop_first())
    }
}

/// The link after it has taken in `reads` one after the other.
pub open spec fn port_after(port: PortView, reads: Seq<ReadOutcomeView>) -> PortView
    decreases reads.len(),
{
    if reads.len() == 0 {
        port
    } else {
        port_after(received(port, reads[0]).0, reads.drop_first())
    }
}

/// A link that was up stays up through reads that are all ignored.
pub proof fn lemma_ignored_stays_up(expect: PacketType, port: PortView, reads: Seq<ReadOutcomeView>)
    requires
        port.connected,
        all_ignored(expect, port, reads),
    ensures
        port_after(port, reads).connected,
    decreases reads.len(),
{
    if reads.len() > 0 {
        lemma_ignored_stays_up(expect, received(port, reads[0]).0, reads.drop_first());
    }
}

/// One attempt whose write succeeds comes to the one receive of its read.
proof fn lemma_attempt(x: ExchangeView, port: PortView, read: ReadOutcomeView, rest: Seq<EventView>)
    requires
        x.phase == Phase::Sending,
        port.connected,
    ensures
        drive(
            (x, port, ActionView::Write(x.frame)),
            seq![EventView::Written, EventView::Waited, EventView::Read(read)] + rest,
        ) == drive(
            settle(
                ExchangeView { phase: Phase::Reading, ..x },
                received(port, read).0,
                received(port, read).1,
            ),
            rest,
        ),
{
    let first = seq![EventView::Written, EventView::Waited, EventView::Read(read)] + rest;
    let second = seq![EventView::Waited, EventView::Read(read)] + rest;
    let third = seq![EventView::Read(read)] + rest;
    assert(first.drop_first() =~= second);
    assert(second.drop_first() =~= third);
    assert(third.drop_first() =~= rest);
    let waiting = ExchangeView { phase: Phase::Waiting, ..x };
    let reading = ExchangeView { phase: Phase::Reading, ..x };
    let write: Stepped = (x, port, ActionView::Write(x.frame));
    let wait: Stepped = (waiting, port, ActionView::Wait(REPLY_DELAY_MS));
    let read: Stepped = (reading, port, ActionView::Read);
    assert(exchange_step(x, port, first[0]) == wait);
    assert(exchange_step(waiting, port, second[0]) == read);
    assert(drive(write, first) == drive(wait, second));
    assert(drive(wait, second) == drive(read, third));
    assert(drive(read, third) == drive(exchange_step(reading, port, third[0]), rest));
}

/// An exchange whose attempt is under way ends well with the attempt that
/// is answered, when the attempts before it were ignored: it has then made
/// one attempt for each read, and no more.
pub proof fn lemma_answered(
    x: ExchangeView,
    port: PortView,
    missed: Seq<ReadOutcomeView>,
    hit: ReadOutcomeView,
)
    requires
        x.phase == Phase::Sending,
        x.attempts + missed.len() <= MAX_ATTEMPTS,
        port.connected,
        all_ignored(x.expect, port, missed),
        received(port_after(port, missed), hit).1 == Ok::<PacketType, CommErrorView>(x.expect),
    ensures
        drive((x, port, ActionView::Write(x.frame)), script(missed.push(hit))) == (
            ExchangeView {
                attempts: x.attempts + missed.len(),
                phase: Phase::Done,
                verdict: Ok(()),
                ..x
            },
            received(port_after(port, missed), hit).0,
            ActionView::<Result<(), CommErrorView>>::Finished(Ok(())),
        ),
    decreases missed.len(),
{
    let reads = missed.push(hit);
    let rest = script(reads.drop_first());
    lemma_attempt(x, port, reads[0], rest);
    if missed.len() == 0 {
        assert(reads.drop_first() =~= Seq::<ReadOutcomeView>::empty());
    } else {
        assert(reads.drop_first() =~= missed.drop_first().push(hit));
        let next = ExchangeView { attempts: x.attempts + 1, phase: Phase::Sending, ..x };
        lemma_answered(next, received(port, missed[0]).0, missed.drop_first(), hit);
    }
}

/// An exchange whose attempts are all ignored ends without an
/// acknowledgement after the tenth, and a closing exchange then takes the
/// link down.
pub proof fn lemma_unanswered(x: ExchangeView, port: PortView, reads: Seq<ReadOutcomeView>)
    requires
        x.phase == Phase::Sending,
        x.attempts + reads.len() == MAX_ATTEMPTS + 1,
        x.attempts <= MAX_ATTEMPTS,
        port.connected,
        all_ignored(x.expect, port, reads),
    ensures
        drive((x, port, ActionView::Write(x.frame)), script(reads)) == finish(
            ExchangeView { attempts: MAX_ATTEMPTS as nat, ..x },
            port_after(port, reads),
            Err(CommErrorView::NoAcknowledgement),
        ),
    decreases reads.len(),
{
    let rest = script(reads.drop_first());
    lemma_attempt(x, port, reads[0], rest);
    if reads.len() == 1 {
        assert(reads.drop_first() =~= Seq::<ReadOutcomeView>::empty());
        assert(port_after(received(port, reads[0]).0, reads.drop_first()) == received(
            port,
            reads[0],
        ).0);
    } else {
        let next = ExchangeView { attempts: x.attempts + 1, phase: Phase::Sending, ..x };
        lemma_unanswered(next, received(port, reads[0]).0, reads.drop_first());
    }
}

/// An exchange on a link that is up ends well with exactly as many attempts
/// as it took reads to bring the expected reply, when the reads before
/// were ignored and there were fewer than ten of them.
pub proof fn lemma_exchange_acknowledged(
    x: ExchangeView,
    port: PortView,
    missed: Seq<ReadOutcomeView>,
    hit: ReadOutcomeView,
)
    requires
        x.phase == Phase::Idle,
        x.attempts == 0,
        missed.len() < MAX_ATTEMPTS,
        port.connected,
        all_ignored(x.expect, port, missed),
        received(port_after(port, missed), hit).1 == Ok::<PacketType, CommErrorView>(x.expect),
    ensures
        exchange_step(x, port, EventView::Start).2 == ActionView::<
            Result<(), CommErrorView>,
        >::Write(x.frame),
        drive(exchange_step(x, port, EventView::Start), script(missed.push(hit))) == (
            ExchangeView {
                attempts: missed.len() + 1,
                phase: Phase::Done,
                verdict: Ok(()),
                ..x
            },
            received(port_after(port, missed), hit).0,
            ActionView::<Result<(), CommErrorView>>::Finished(Ok(())),
        ),
{
    let begun = ExchangeView { attempts: 1, phase: Phase::Sending, ..x };
    lemma_answered(begun, port, missed, hit);
}

/// An exchange on a link that is up ends without an acknowledgement after
/// exactly ten attempts when ten reads are all ignored. A closing exchange
/// has then taken the link down; another leaves it up.
pub proof fn lemma_exchange_exhausted(x: ExchangeView, port: PortView, reads: Seq<ReadOutcomeView>)
    requires
        x.phase == Phase::Idle,
        x.attempts == 0,
        reads.len() == MAX_ATTEMPTS,
        port.connected,
        all_ignored(x.expect, port, reads),
    ensures
        drive(exchange_step(x, port, EventView::Start), script(reads)) == (
            ExchangeView {
                attempts: MAX_ATTEMPTS as nat,
                phase: Phase::Done,
                verdict: Err(CommErrorView::NoAcknowledgement),
                ..x
            },
            if x.closing {
                disconnected(port_after(port, reads))
            } else {
                port_after(port, reads)
            },
            ActionView::<Result<(), CommErrorView>>::Finished(
                Err(CommErrorView::NoAcknowledgement),
            ),
        ),
        drive(exchange_step(x, port, EventView::Start), script(reads)).1.connected == !x.closing,
{
    let begun = ExchangeView { attempts: 1, phase: Phase::Sending, ..x };
    lemma_unanswered(begun, port, reads);
    lemma_ignored_stays_up(x.expect, port, reads);
}

impl Exchange {
    #[verifier::type_invariant]
    spec fn within_limit(self) -> bool {
        self.attempts <= MAX_ATTEMPTS
    }

    /// An exchange that sends `frame` and is ended well by a reply of the
    /// kind `expect`. A `closing` exchange takes the link down when it ends
    /// badly.
    pub fn new(frame: Vec<u8>, expect: PacketType, closing: bool) -> (x: Exchange)
        ensures
            x@ == fresh(frame@, expect, closing),
    {
        Exchange { frame, expect, closing, attempts: 0, phase: Phase::Idle, verdict: Ok(()) }
    }

    /// The number of attempts begun, never more than ten.
    pub fn attempts(&self) -> (n: u8)
        ensures
            n == self@.attempts,
            n <= MAX_ATTEMPTS,
    {
        proof {
            use_type_invariant(self);
        }
        self.attempts
    }

    /// Where the exchange stands.
    pub fn phase(&self) -> (phase: Phase)
        ensures
            phase == self@.phase,
            self@.attempts <= MAX_ATTEMPTS,
    {
        proof {
            use_type_invariant(self);
        }
        self.phase
    }

    /// Whether the verdict of the exchange is that it ended well.
    pub fn ended_well(&self) -> (well: bool)
        ensures
            well == (self@.verdict is Ok),
    {
        self.verdict.is_ok()
    }

    fn conclude(&mut self, port: &mut BoatPort, verdict: Result<(), CommError>) -> (action: Action<
        Result<(), CommError>,
    >)
        ensures
            (final(self)@, final(port)@, action.deep()) == finish(
                old(self)@,
                old(port)@,
                outcome_view(verdict),
            ),
    {
        proof {
            use_type_invariant(&*self);
        }
        let again = match &verdict {
            Ok(()) => Ok(()),
            Err(e) => Err(e.duplicate()),
        };
        if self.closing && verdict.is_err() {
            port.disconnect();
        }
        self.phase = Phase::Done;
        self.verdict = verdict;
        Action::Finished(again)
    }

    fn start_attempt(&mut self, port: &mut BoatPort) -> (action: Action<Result<(), CommError>>)
        ensures
            (final(self)@, final(port)@, action.deep()) == begin(old(self)@, old(port)@),
    {
        proof {
            use_type_invariant(&*self);
        }
        if self.attempts < MAX_ATTEMPTS {
            self.attempts = self.attempts + 1;
            self.phase = Phase::Sending;
            let frame = self.frame.clone();
            proof {
                assert(frame@ =~= self.frame@);
            }
            Action::Write(frame)
        } else {
            self.conclude(port, Err(CommError::NoAcknowledgement))
        }
    }

    fn decide(&mut self, port: &mut BoatPort, reply: Result<PacketType, CommError>) -> (action: Action<
        Result<(), CommError>,
    >)
        ensures
            (final(self)@, final(port)@, action.deep()) == settle(
                old(self)@,
                old(port)@,
                outcome_view(reply),
            ),
    {
        match reply {
            Ok(kind) => {
                if kind == self.expect {
                    self.conclude(port, Ok(()))
                } else {
                    self.start_attempt(port)
                }
            },
            Err(e) => {
                if port.connected() {
                    self.start_attempt(port)
                } else {
                    self.conclude(port, Err(e))
                }
            },
        }
    }

    /// Takes the report of the driver and says what to do next.
    pub fn step(&mut self, port: &mut BoatPort, event: Event) -> (action: Action<
        Result<(), CommError>,
    >)
        ensures
            final(self)@ == exchange_step(old(self)@, old(port)@, event@).0,
            final(port)@ == exchange_step(old(self)@, old(port)@, event@).1,
            action.deep() == exchange_step(old(self)@, old(port)@, event@).2,
            final(self)@.attempts <= MAX_ATTEMPTS,
            action is Read ==> final(port)@.connected,
            !old(port)@.connected ==> !final(port)@.connected,
            final(port)@.name == old(port)@.name,
            old(self)@.closing && old(self)@.phase != Phase::Done && (action matches Action::Finished(
                Err(_),
            )) ==> !final(port)@.connected,
    {
        proof {
            use_type_invariant(&*self);
        }
        let action = match self.phase {
            Phase::Idle => self.start_attempt(port),
            Phase::Sending => match event {
                Event::Written => {
                    self.phase = Phase::Waiting;
                    Action::Wait(REPLY_DELAY_MS)
                },
                Event::WriteFailed(reason) => self.conclude(port, Err(CommError::Transport(reason))),
                _ => {
                    let frame = self.frame.clone();
                    proof {
                        assert(frame@ =~= self.frame@);
                    }
                    Action::Write(frame)
                },
            },
            Phase::Waiting => match event {
                Event::Waited => {
                    if port.connected() {
                        self.phase = Phase::Reading;
                        Action::Read
                    } else {
                        self.decide(port, Err(CommError::NotConnected))
                    }
                },
                _ => Action::Wait(REPLY_DELAY_MS),
            },
            Phase::Reading => match event {
                Event::Read(outcome) => {
                    let reply = port.receive_packet(outcome);
                    self.decide(port, reply)
                },
                _ => {
                    if port.connected() {
                        Action::Read
                    } else {
                        self.decide(port, Err(CommError::NotConnected))
                    }
                },
            },
            Phase::Done => {
                let again = match &self.verdict {
                    Ok(()) => Ok(()),
                    Err(e) => Err(e.duplicate()),
                };
                Action::Finished(again)
            },
        };
        proof {
            use_type_invariant(&*self);
        }
        action
    }
}

} // verus!
