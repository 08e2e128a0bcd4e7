//! The health monitor of one link: it keeps reading the link, counts the
//! receives that fail, probes the link with a handshake once the count
//! exceeds ten, and takes a dead link out of the table.

use vstd::prelude::*;
use crate::error::CommErrorView;
use crate::event::{Action, ActionView, Event, EventView, LinkEventView, REPLY_DELAY_MS};
use crate::exchange::{ExchangeView, Phase};
use crate::handshake::{fresh_handshake, greeting_frame, handshake_step, Handshake};
use crate::packet::PacketType;
use crate::port::{received, BoatPort, PortView};
use crate::registry::{
    lemma_position,
    lemma_removed_name_absent,
    position,
    put,
    retired,
    well_kept,
    ConnectedBoats,
    TableView,
};

verus! {

/// The count of failed receives beyond which a link is probed.
pub const FAILURE_LIMIT: u8 = 10;

/// Where a monitor stands.
#[derive(Clone, Copy, Debug, PartialEq, Eq, Structural)]
pub enum Watch {
    /// Nothing has been asked of the driver yet.
    Idle,
    /// The driver is reading the transport.
    Polling,
    /// A handshake probes the link.
    Probing,
    /// The driver lets the time between two polls pass.
    Sleeping,
    /// The monitor has ended.
    Stopped,
}

/// The monitor of one link.
#[derive(Debug)]
pub struct Monitor {
    name: String,
    failures: u8,
    watch: Watch,
    probe: Handshake,
}

/// What a monitor holds.
pub struct MonitorView {
    /// The name of the link that is watched.
    pub name: Seq<char>,
    /// The number of receives that failed since the last probe.
    pub failures: nat,
    /// Where the monitor stands.
    pub watch: Watch,
    /// The handshake that probes the link.
    pub probe: ExchangeView,
}

impl View for Monitor {
    type V = MonitorView;

    closed spec fn view(&self) -> MonitorView {
        MonitorView {
            name: self.name@,
            failures: self.failures as nat,
            watch: self.watch,
            probe: self.probe@,
        }
    }
}

/// One step of a monitor: the monitor and the table afterwards, and what
/// the driver is asked to do.
pub type Watched = (MonitorView, TableView, ActionView<()>);

/// The monitor ends.
pub open spec fn stop(m: MonitorView, table: TableView) -> Watched {
    (MonitorView { watch: Watch::Stopped, ..m }, table, ActionView::Finished(()))
}

/// A poll begins: a link that is up is read; a link that is down leaves the
/// table and the monitor ends, without a read.
pub open spec fn poll(m: MonitorView, table: TableView, i: int) -> Watched {
    if table.ports[i].connected {
        (MonitorView { watch: Watch::Polling, ..m }, table, ActionView::Read)
    } else {
        stop(m, retired(table, i, table.ports[i]))
    }
}

/// What follows from a step of the probe: the probe goes on, or it has
/// shown the link to be up, which clears the count and ends the poll, or it
/// has failed, and the link leaves the table.
pub open spec fn after_probe(
    m: MonitorView,
    table: TableView,
    i: int,
    stepped: (ExchangeView, PortView, ActionView<bool>),
) -> Watched {
    let (probe, link, action) = stepped;
    let watching = MonitorView { probe, ..m };
    match action {
        ActionView::Finished(up) => if up {
            (
                MonitorView { failures: 0, watch: Watch::Sleeping, ..watching },
                put(table, i, link),
                ActionView::Wait(REPLY_DELAY_MS),
            )
        } else {
            stop(watching, retired(table, i, link))
        },
        ActionView::Write(bytes) => (watching, put(table, i, link), ActionView::Write(bytes)),
        ActionView::Wait(millis) => (watching, put(table, i, link), ActionView::Wait(millis)),
        ActionView::Read => (watching, put(table, i, link), ActionView::Read),
    }
}

/// The end of a poll whose link is still up: with more than ten failures
/// counted a probe begins, otherwise the time to the next poll.
pub open spec fn judge(m: MonitorView, table: TableView, i: int, link: PortView) -> Watched {
    if m.failures > FAILURE_LIMIT {
        after_probe(
            MonitorView { watch: Watch::Probing, ..m },
            table,
            i,
            handshake_step(fresh_handshake(), link, EventView::Start),
        )
    } else {
        (
            MonitorView { watch: Watch::Sleeping, ..m },
            put(table, i, link),
            ActionView::Wait(REPLY_DELAY_MS),
        )
    }
}

/// The count after one more failure. Above the limit the count stays as it
/// is: the probe is due either way.
pub open spec fn counted(failures: nat) -> nat {
    if failures <= FAILURE_LIMIT {
        failures + 1
    } else {
        failures
    }
}

/// What follows from the receive of a poll: every failure on a link that is
/// still up is counted, whatever its cause; a failure on a link that is
/// down ends the monitor, and the link leaves the table.
pub open spec fn after_receive(
    m: MonitorView,
    table: TableView,
    i: int,
    link: PortView,
    reply: Result<PacketType, CommErrorView>,
) -> Watched {
    match reply {
        Ok(_) => judge(m, table, i, link),
        Err(_) => if link.connected {
            judge(MonitorView { failures: counted(m.failures), ..m }, table, i, link)
        } else {
            stop(m, retired(table, i, link))
        },
    }
}

/// What a monitor does when the driver reports `event`.
///
/// A monitor whose link is not in the table ends. A report that does not
/// answer what was asked changes nothing, and the driver is asked the same
/// again.
pub open spec fn monitor_step(m: MonitorView, table: TableView, event: EventView) -> Watched {
    if m.watch == Watch::Stopped {
        (m, table, ActionView::Finished(()))
    } else {
        match position(table.ports, m.name) {
            None => stop(m, table),
            Some(i) => match m.watch {
                Watch::Idle => poll(m, table, i),
                Watch::Sleeping => match event {
                    EventView::Waited => poll(m, table, i),
                    _ => (m, table, ActionView::Wait(REPLY_DELAY_MS)),
                },
                Watch::Polling => match event {
                    EventView::Read(outcome) => after_receive(
                        m,
                        table,
                        i,
                        received(table.ports[i], outcome).0,
                        received(table.ports[i], outcome).1,
                    ),
                    _ => poll(m, table, i),
                },
                Watch::Probing => after_probe(
                    m,
                    table,
                    i,
                    handshake_step(m.probe, table.ports[i], event),
                ),
                Watch::Stopped => (m, table, ActionView::Finished(())),
            },
        }
    }
}

/// The failure of a poll that brings the count above ten begins a probe:
/// the monitor of a link that is up, with ten failures counted, answers
/// one more failed receive by sending the greeting of a handshake.
pub proof fn lemma_eleventh_failure_probes(
    m: MonitorView,
    table: TableView,
    i: int,
    link: PortView,
    e: CommErrorView,
)
    requires
        m.failures == FAILURE_LIMIT,
        link.connected,
    ensures
        after_receive(m, table, i, link, Err(e)) == (
            MonitorView {
                failures: FAILURE_LIMIT as nat + 1,
                watch: Watch::Probing,
                probe: handshake_step(fresh_handshake(), link, EventView::Start).0,
                ..m
            },
            put(table, i, link),
            ActionView::<()>::Write(greeting_frame()),
        ),
{
}

/// When the probe of a link fails, the link leaves the table, the event
/// that says that the link was lost is the last of the table's events, and
/// the monitor ends.
pub proof fn lemma_failed_probe_retires(m: MonitorView, table: TableView, event: EventView, i: int)
    requires
        well_kept(table.ports),
        m.watch == Watch::Probing,
        m.probe.closing,
        m.probe.phase != Phase::Done,
        position(table.ports, m.name) == Some(i),
        handshake_step(m.probe, table.ports[i], event).2 == ActionView::Finished(false),
    ensures
        monitor_step(m, table, event).0.watch == Watch::Stopped,
        monitor_step(m, table, event).2 == ActionView::Finished(()),
        monitor_step(m, table, event).1.ports == table.ports.remove(i),
        position(monitor_step(m, table, event).1.ports, m.name) is None,
        monitor_step(m, table, event).1.events.len() > 0,
        monitor_step(m, table, event).1.events.last() == (LinkEventView::LinkLost {
            port: m.name,
        }),
{
    lemma_position(table.ports, m.name);
    lemma_removed_name_absent(table.ports, i);
}

impl Monitor {
    /// The monitor of the link of the given name, of which nothing has
    /// happened yet.
    pub fn new(name: String) -> (m: Monitor)
        ensures
            m@ == (MonitorView {
                name: name@,
                failures: 0,
                watch: Watch::Idle,
                probe: fresh_handshake(),
            }),
    {
        Monitor { name, failures: 0, watch: Watch::Idle, probe: Handshake::new() }
    }

    /// The name of the link that is watched.
    pub fn name(&self) -> (name: &str)
        ensures
            name@ == self@.name,
    {
        self.name.as_str()
    }

    /// The number of receives that failed since the last probe.
    pub fn failures(&self) -> (n: u8)
        ensures
            n == self@.failures,
    {
        self.failures
    }

    /// Whether the monitor is between two polls: the pause that it has
    /// asked for is the time to the next poll, during which the table is
    /// free for others.
    pub fn resting(&self) -> (idle: bool)
        ensures
            idle == (self@.watch == Watch::Sleeping),
    {
        match self.watch {
            Watch::Sleeping => true,
            _ => false,
        }
    }

    /// Whether the monitor has ended.
    pub fn stopped(&self) -> (ended: bool)
        ensures
            ended == (self@.watch == Watch::Stopped),
    {
        match self.watch {
            Watch::Stopped => true,
            _ => false,
        }
    }

    fn retire(&mut self, boats: &mut ConnectedBoats, link: BoatPort) -> (action: Action<()>)
        ensures
            final(self)@ == (MonitorView { watch: Watch::Stopped, ..old(self)@ }),
            final(boats)@ == (TableView {
                events: old(boats)@.events + link@.events,
                ..old(boats)@
            }),
            action.plain() == ActionView::Finished(()),
    {
        let mut link = link;
        boats.adopt_events(&mut link);
        self.watch = Watch::Stopped;
        Action::Finished(())
    }

    fn begin_poll(&mut self, boats: &mut ConnectedBoats, i: usize) -> (action: Action<()>)
        requires
            i < old(boats)@.ports.len(),
        ensures
            final(self)@ == poll(old(self)@, old(boats)@, i as int).0,
            final(boats)@ == poll(old(self)@, old(boats)@, i as int).1,
            action.plain() == poll(old(self)@, old(boats)@, i as int).2,
    {
        if boats.up_at(i) {
            self.watch = Watch::Polling;
            Action::Read
        } else {
            let link = boats.detach(i);
            self.retire(boats, link)
        }
    }

    fn continue_probe(
        &mut self,
        boats: &mut ConnectedBoats,
        i: usize,
        link: BoatPort,
        action: Action<bool>,
        Ghost(before): Ghost<TableView>,
        Ghost(watching): Ghost<MonitorView>,
    ) -> (next: Action<()>)
        requires
            well_kept(before.ports),
            0 <= i < before.ports.len(),
            old(boats)@ == (TableView { ports: before.ports.remove(i as int), ..before }),
            link@.name == before.ports[i as int].name,
            old(self)@ == (MonitorView { probe: old(self)@.probe, ..watching }),
        ensures
            final(self)@ == after_probe(
                watching,
                before,
                i as int,
                (old(self)@.probe, link@, action.plain()),
            ).0,
            final(boats)@ == after_probe(
                watching,
                before,
                i as int,
                (old(self)@.probe, link@, action.plain()),
            ).1,
            next.plain() == after_probe(
                watching,
                before,
                i as int,
                (old(self)@.probe, link@, action.plain()),
            ).2,
    {
        match action {
            Action::Finished(up) => {
                if up {
                    boats.restore(i, link, Ghost(before));
                    self.failures = 0;
                    self.watch = Watch::Sleeping;
                    Action::Wait(REPLY_DELAY_MS)
                } else {
                    self.retire(boats, link)
                }
            },
            Action::Write(bytes) => {
                boats.restore(i, link, Ghost(before));
                Action::Write(bytes)
            },
            Action::Wait(millis) => {
                boats.restore(i, link, Ghost(before));
                Action::Wait(millis)
            },
            Action::Read => {
                boats.restore(i, link, Ghost(before));
                Action::Read
            },
        }
    }

    fn end_poll(
        &mut self,
        boats: &mut ConnectedBoats,
        i: usize,
        link: BoatPort,
        Ghost(before): Ghost<TableView>,
    ) -> (action: Action<()>)
        requires
            well_kept(before.ports),
            0 <= i < before.ports.len(),
            old(boats)@ == (TableView { ports: before.ports.remove(i as int), ..before }),
            link@.name == before.ports[i as int].name,
        ensures
            final(self)@ == judge(old(self)@, before, i as int, link@).0,
            final(boats)@ == judge(old(self)@, before, i as int, link@).1,
            action.plain() == judge(old(self)@, before, i as int, link@).2,
    {
        if self.failures > FAILURE_LIMIT {
            let mut link = link;
            self.probe = Handshake::new();
            self.watch = Watch::Probing;
            let ghost watching = MonitorView { watch: Watch::Probing, ..old(self)@ };
            let first = link.check_connection(&mut self.probe, Event::Start);
            self.continue_probe(boats, i, link, first, Ghost(before), Ghost(watching))
        } else {
            boats.restore(i, link, Ghost(before));
            self.watch = Watch::Sleeping;
            Action::Wait(REPLY_DELAY_MS)
        }
    }

    /// Takes the report of the driver and says what to do next. The monitor
    /// has ended when the action is `Finished`.
    pub fn step(&mut self, boats: &mut ConnectedBoats, event: Event) -> (action: Action<()>)
        ensures
            final(self)@ == monitor_step(old(self)@, old(boats)@, event@).0,
            final(boats)@ == monitor_step(old(self)@, old(boats)@, event@).1,
            action.plain() == monitor_step(old(self)@, old(boats)@, event@).2,
    {
        if let Watch::Stopped = self.watch {
            return Action::Finished(());
        }
        let ghost before = boats@;
        let i: usize = match boats.find(&self.name) {
            Some(i) => i,
            None => {
                self.watch = Watch::Stopped;
                return Action::Finished(());
            },
        };
        proof {
            lemma_position(before.ports, self.name@);
        }
        match self.watch {
            Watch::Idle => self.begin_poll(boats, i),
            Watch::Sleeping => match event {
                Event::Waited => self.begin_poll(boats, i),
                _ => Action::Wait(REPLY_DELAY_MS),
            },
            Watch::Polling => match event {
                Event::Read(outcome) => {
                    let mut link = boats.detach(i);
                    match link.receive_packet(outcome) {
                        Ok(_) => self.end_poll(boats, i, link, Ghost(before)),
                        Err(_) => {
                            if link.connected() {
                                if self.failures <= FAILURE_LIMIT {
                                    self.failures = self.failures + 1;
                                }
                                self.end_poll(boats, i, link, Ghost(before))
                            } else {
                                self.retire(boats, link)
                            }
                        },
                    }
                },
                _ => self.begin_poll(boats, i),
            },
            Watch::Probing => {
                let mut link = boats.detach(i);
                let ghost watching = self@;
                let action = link.check_connection(&mut self.probe, event);
                self.continue_probe(boats, i, link, action, Ghost(before), Ghost(watching))
            },
            Watch::Stopped => Action::Finished(()),
        }
    }
}

} // verus!
