//! What passes between the engine and the code that drives it.
//!
//! The engine asks for an `Action`; the driver carries it out on the
//! transport and reports what it saw as an `Event`. What the engine has to
//! tell the rest of the application leaves it as a `LinkEvent`.

use vstd::prelude::*;
use crate::data::{BoatDataView, ReceivedDataPayload};
use crate::error::{CommError, CommErrorView};

verus! {

/// The pause between sending a message and reading the reply, and between
/// two polls of a link, in milliseconds.
pub const REPLY_DELAY_MS: u64 = 200;

/// The symbol rate at which a transport is opened.
pub const BAUD_RATE: u32 = 9600;

/// The longest that one read of the transport may block, in milliseconds.
pub const READ_TIMEOUT_MS: u64 = 100;

/// What one read of the transport gave.
#[derive(Clone, Debug, PartialEq, Eq)]
pub enum ReadOutcome {
    /// The bytes that arrived before the read timed out or ended; there may
    /// be none.
    Data(Vec<u8>),
    /// The read failed for another reason than the timeout.
    Failed(String),
}

/// What one read of the transport gave, as plain values.
pub enum ReadOutcomeView {
    Data(Seq<u8>),
    Failed(Seq<char>),
}

impl View for ReadOutcome {
    type V = ReadOutcomeView;

    open spec fn view(&self) -> ReadOutcomeView {
        match self {
            ReadOutcome::Data(bytes) => ReadOutcomeView::Data(bytes@),
            ReadOutcome::Failed(reason) => ReadOutcomeView::Failed(reason@),
        }
    }
}

/// The error with which a read of the transport ended.
#[derive(Clone, Debug, PartialEq, Eq)]
pub struct ReadError {
    /// Whether the error is that the read timed out.
    pub timed_out: bool,
    /// The text of the error.
    pub reason: String,
}

impl ReadOutcome {
    /// What a read gave that brought `bytes` and ended with `error`, if it
    /// ended with one. A read that timed out has not failed: what arrived
    /// before the timeout counts, and be it nothing.
    pub fn of_read(bytes: Vec<u8>, error: Option<ReadError>) -> (outcome: ReadOutcome)
        ensures
            outcome@ == match error {
                Some(e) => if e.timed_out {
                    ReadOutcomeView::Data(bytes@)
                } else {
                    ReadOutcomeView::Failed(e.reason@)
                },
                None => ReadOutcomeView::Data(bytes@),
            },
    {
        match error {
            Some(e) => if e.timed_out {
                ReadOutcome::Data(bytes)
            } else {
                ReadOutcome::Failed(e.reason)
            },
            None => ReadOutcome::Data(bytes),
        }
    }
}

/// What the driver saw when it carried out the last action.
#[derive(Clone, Debug, PartialEq, Eq)]
pub enum Event {
    /// Nothing yet: the transaction begins.
    Start,
    /// The bytes were written.
    Written,
    /// The write failed, with the reason.
    WriteFailed(String),
    /// The pause is over.
    Waited,
    /// The transport was read.
    Read(ReadOutcome),
}

/// What the driver saw, as plain values.
pub enum EventView {
    Start,
    Written,
    WriteFailed(Seq<char>),
    Waited,
    Read(ReadOutcomeView),
}

impl View for Event {
    type V = EventView;

    open spec fn view(&self) -> EventView {
        match self {
            Event::Start => EventView::Start,
            Event::Written => EventView::Written,
            Event::WriteFailed(reason) => EventView::WriteFailed(reason@),
            Event::Waited => EventView::Waited,
            Event::Read(outcome) => EventView::Read(outcome@),
        }
    }
}

/// What the driver is to do next. `T` is the result of the transaction.
#[derive(Clone, Debug, PartialEq, Eq)]
pub enum Action<T> {
    /// Write these bytes to the transport, and report `Written` or
    /// `WriteFailed`.
    Write(Vec<u8>),
    /// Let this many milliseconds pass, and report `Waited`.
    Wait(u64),
    /// Read the transport once, and report `Read`.
    Read,
    /// Nothing: the transaction has ended with this result.
    Finished(T),
}

/// What the driver is to do next, as plain values.
pub enum ActionView<T> {
    Write(Seq<u8>),
    Wait(u64),
    Read,
    Finished(T),
}

impl<T> Action<T> {
    /// The action as plain values, its result left as it is.
    pub open spec fn plain(self) -> ActionView<T> {
        match self {
            Action::Write(bytes) => ActionView::Write(bytes@),
            Action::Wait(millis) => ActionView::Wait(millis),
            Action::Read => ActionView::Read,
            Action::Finished(result) => ActionView::Finished(result),
        }
    }
}

impl Action<Result<(), CommError>> {
    /// The action as plain values, the error of its result too.
    pub open spec fn deep(self) -> ActionView<Result<(), CommErrorView>> {
        match self {
            Action::Write(bytes) => ActionView::Write(bytes@),
            Action::Wait(millis) => ActionView::Wait(millis),
            Action::Read => ActionView::Read,
            Action::Finished(result) => ActionView::Finished(
                match result {
                    Ok(()) => Ok(()),
                    Err(e) => Err(e@),
                },
            ),
        }
    }
}

/// What the engine tells the rest of the application.
#[derive(Clone, Debug, PartialEq, Eq)]
pub enum LinkEvent {
    /// A link has received a report.
    DataReceived(ReceivedDataPayload),
    /// A link has been lost; the name is that of the link.
    LinkLost(String),
}

/// What the engine tells the rest of the application, as plain values.
pub enum LinkEventView {
    DataReceived { data: BoatDataView, port: Seq<char> },
    LinkLost { port: Seq<char> },
}

impl View for LinkEvent {
    type V = LinkEventView;

    open spec fn view(&self) -> LinkEventView {
        match self {
            LinkEvent::DataReceived(payload) => LinkEventView::DataReceived {
                data: payload.data@,
                port: payload.port@,
            },
            LinkEvent::LinkLost(port) => LinkEventView::LinkLost { port: port@ },
        }
    }
}

/// The events of a list, as plain values.
pub open spec fn events_view(events: Seq<LinkEvent>) -> Seq<LinkEventView> {
    events.map_values(|e: LinkEvent| e@)
}

} // verus!
