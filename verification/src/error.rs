//! The ways in which an operation on a link fails.

use vstd::prelude::*;
use vstd::string::StringExecFns;

verus! {

/// What was wrong with a frame that arrived whole.
#[derive(Clone, Copy, Debug, PartialEq, Eq, Structural)]
pub enum Fault {
    /// The frame holds no valid envelope, or its kind is none of the four
    /// defined.
    Malformed,
    /// The envelope is valid and its message is not.
    Payload,
    /// The envelope carries a path, which only this side sends.
    Misuse,
}

/// Why an operation on a link failed.
#[derive(Clone, Debug, PartialEq, Eq)]
pub enum CommError {
    /// The link is marked disconnected.
    NotConnected,
    /// No whole frame has arrived yet. The caller may try again later.
    NothingReceived,
    /// The transport failed, with the reason it gave. The link is lost.
    Transport(String),
    /// A frame arrived that cannot be processed. The link stays up.
    Protocol(Fault),
    /// A path was sent ten times and never acknowledged.
    NoAcknowledgement,
    /// No link of the given name is in the table.
    NotFound(String),
}

/// Why an operation on a link failed, as plain values.
pub enum CommErrorView {
    NotConnected,
    NothingReceived,
    Transport(Seq<char>),
    Protocol(Fault),
    NoAcknowledgement,
    NotFound(Seq<char>),
}

impl View for CommError {
    type V = CommErrorView;

    open spec fn view(&self) -> CommErrorView {
        match self {
            CommError::NotConnected => CommErrorView::NotConnected,
            CommError::NothingReceived => CommErrorView::NothingReceived,
            CommError::Transport(reason) => CommErrorView::Transport(reason@),
            CommError::Protocol(fault) => CommErrorView::Protocol(*fault),
            CommError::NoAcknowledgement => CommErrorView::NoAcknowledgement,
            CommError::NotFound(name) => CommErrorView::NotFound(name@),
        }
    }
}

/// The text that describes an error to a user.
pub open spec fn message_of(e: CommErrorView) -> Seq<char> {
    match e {
        CommErrorView::NotConnected => "Port not Connected"@,
        CommErrorView::NothingReceived => "Nothing is Received"@,
        CommErrorView::Transport(reason) => reason,
        CommErrorView::Protocol(_) => "Invalid Packet"@,
        CommErrorView::NoAcknowledgement => "No Response from the Port"@,
        CommErrorView::NotFound(name) => "Unable to find port: "@ + name,
    }
}

impl CommError {
    /// A second error that says the same.
    pub fn duplicate(&self) -> (copy: CommError)
        ensures
            copy@ == self@,
    {
        match self {
            CommError::NotConnected => CommError::NotConnected,
            CommError::NothingReceived => CommError::NothingReceived,
            CommError::Transport(reason) => CommError::Transport(reason.clone()),
            CommError::Protocol(fault) => CommError::Protocol(*fault),
            CommError::NoAcknowledgement => CommError::NoAcknowledgement,
            CommError::NotFound(name) => CommError::NotFound(name.clone()),
        }
    }

    /// The text that describes the error to a user.
    pub fn message(&self) -> (text: String)
        ensures
            text@ == message_of(self@),
    {
        match self {
            CommError::NotConnected => String::from_str("Port not Connected"),
            CommError::NothingReceived => String::from_str("Nothing is Received"),
            CommError::Transport(reason) => reason.clone(),
            CommError::Protocol(_) => String::from_str("Invalid Packet"),
            CommError::NoAcknowledgement => String::from_str("No Response from the Port"),
            CommError::NotFound(name) => String::from_str("Unable to find port: ").concat(
                name.as_str(),
            ),
        }
    }
}

} // verus!
