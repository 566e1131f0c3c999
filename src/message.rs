//! Signaling messages and the errors that the core reports.

use vstd::prelude::*;

verus! {

/// What a signaling message asks for.
#[derive(Clone, Copy, Debug, PartialEq, Eq, Structural)]
pub enum MessageKind {
    Offer,
    Answer,
    IceCandidate,
    Join,
    Leave,
}

impl MessageKind {
    /// Offers, answers and ICE candidates are relayed to the other members of
    /// a session; joins and leaves act on the session itself.
    pub open spec fn relayed(self) -> bool {
        match self {
            MessageKind::Offer | MessageKind::Answer | MessageKind::IceCandidate => true,
            _ => false,
        }
    }
}

/// One signaling message: immutable once built.
#[derive(Debug, PartialEq, Eq)]
pub struct SignalingMessage {
    pub kind: MessageKind,
    pub sender_id: u64,
    pub session_id: String,
    pub payload: String,
}

/// A signaling message as a mathematical value.
pub ghost struct MessageView {
    pub kind: MessageKind,
    pub sender_id: u64,
    pub session_id: Seq<char>,
    pub payload: Seq<char>,
}

impl View for SignalingMessage {
    type V = MessageView;

    open spec fn view(&self) -> MessageView {
        MessageView {
            kind: self.kind,
            sender_id: self.sender_id,
            session_id: self.session_id@,
            payload: self.payload@,
        }
    }
}

impl SignalingMessage {
    pub fn new(kind: MessageKind, sender_id: u64, session_id: String, payload: String) -> (r: Self)
        ensures
            r@ == (MessageView { kind, sender_id, session_id: session_id@, payload: payload@ }),
    {
        SignalingMessage { kind, sender_id, session_id, payload }
    }

    /// A second message equal to this one.
    pub fn duplicate(&self) -> (r: Self)
        ensures
            r@ == self@,
    {
        SignalingMessage {
            kind: self.kind,
            sender_id: self.sender_id,
            session_id: self.session_id.clone(),
            payload: self.payload.clone(),
        }
    }
}

/// The errors of the signaling core. Each is local to one connection or one
/// session.
#[derive(Clone, Copy, Debug, PartialEq, Eq, Structural)]
pub enum SignalError {
    /// The connection's transport is closed: it is not registered.
    SendError,
    /// The session already holds as many members as its capacity.
    SessionFull,
    /// No session has the message's session id.
    UnknownSession,
    /// The sender is not a member of the session.
    NotAMember,
    /// A relayed message without a payload.
    MalformedMessage,
    /// The connection is not registered.
    UnknownConnection,
    /// The connection already belongs to another session.
    AlreadyInSession,
}

} // verus!
