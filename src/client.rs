//! The client's start-up protocol in two phases: first the media capture,
//! which the host performs, then the signaling socket. The host performs
//! each action and hands back the event that came of it.

use vstd::prelude::*;

verus! {

/// What the client knows of its own progress.
#[derive(Clone, Copy, Debug, PartialEq, Eq, Structural)]
pub struct ClientState {
    /// A media request is in flight.
    pub awaiting_media: bool,
    /// The local media stream is held.
    pub has_media: bool,
    /// The signaling socket is open.
    pub socket_open: bool,
}

/// What happened at the client's edge.
#[derive(Clone, Copy, Debug, PartialEq, Eq, Structural)]
pub enum ClientEvent {
    /// The user asked to start a session.
    StartSession,
    /// The host granted the media stream.
    GotMedia,
    /// The host refused or failed the media request.
    FailedMedia,
    /// The signaling socket opened.
    SocketOpened,
    /// The signaling socket could not be opened.
    SocketFailed,
    /// The user asked to send a test frame over the socket.
    TestSocket,
}

/// What the host is to do next.
#[derive(Clone, Copy, Debug, PartialEq, Eq, Structural)]
pub enum ClientAction {
    Nothing,
    /// Ask the host for camera access.
    RequestMedia,
    /// Open the signaling socket to the configured server.
    OpenSocket,
    /// Send a test frame over the open socket.
    SendTest,
    /// Tell the user that the media request failed.
    ReportMediaFailure,
    /// Tell the user that the socket could not be opened.
    ReportSocketFailure,
    /// Tell the user that no socket is open.
    ReportNoSocket,
}

impl ClientState {
    pub open spec fn initial() -> ClientState {
        ClientState { awaiting_media: false, has_media: false, socket_open: false }
    }

    /// The state after event `e` and the action it calls for: the media
    /// comes first, and only once it is held is the socket opened.
    pub open spec fn next(self, e: ClientEvent) -> (ClientState, ClientAction) {
        match e {
            ClientEvent::StartSession => (ClientState { awaiting_media: true, ..self }, ClientAction::RequestMedia),
            ClientEvent::GotMedia => (
                ClientState { awaiting_media: false, has_media: true, ..self },
                ClientAction::OpenSocket,
            ),
            ClientEvent::FailedMedia => (ClientState { awaiting_media: false, ..self }, ClientAction::ReportMediaFailure),
            ClientEvent::SocketOpened => if self.has_media {
                (ClientState { socket_open: true, ..self }, ClientAction::Nothing)
            } else {
                (self, ClientAction::Nothing)
            },
            ClientEvent::SocketFailed => (ClientState { socket_open: false, ..self }, ClientAction::ReportSocketFailure),
            ClientEvent::TestSocket => if self.socket_open {
                (self, ClientAction::SendTest)
            } else {
                (self, ClientAction::ReportNoSocket)
            },
        }
    }

    pub fn new() -> (r: ClientState)
        ensures
            r == ClientState::initial(),
    {
        ClientState { awaiting_media: false, has_media: false, socket_open: false }
    }

    /// Applies event `e` and returns the action that the host performs.
    pub fn handle(&mut self, e: ClientEvent) -> (r: ClientAction)
        ensures
            (*final(self), r) == old(self).next(e),
    {
        match e {
            ClientEvent::StartSession => {
                self.awaiting_media = true;
                ClientAction::RequestMedia
            },
            ClientEvent::GotMedia => {
                self.awaiting_media = false;
                self.has_media = true;
                ClientAction::OpenSocket
            },
            ClientEvent::FailedMedia => {
                self.awaiting_media = false;
                ClientAction::ReportMediaFailure
            },
            ClientEvent::SocketOpened => {
                if self.has_media {
                    self.socket_open = true;
                }
                ClientAction::Nothing
            },
            ClientEvent::SocketFailed => {
                self.socket_open = false;
                ClientAction::ReportSocketFailure
            },
            ClientEvent::TestSocket => {
                if self.socket_open {
                    ClientAction::SendTest
                } else {
                    ClientAction::ReportNoSocket
                }
            },
        }
    }
}

/// The socket is never open without the media: the second phase follows
/// the first.
pub proof fn law_socket_after_media(s: ClientState, e: ClientEvent)
    requires
        s.socket_open ==> s.has_media,
    ensures
        s.next(e).0.socket_open ==> s.next(e).0.has_media,
{
}

} // verus!
