//! The per-peer session state machine, from connect to
//! ready-to-download.  The decisions live here as a pure transition
//! function; the surrounding program performs the actions it
//! prescribes and hands the next event back.

use vstd::prelude::*;

verus! {

/// Where a session stands.
#[derive(Debug, Clone, Copy, PartialEq, Eq, Structural)]
pub enum SessionState {
    /// Nothing exchanged yet.
    Init,
    /// Handshakes exchanged and the peer's info-hash verified.
    Handshook,
    /// The peer's bitfield has arrived.
    BitfieldKnown,
    /// The extension handshake has been answered.
    ExtReady,
    /// Interested sent and unchoke received: requests may flow.
    Ready,
    /// Failed or finished; nothing more happens.
    Closed,
}

/// What the session hears from the wire or from its owner.
#[derive(Debug, Clone, Copy, PartialEq, Eq, Structural)]
pub enum SessionEvent {
    /// The peer's handshake arrived with the right info-hash;
    /// whether its reserved bits advertise the extension protocol.
    HandshakeOk { ext: bool },
    /// The peer's handshake was wrong.
    HandshakeBad,
    /// The peer's bitfield arrived.
    Bitfield,
    /// The extension handshake has been answered.
    ExtHandshakeDone,
    /// The peer unchoked us.
    Unchoke,
    /// The peer choked us; outstanding requests are void.
    Choke,
    /// A block arrived.
    BlockArrived,
    /// An empty frame.
    KeepAlive,
    /// A framing or socket failure.
    Failure,
}

/// What the owner must do next.
#[derive(Debug, Clone, Copy, PartialEq, Eq, Structural)]
pub enum SessionAction {
    /// Nothing to send.
    Wait,
    /// Send the extension handshake.
    SendExtHandshake,
    /// Send interested.
    SendInterested,
    /// Outstanding requests are void; reissue them once ready again.
    DropRequests,
    /// Close the socket and report the session gone.
    Close,
}

/// The transition table: what each event does in each state.  The
/// first message after the handshake must be the bitfield; a choke
/// voids outstanding requests until a new unchoke; keep-alives are
/// consumed silently; failures and protocol violations close the
/// session.
pub open spec fn spec_step(s: SessionState, ext: bool, e: SessionEvent) -> (
    SessionState,
    SessionAction,
) {
    match (s, e) {
        (SessionState::Init, SessionEvent::HandshakeOk { ext: _ }) => (
            SessionState::Handshook,
            SessionAction::Wait,
        ),
        (SessionState::Init, SessionEvent::HandshakeBad) => (
            SessionState::Closed,
            SessionAction::Close,
        ),
        (SessionState::Handshook, SessionEvent::Bitfield) => if ext {
            (SessionState::BitfieldKnown, SessionAction::SendExtHandshake)
        } else {
            (SessionState::BitfieldKnown, SessionAction::SendInterested)
        },
        (SessionState::BitfieldKnown, SessionEvent::ExtHandshakeDone) => if ext {
            (SessionState::ExtReady, SessionAction::SendInterested)
        } else {
            (SessionState::Closed, SessionAction::Close)
        },
        (SessionState::BitfieldKnown, SessionEvent::Unchoke) => (
            SessionState::Ready,
            SessionAction::Wait,
        ),
        (SessionState::ExtReady, SessionEvent::Unchoke) => (
            SessionState::Ready,
            SessionAction::Wait,
        ),
        (SessionState::Ready, SessionEvent::BlockArrived) => (
            SessionState::Ready,
            SessionAction::Wait,
        ),
        (SessionState::Ready, SessionEvent::Choke) => (
            SessionState::BitfieldKnown,
            SessionAction::DropRequests,
        ),
        (_, SessionEvent::KeepAlive) => if s is Closed {
            (SessionState::Closed, SessionAction::Close)
        } else {
            (s, SessionAction::Wait)
        },
        (_, SessionEvent::Failure) => (SessionState::Closed, SessionAction::Close),
        _ => (SessionState::Closed, SessionAction::Close),
    }
}

/// One peer session: its state and whether both sides advertised the
/// extension protocol.
pub struct PeerSession {
    /// Where the session stands.
    pub state: SessionState,
    /// Both sides advertised the extension protocol.
    pub supports_ext: bool,
}

impl PeerSession {
    /// A fresh session, nothing exchanged.
    pub fn new() -> (r: Self)
        ensures
            r.state is Init,
            !r.supports_ext,
    {
        PeerSession { state: SessionState::Init, supports_ext: false }
    }

    /// Feeds one event in and yields the action the owner must
    /// perform, exactly as the transition table prescribes.  A
    /// successful handshake records whether the peer advertised the
    /// extension protocol.
    pub fn on_event(&mut self, e: SessionEvent) -> (a: SessionAction)
        ensures
            ({
                let ext = match e {
                    SessionEvent::HandshakeOk { ext } => ext,
                    _ => old(self).supports_ext,
                };
                &&& final(self).supports_ext == ext
                &&& (final(self).state, a) == spec_step(old(self).state, ext, e)
            }),
    {
        match e {
            SessionEvent::HandshakeOk { ext } => {
                self.supports_ext = ext;
            },
            _ => {},
        }
        let ext = self.supports_ext;
        let (ns, a): (SessionState, SessionAction) = match (self.state, e) {
            (SessionState::Init, SessionEvent::HandshakeOk { .. }) => (
                SessionState::Handshook,
                SessionAction::Wait,
            ),
            (SessionState::Init, SessionEvent::HandshakeBad) => (
                SessionState::Closed,
                SessionAction::Close,
            ),
            (SessionState::Handshook, SessionEvent::Bitfield) => if ext {
                (SessionState::BitfieldKnown, SessionAction::SendExtHandshake)
            } else {
                (SessionState::BitfieldKnown, SessionAction::SendInterested)
            },
            (SessionState::BitfieldKnown, SessionEvent::ExtHandshakeDone) => if ext {
                (SessionState::ExtReady, SessionAction::SendInterested)
            } else {
                (SessionState::Closed, SessionAction::Close)
            },
            (SessionState::BitfieldKnown, SessionEvent::Unchoke) => (
                SessionState::Ready,
                SessionAction::Wait,
            ),
            (SessionState::ExtReady, SessionEvent::Unchoke) => (
                SessionState::Ready,
                SessionAction::Wait,
            ),
            (SessionState::Ready, SessionEvent::BlockArrived) => (
                SessionState::Ready,
                SessionAction::Wait,
            ),
            (SessionState::Ready, SessionEvent::Choke) => (
                SessionState::BitfieldKnown,
                SessionAction::DropRequests,
            ),
            (_, SessionEvent::KeepAlive) => if self.state == SessionState::Closed {
                (SessionState::Closed, SessionAction::Close)
            } else {
                (self.state, SessionAction::Wait)
            },
            (_, SessionEvent::Failure) => (SessionState::Closed, SessionAction::Close),
            _ => (SessionState::Closed, SessionAction::Close),
        };
        self.state = ns;
        a
    }
}

/// A session only leaves `Closed` for `Closed`: once closed, every
/// event keeps it closed.
pub proof fn lemma_closed_is_final(ext: bool, e: SessionEvent)
    ensures
        spec_step(SessionState::Closed, ext, e).0 is Closed,
{
}

} // verus!
