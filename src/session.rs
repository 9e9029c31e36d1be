use crate::package::{DecodeError, PackageType};
use vstd::prelude::*;

verus! {

/// Where a peer's session stands.
#[derive(Clone, Copy, Debug, PartialEq, Eq, Structural)]
pub enum SessionState {
    Connecting,
    Active,
    Disconnected,
}

/// What the layer has to do for one frame received from a peer.
#[derive(Clone, Copy, Debug, PartialEq, Eq, Structural)]
pub enum Reaction {
    /// The handshake completed: answer with WaveHand, announce the peer, start its timer,
    /// hand over what was held back.
    Admit,
    /// A repeated handshake from an active peer: answer with WaveHand again, nothing more.
    Acknowledge,
    /// A heartbeat: restart the liveness timer.
    Refresh,
    /// Hand the package to the handlers registered for this peer and its type.
    Deliver,
    /// User data before the handshake: hold it until the session is active.
    Defer,
    /// The peer said goodbye: announce the disconnection and forget the peer.
    Close,
    /// A malformed frame: report BadPackage, change nothing.
    Reject,
    /// Nothing to do.
    Ignore,
}

/// The next state and the reaction for one frame, given as its type or its decoding error.
pub open spec fn spec_react(
    state: SessionState,
    frame: Result<PackageType, DecodeError>,
) -> (SessionState, Reaction) {
    match frame {
        Err(_) => (state, Reaction::Reject),
        Ok(t) => match state {
            SessionState::Disconnected => (SessionState::Disconnected, Reaction::Ignore),
            SessionState::Connecting => if t == PackageType::Handshake {
                (SessionState::Active, Reaction::Admit)
            } else if t == PackageType::Userdata {
                (SessionState::Connecting, Reaction::Defer)
            } else {
                (SessionState::Connecting, Reaction::Ignore)
            },
            SessionState::Active => if t == PackageType::Handshake {
                (SessionState::Active, Reaction::Acknowledge)
            } else if t == PackageType::Heartbeat {
                (SessionState::Active, Reaction::Refresh)
            } else if t == PackageType::PeerDisconnected {
                (SessionState::Disconnected, Reaction::Close)
            } else {
                (SessionState::Active, Reaction::Deliver)
            },
        },
    }
}

/// One step of the session state machine.
pub fn react(state: SessionState, frame: Result<PackageType, DecodeError>) -> (r: (
    SessionState,
    Reaction,
))
    ensures
        r == spec_react(state, frame),
{
    match frame {
        Err(_) => (state, Reaction::Reject),
        Ok(t) => match state {
            SessionState::Disconnected => (SessionState::Disconnected, Reaction::Ignore),
            SessionState::Connecting => {
                if t == PackageType::Handshake {
                    (SessionState::Active, Reaction::Admit)
                } else if t == PackageType::Userdata {
                    (SessionState::Connecting, Reaction::Defer)
                } else {
                    (SessionState::Connecting, Reaction::Ignore)
                }
            },
            SessionState::Active => {
                if t == PackageType::Handshake {
                    (SessionState::Active, Reaction::Acknowledge)
                } else if t == PackageType::Heartbeat {
                    (SessionState::Active, Reaction::Refresh)
                } else if t == PackageType::PeerDisconnected {
                    (SessionState::Disconnected, Reaction::Close)
                } else {
                    (SessionState::Active, Reaction::Deliver)
                }
            },
        },
    }
}

/// A disconnected session stays disconnected, and a malformed frame never moves a session.
pub proof fn lemma_react_stable(state: SessionState, frame: Result<PackageType, DecodeError>)
    ensures
        state == SessionState::Disconnected ==> spec_react(state, frame).0
            == SessionState::Disconnected,
        frame is Err ==> spec_react(state, frame).0 == state,
{
}

/// Only a handshake makes a connecting session active, and only once: an active
/// session answers a second handshake without being admitted again.
pub proof fn lemma_admit_once(state: SessionState, frame: Result<PackageType, DecodeError>)
    ensures
        spec_react(state, frame).1 == Reaction::Admit <==> (state == SessionState::Connecting
            && frame == Ok::<PackageType, DecodeError>(PackageType::Handshake)),
{
}

} // verus!
