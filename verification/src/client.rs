//! The client side: a persistent-reconnect state machine.  The surrounding
//! runtime performs socket work and hands every event back to `client_step`,
//! which decides the next phase and the actions to perform.
use crate::protocol::{Message, MessageV};
use vstd::prelude::*;

verus! {

/// Where the connection loop stands.
#[derive(Clone, Copy, Debug, PartialEq, Eq, Structural)]
pub enum ClientPhase {
    /// A connection attempt is in flight.
    Connecting,
    /// Connected; the auth request was sent and exactly one reply is awaited.
    Authenticating,
    /// Authenticated (or no token configured); messages are pumped.
    Streaming,
    /// A failure happened; waiting out one fixed retry delay.
    Backoff,
}

/// What the runtime observed.
pub enum ClientEvent {
    /// The connection attempt succeeded.
    Connected,
    /// The connection attempt failed.
    ConnectFailed,
    /// A whole message arrived from the server.
    Inbound(Message),
    /// The monitor queued an outbound message.
    Queued(Message),
    /// The heartbeat timer fired.
    HeartbeatTick,
    /// The server closed the connection cleanly.
    Eof,
    /// The socket failed.
    IoError,
    /// The retry delay elapsed.
    BackoffElapsed,
}

/// What the runtime must do next.
pub enum ClientAction {
    /// Open a fresh connection to the server.
    Connect,
    /// Write this message to the socket.
    Send(Message),
    /// Write the content under this type to the local clipboard.
    Apply { content_type: String, content: String },
    /// Sleep for the configured retry delay, then report `BackoffElapsed`.
    Sleep,
    /// Nothing.
    Idle,
}

pub ghost enum ClientActionV {
    Connect,
    Send(MessageV),
    Apply { content_type: Seq<char>, content: Seq<char> },
    Sleep,
    Idle,
}

impl View for ClientAction {
    type V = ClientActionV;

    open spec fn view(&self) -> ClientActionV {
        match self {
            ClientAction::Connect => ClientActionV::Connect,
            ClientAction::Send(m) => ClientActionV::Send(m@),
            ClientAction::Apply { content_type, content } => ClientActionV::Apply {
                content_type: content_type@,
                content: content@,
            },
            ClientAction::Sleep => ClientActionV::Sleep,
            ClientAction::Idle => ClientActionV::Idle,
        }
    }
}

pub ghost enum ClientEventV {
    Connected,
    ConnectFailed,
    Inbound(MessageV),
    Queued(MessageV),
    HeartbeatTick,
    Eof,
    IoError,
    BackoffElapsed,
}

impl View for ClientEvent {
    type V = ClientEventV;

    open spec fn view(&self) -> ClientEventV {
        match self {
            ClientEvent::Connected => ClientEventV::Connected,
            ClientEvent::ConnectFailed => ClientEventV::ConnectFailed,
            ClientEvent::Inbound(m) => ClientEventV::Inbound(m@),
            ClientEvent::Queued(m) => ClientEventV::Queued(m@),
            ClientEvent::HeartbeatTick => ClientEventV::HeartbeatTick,
            ClientEvent::Eof => ClientEventV::Eof,
            ClientEvent::IoError => ClientEventV::IoError,
            ClientEvent::BackoffElapsed => ClientEventV::BackoffElapsed,
        }
    }
}

/// One step of the reconnect state machine:
/// `Connecting -> Authenticating -> Streaming -> Backoff -> Connecting`.
///
/// There is no retry bound: every failure leads to `Backoff`, and `Backoff`
/// is left only when the delay has elapsed, towards exactly one new attempt.
pub open spec fn client_step_spec(phase: ClientPhase, ev: ClientEventV, token: Option<Seq<char>>) -> (
    ClientPhase,
    ClientActionV,
) {
    match ev {
        ClientEventV::IoError => (ClientPhase::Backoff, ClientActionV::Sleep),
        ClientEventV::Eof => (ClientPhase::Backoff, ClientActionV::Sleep),
        ClientEventV::ConnectFailed => (ClientPhase::Backoff, ClientActionV::Sleep),
        ClientEventV::Connected => {
            if phase is Connecting {
                match token {
                    Some(t) => (
                        ClientPhase::Authenticating,
                        ClientActionV::Send(MessageV::Auth { token: t }),
                    ),
                    None => (ClientPhase::Streaming, ClientActionV::Idle),
                }
            } else {
                (phase, ClientActionV::Idle)
            }
        },
        ClientEventV::Inbound(m) => {
            if phase is Authenticating {
                match m {
                    MessageV::AuthResponse { success, .. } => {
                        if success {
                            (ClientPhase::Streaming, ClientActionV::Idle)
                        } else {
                            (ClientPhase::Backoff, ClientActionV::Sleep)
                        }
                    },
                    _ => (ClientPhase::Backoff, ClientActionV::Sleep),
                }
            } else if phase is Streaming {
                match m {
                    MessageV::ClipboardUpdate { content_type, content, .. } => (
                        ClientPhase::Streaming,
                        ClientActionV::Apply { content_type, content },
                    ),
                    _ => (ClientPhase::Streaming, ClientActionV::Idle),
                }
            } else {
                (phase, ClientActionV::Idle)
            }
        },
        ClientEventV::Queued(m) => {
            if phase is Streaming {
                (ClientPhase::Streaming, ClientActionV::Send(m))
            } else {
                (phase, ClientActionV::Idle)
            }
        },
        ClientEventV::HeartbeatTick => {
            if phase is Streaming {
                (ClientPhase::Streaming, ClientActionV::Send(MessageV::Ping))
            } else {
                (phase, ClientActionV::Idle)
            }
        },
        ClientEventV::BackoffElapsed => {
            if phase is Backoff {
                (ClientPhase::Connecting, ClientActionV::Connect)
            } else {
                (phase, ClientActionV::Idle)
            }
        },
    }
}

/// The executable step function.
pub fn client_step(phase: ClientPhase, ev: ClientEvent, token: &Option<String>) -> (r: (
    ClientPhase,
    ClientAction,
))
    ensures
        (r.0, r.1@) == client_step_spec(
            phase,
            ev@,
            match *token {
                Some(ref t) => Some(t@),
                None => None,
            },
        ),
{
    match ev {
        ClientEvent::IoError => (ClientPhase::Backoff, ClientAction::Sleep),
        ClientEvent::Eof => (ClientPhase::Backoff, ClientAction::Sleep),
        ClientEvent::ConnectFailed => (ClientPhase::Backoff, ClientAction::Sleep),
        ClientEvent::Connected => {
            if phase == ClientPhase::Connecting {
                match token {
                    Some(t) => (
                        ClientPhase::Authenticating,
                        ClientAction::Send(Message::Auth { token: t.clone() }),
                    ),
                    None => (ClientPhase::Streaming, ClientAction::Idle),
                }
            } else {
                (phase, ClientAction::Idle)
            }
        },
        ClientEvent::Inbound(m) => {
            if phase == ClientPhase::Authenticating {
                match m {
                    Message::AuthResponse { success, .. } => {
                        if success {
                            (ClientPhase::Streaming, ClientAction::Idle)
                        } else {
                            (ClientPhase::Backoff, ClientAction::Sleep)
                        }
                    },
                    _ => (ClientPhase::Backoff, ClientAction::Sleep),
                }
            } else if phase == ClientPhase::Streaming {
                match m {
                    Message::ClipboardUpdate { content_type, content, timestamp, source, checksum } => (
                        ClientPhase::Streaming,
                        ClientAction::Apply { content_type, content },
                    ),
                    _ => (ClientPhase::Streaming, ClientAction::Idle),
                }
            } else {
                (phase, ClientAction::Idle)
            }
        },
        ClientEvent::Queued(m) => {
            if phase == ClientPhase::Streaming {
                (ClientPhase::Streaming, ClientAction::Send(m))
            } else {
                (phase, ClientAction::Idle)
            }
        },
        ClientEvent::HeartbeatTick => {
            if phase == ClientPhase::Streaming {
                (ClientPhase::Streaming, ClientAction::Send(Message::Ping))
            } else {
                (phase, ClientAction::Idle)
            }
        },
        ClientEvent::BackoffElapsed => {
            if phase == ClientPhase::Backoff {
                (ClientPhase::Connecting, ClientAction::Connect)
            } else {
                (phase, ClientAction::Idle)
            }
        },
    }
}

/// Reconnect discipline: a new connection attempt is issued only when a
/// backoff delay has fully elapsed, and every failure first enters `Backoff`
/// with exactly one sleep.  So between two connection attempts there is
/// always one whole retry delay.
pub proof fn lemma_one_attempt_per_delay(
    phase: ClientPhase,
    ev: ClientEventV,
    token: Option<Seq<char>>,
)
    ensures
        client_step_spec(phase, ev, token).1 is Connect ==> phase is Backoff && ev
            is BackoffElapsed,
        (ev is IoError || ev is Eof || ev is ConnectFailed) ==> client_step_spec(
            phase,
            ev,
            token,
        ).0 is Backoff && client_step_spec(phase, ev, token).1 is Sleep,
        phase is Backoff && !(ev is BackoffElapsed) && !(ev is IoError || ev is Eof || ev
            is ConnectFailed) ==> client_step_spec(phase, ev, token).0 is Backoff && !(
        client_step_spec(phase, ev, token).1 is Connect),
{
}

} // verus!
