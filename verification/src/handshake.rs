//! The connection handshake state machine: send one CONNECT, await
//! exactly one reply, classify the outcome. The surrounding transport
//! loop performs the sends and reads and feeds the events back in.

use vstd::prelude::*;

use crate::codec::DecodeError;
use crate::message::{
    FromServer, FromServerModel, Headers, HeadersModel, Message, MessageModel, ToServer,
    ToServerModel,
};

verus! {

/// The transient per-attempt state of a handshake.
#[derive(Clone, Copy, PartialEq, Eq, Structural, Debug)]
pub enum HandshakeState {
    /// No CONNECT sent yet.
    Unauthenticated,
    /// CONNECT sent; awaiting exactly one reply.
    AwaitingConnected,
    /// The reply was CONNECTED: the connection is ready for use.
    Ready,
    /// The attempt failed; the caller owns transport cleanup.
    Failed,
}

/// What the transport produced while one reply was awaited.
#[derive(Debug, PartialEq, Eq)]
pub enum HandshakeEvent {
    /// One message was decoded.
    Received(Message<FromServer>),
    /// The bytes could not be decoded.
    DecodeFailed(DecodeError),
    /// The stream ended before any reply.
    Closed,
}

/// Why a handshake attempt failed, each cause kept distinct.
#[derive(Debug, PartialEq, Eq)]
pub enum HandshakeError {
    /// The transport closed before any response arrived.
    ClosedBeforeResponse,
    /// A message arrived but was not CONNECTED; it is carried whole
    /// for diagnostics.
    UnexpectedReply(Message<FromServer>),
    /// The reply bytes were malformed or unmappable.
    Decode(DecodeError),
}

/// The protocol version this client advertises.
pub open spec fn protocol_version() -> Seq<u8> {
    // 1.2
    seq![49u8, 46, 50]
}

/// The CONNECT message a handshake sends: fixed advertised version,
/// no heart-beat negotiation, the caller's credentials and headers.
pub open spec fn connect_message_model(
    host: Seq<u8>,
    login: Option<Seq<u8>>,
    passcode: Option<Seq<u8>>,
    headers: HeadersModel,
) -> MessageModel<ToServerModel> {
    MessageModel {
        content: ToServerModel::Connect {
            accept_version: protocol_version(),
            host: host,
            login: login,
            passcode: passcode,
            heartbeat: None,
            headers: headers,
        },
        extra_headers: Seq::empty(),
    }
}

/// Build the CONNECT message for a handshake.
pub fn connect_message(
    host: Vec<u8>,
    login: Option<Vec<u8>>,
    passcode: Option<Vec<u8>>,
    headers: Headers,
) -> (m: Message<ToServer>)
    ensures
        m@ == connect_message_model(
            host@,
            login.deep_view(),
            passcode.deep_view(),
            headers.deep_view(),
        ),
{
    let ghost hv = host@;
    let ghost lv = login.deep_view();
    let ghost pv = passcode.deep_view();
    let ghost hdv = headers.deep_view();
    let mut version: Vec<u8> = Vec::new();
    version.push(49);
    version.push(46);
    version.push(50);
    proof {
        assert(version@ =~= protocol_version());
    }
    let extra: Headers = Vec::new();
    let m = Message {
        content: ToServer::Connect {
            accept_version: version,
            host,
            login,
            passcode,
            heartbeat: None,
            headers,
        },
        extra_headers: extra,
    };
    proof {
        assert(m@.extra_headers =~~= Seq::<(Seq<u8>, Seq<u8>)>::empty());
        assert(m@ =~~= connect_message_model(hv, lv, pv, hdv));
    }
    m
}

/// One handshake attempt: created per connection, destroyed once the
/// outcome is known.
pub struct Handshake {
    pub state: HandshakeState,
}

impl Handshake {
    /// A fresh attempt that has sent nothing yet.
    pub fn new() -> (h: Handshake)
        ensures
            h.state == HandshakeState::Unauthenticated,
    {
        Handshake { state: HandshakeState::Unauthenticated }
    }

    /// Step one: build the CONNECT message to send, and await a reply.
    pub fn start(
        &mut self,
        host: Vec<u8>,
        login: Option<Vec<u8>>,
        passcode: Option<Vec<u8>>,
        headers: Headers,
    ) -> (m: Message<ToServer>)
        requires
            old(self).state == HandshakeState::Unauthenticated,
        ensures
            final (self).state == HandshakeState::AwaitingConnected,
            m@ == connect_message_model(
                host@,
                login.deep_view(),
                passcode.deep_view(),
                headers.deep_view(),
            ),
    {
        self.state = HandshakeState::AwaitingConnected;
        connect_message(host, login, passcode, headers)
    }

    /// Step two: classify the single awaited reply. A CONNECTED reply
    /// completes the handshake; any other message, a decode failure,
    /// or the stream ending first each fail it with a distinct error.
    pub fn on_event(&mut self, ev: HandshakeEvent) -> (r: Result<(), HandshakeError>)
        requires
            old(self).state == HandshakeState::AwaitingConnected,
        ensures
            match ev {
                HandshakeEvent::Received(msg) => if msg@.content is Connected {
                    r == Ok::<(), HandshakeError>(()) && final (self).state
                        == HandshakeState::Ready
                } else {
                    r == Err::<(), HandshakeError>(HandshakeError::UnexpectedReply(msg)) && final (
                    self).state == HandshakeState::Failed
                },
                HandshakeEvent::DecodeFailed(e) => r == Err::<(), HandshakeError>(
                    HandshakeError::Decode(e),
                ) && final (self).state == HandshakeState::Failed,
                HandshakeEvent::Closed => r == Err::<(), HandshakeError>(
                    HandshakeError::ClosedBeforeResponse,
                ) && final (self).state == HandshakeState::Failed,
            },
            r is Ok <==> final (self).state == HandshakeState::Ready,
    {
        match ev {
            HandshakeEvent::Received(msg) => {
                let conn: bool;
                match &msg.content {
                    FromServer::Connected { .. } => {
                        conn = true;
                    },
                    _ => {
                        conn = false;
                    },
                }
                assert(conn == (msg@.content is Connected));
                if conn {
                    self.state = HandshakeState::Ready;
                    Ok(())
                } else {
                    self.state = HandshakeState::Failed;
                    Err(HandshakeError::UnexpectedReply(msg))
                }
            },
            HandshakeEvent::DecodeFailed(e) => {
                self.state = HandshakeState::Failed;
                Err(HandshakeError::Decode(e))
            },
            HandshakeEvent::Closed => {
                self.state = HandshakeState::Failed;
                Err(HandshakeError::ClosedBeforeResponse)
            },
        }
    }
}

} // verus!
