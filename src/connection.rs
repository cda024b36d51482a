//! The per-connection protocol state machine: handshake, then status and
//! ping, or login. It takes the bytes read from the peer and says what to
//! write back and whether to close; the caller owns the socket.

use vstd::prelude::*;

use crate::data::DecodeError;
use crate::frame::{drain, frame_bytes, lemma_two_frames_in_one_read, FrameDecoder, FrameError};
use crate::packet::{handshake_fields, packet_bytes, packet_fields, HandshakePacket, Packet};
use crate::varint::var_int_bytes;
use vstd::string::StringSliceAdditionalSpecFns;

verus! {

/// Where a connection stands in the protocol.
#[derive(Debug, Clone, Copy, PartialEq, Eq, Structural)]
pub enum ConnectionState {
    /// Waiting for the handshake.
    Handshaking,
    /// The status response went out; the next frame is a ping to echo.
    AwaitingPing,
    /// Handed to the login handler; this core reads no more packets.
    Login,
    /// Done: the socket is to be shut down.
    Closed,
}

/// The protocol violations a connection can meet.
#[derive(Debug, Clone, Copy, PartialEq, Eq, Structural)]
pub enum ProtocolError {
    MalformedVarInt,
    BufferUnderflow,
    FrameTooLarge,
    /// No packet of this id is known in the current state; it is dropped.
    UnknownPacket,
    /// A packet's fields end before its payload does; it is dropped.
    TrailingBytes,
    /// The handshake asks for a next state other than status or login.
    InvalidState,
}

impl ProtocolError {
    pub open spec fn spec_is_fatal(self) -> bool {
        !(self is UnknownPacket || self is TrailingBytes)
    }

    /// Whether the error ends the connection.
    #[verifier::when_used_as_spec(spec_is_fatal)]
    pub fn is_fatal(self) -> (r: bool)
        ensures
            r == self.spec_is_fatal(),
    {
        match self {
            ProtocolError::UnknownPacket | ProtocolError::TrailingBytes => false,
            _ => true,
        }
    }
}

pub open spec fn spec_from_decode(e: DecodeError) -> ProtocolError {
    match e {
        DecodeError::MalformedVarInt => ProtocolError::MalformedVarInt,
        DecodeError::BufferUnderflow => ProtocolError::BufferUnderflow,
    }
}

pub open spec fn spec_from_frame(e: FrameError) -> ProtocolError {
    match e {
        FrameError::MalformedVarInt => ProtocolError::MalformedVarInt,
        FrameError::FrameTooLarge => ProtocolError::FrameTooLarge,
    }
}

fn from_decode(e: DecodeError) -> (r: ProtocolError)
    ensures
        r == spec_from_decode(e),
{
    match e {
        DecodeError::MalformedVarInt => ProtocolError::MalformedVarInt,
        DecodeError::BufferUnderflow => ProtocolError::BufferUnderflow,
    }
}

fn from_frame(e: FrameError) -> (r: ProtocolError)
    ensures
        r == spec_from_frame(e),
{
    match e {
        FrameError::MalformedVarInt => ProtocolError::MalformedVarInt,
        FrameError::FrameTooLarge => ProtocolError::FrameTooLarge,
    }
}

/// What a packet is taken for, by connection state and packet id.
#[derive(Debug, Clone, Copy, PartialEq, Eq, Structural)]
pub enum Route {
    Handshake,
    Ping,
    Unregistered,
}

pub open spec fn spec_route(state: ConnectionState, id: i32) -> Route {
    match state {
        ConnectionState::Handshaking => if id == 0 {
            Route::Handshake
        } else {
            Route::Unregistered
        },
        ConnectionState::AwaitingPing => Route::Ping,
        _ => Route::Unregistered,
    }
}

/// The dispatch table: a handshake has id 0 in `Handshaking`; in
/// `AwaitingPing` any frame is the ping, whatever its id, echoed unread;
/// nothing else is registered.
#[verifier::when_used_as_spec(spec_route)]
pub fn route(state: ConnectionState, id: i32) -> (r: Route)
    ensures
        r == spec_route(state, id),
{
    match state {
        ConnectionState::Handshaking => if id == 0 {
            Route::Handshake
        } else {
            Route::Unregistered
        },
        ConnectionState::AwaitingPing => Route::Ping,
        _ => Route::Unregistered,
    }
}

/// One frame's effect in `state`: the next state, the bytes to send, and
/// the violation met, if any. `status` is the status response frame.
pub open spec fn frame_step(state: ConnectionState, frame: Seq<u8>, status: Seq<u8>) -> (
    ConnectionState,
    Seq<u8>,
    Option<ProtocolError>,
) {
    if state is Closed {
        (state, Seq::empty(), None)
    } else if state is AwaitingPing {
        (ConnectionState::Closed, frame, None)
    } else if state is Login {
        (state, Seq::empty(), Some(ProtocolError::UnknownPacket))
    } else {
        match packet_fields(frame) {
            Err(e) => (ConnectionState::Closed, Seq::empty(), Some(spec_from_decode(e))),
            Ok((length, id, data)) => match route(state, id) {
                Route::Ping => (ConnectionState::Closed, frame, None),
                Route::Unregistered => (state, Seq::empty(), Some(ProtocolError::UnknownPacket)),
                Route::Handshake => if length <= 1 {
                    (state, Seq::empty(), None)
                } else {
                    match handshake_fields(data) {
                        Err(e) => (
                            ConnectionState::Closed,
                            Seq::empty(),
                            Some(spec_from_decode(e)),
                        ),
                        Ok((_, _, _, next, end)) => if end != data.len() {
                            (state, Seq::empty(), Some(ProtocolError::TrailingBytes))
                        } else if next == 1 {
                            (ConnectionState::AwaitingPing, status, None)
                        } else if next == 2 {
                            (ConnectionState::Login, Seq::empty(), None)
                        } else {
                            (ConnectionState::Closed, Seq::empty(), Some(ProtocolError::InvalidState))
                        },
                    }
                },
            },
        }
    }
}

/// Frames taken one after another from `state`: the final state, all bytes
/// sent, and the violations met, in order.
pub open spec fn run_frames(state: ConnectionState, frames: Seq<Seq<u8>>, status: Seq<u8>) -> (
    ConnectionState,
    Seq<u8>,
    Seq<ProtocolError>,
)
    decreases frames.len(),
{
    if frames.len() == 0 {
        (state, Seq::empty(), Seq::empty())
    } else {
        let (s, out, errs) = run_frames(state, frames.drop_last(), status);
        let (s2, reply, e) = frame_step(s, frames.last(), status);
        (
            s2,
            out + reply,
            match e {
                Some(x) => errs.push(x),
                None => errs,
            },
        )
    }
}

/// What one frame does.
pub struct FrameOutcome {
    pub state: ConnectionState,
    pub reply: Vec<u8>,
    pub error: Option<ProtocolError>,
    /// The handshake, when it hands the connection to login.
    pub login: Option<HandshakePacket>,
}

/// Applies one frame (length prefix included) in `state`.
pub fn handle_frame(state: ConnectionState, frame: &[u8], status: &[u8]) -> (r: FrameOutcome)
    ensures
        (r.state, r.reply@, r.error) == frame_step(state, frame@, status@),
        r.login.is_some() <==> (state != ConnectionState::Login && r.state
            == ConnectionState::Login),
        r.login matches Some(h) ==> (packet_fields(frame@) matches Ok((_, _, data)) && (
        handshake_fields(data) matches Ok((version, address, port, next, _)) && h.protocol_version
            == version && h.server_address@ == crate::data::utf8_lossy(address) && h.server_port
            == port && h.next_state == next)),
{
    let none = FrameOutcome { state, reply: Vec::new(), error: None, login: None };
    if state == ConnectionState::Closed {
        return none;
    }
    if state == ConnectionState::AwaitingPing {
        return FrameOutcome {
            state: ConnectionState::Closed,
            reply: vstd::slice::slice_to_vec(frame),
            error: None,
            login: None,
        };
    }
    if state == ConnectionState::Login {
        return FrameOutcome {
            state,
            reply: Vec::new(),
            error: Some(ProtocolError::UnknownPacket),
            login: None,
        };
    }
    let packet = match Packet::read(frame) {
        Ok(p) => p,
        Err(e) => {
            return FrameOutcome {
                state: ConnectionState::Closed,
                reply: Vec::new(),
                error: Some(from_decode(e)),
                login: None,
            }
        },
    };
    match route(state, packet.id) {
        Route::Ping => FrameOutcome {
            state: ConnectionState::Closed,
            reply: vstd::slice::slice_to_vec(frame),
            error: None,
            login: None,
        },
        Route::Unregistered => FrameOutcome {
            state,
            reply: Vec::new(),
            error: Some(ProtocolError::UnknownPacket),
            login: None,
        },
        Route::Handshake => {
            if packet.length <= 1 {
                return none;
            }
            let (handshake, end) = match HandshakePacket::read(packet.data.as_slice()) {
                Ok(x) => x,
                Err(e) => {
                    return FrameOutcome {
                        state: ConnectionState::Closed,
                        reply: Vec::new(),
                        error: Some(from_decode(e)),
                        login: None,
                    }
                },
            };
            if end != packet.data.len() {
                FrameOutcome {
                    state,
                    reply: Vec::new(),
                    error: Some(ProtocolError::TrailingBytes),
                    login: None,
                }
            } else if handshake.next_state == 1 {
                FrameOutcome {
                    state: ConnectionState::AwaitingPing,
                    reply: vstd::slice::slice_to_vec(status),
                    error: None,
                    login: None,
                }
            } else if handshake.next_state == 2 {
                FrameOutcome {
                    state: ConnectionState::Login,
                    reply: Vec::new(),
                    error: None,
                    login: Some(handshake),
                }
            } else {
                FrameOutcome {
                    state: ConnectionState::Closed,
                    reply: Vec::new(),
                    error: Some(ProtocolError::InvalidState),
                    login: None,
                }
            }
        },
    }
}


/// Once a run of frames has closed the connection, later frames change
/// nothing.
proof fn lemma_closed_absorbs(
    state: ConnectionState,
    frames: Seq<Seq<u8>>,
    more: Seq<Seq<u8>>,
    status: Seq<u8>,
)
    requires
        run_frames(state, frames, status).0 == ConnectionState::Closed,
    ensures
        run_frames(state, frames + more, status) == run_frames(state, frames, status),
    decreases more.len(),
{
    if more.len() == 0 {
        assert(frames + more =~= frames);
    } else {
        let shorter = more.drop_last();
        lemma_closed_absorbs(state, frames, shorter, status);
        assert((frames + more).drop_last() =~= frames + shorter);
        let (s, out, errs) = run_frames(state, frames + shorter, status);
        assert(out + Seq::<u8>::empty() =~= out);
    }
}

/// Whether `frame` is a handshake, accepted in `Handshaking`, that asks for
/// next state `next`.
pub open spec fn is_handshake_frame(frame: Seq<u8>, next: i32) -> bool {
    packet_fields(frame) matches Ok((length, id, data)) && id == 0 && length > 1 && (
    handshake_fields(data) matches Ok((_, _, _, n, end)) && n == next && end == data.len())
}

/// A handshake asking for status, then any frame at all: the status
/// response goes out, then that frame is echoed byte for byte, and the
/// connection closes; nothing that follows is read.
pub proof fn lemma_status_then_pong(
    handshake: Seq<u8>,
    ping: Seq<u8>,
    more: Seq<Seq<u8>>,
    status: Seq<u8>,
)
    requires
        is_handshake_frame(handshake, 1),
    ensures
        run_frames(ConnectionState::Handshaking, seq![handshake, ping] + more, status) == (
            ConnectionState::Closed,
            status + ping,
            Seq::<ProtocolError>::empty(),
        ),
{
    let two = seq![handshake, ping];
    let h = ConnectionState::Handshaking;
    assert(two.last() == ping);
    assert(two.drop_last() =~= seq![handshake]);
    assert(seq![handshake].drop_last() =~= Seq::<Seq<u8>>::empty());
    assert(seq![handshake].last() == handshake);
    assert(run_frames(h, Seq::empty(), status) == (
        h,
        Seq::<u8>::empty(),
        Seq::<ProtocolError>::empty(),
    ));
    assert(Seq::<u8>::empty() + status =~= status);
    if let Ok((length, id, data)) = packet_fields(handshake) {
        assert(spec_route(h, id) == Route::Handshake);
        assert(frame_step(h, handshake, status) == (
            ConnectionState::AwaitingPing,
            status,
            None::<ProtocolError>,
        ));
    }
    assert(run_frames(h, seq![handshake], status) == (
        ConnectionState::AwaitingPing,
        status,
        Seq::<ProtocolError>::empty(),
    ));
    assert(frame_step(ConnectionState::AwaitingPing, ping, status) == (
        ConnectionState::Closed,
        ping,
        None::<ProtocolError>,
    ));
    assert(run_frames(h, two, status) == (
        ConnectionState::Closed,
        status + ping,
        Seq::<ProtocolError>::empty(),
    ));
    lemma_closed_absorbs(ConnectionState::Handshaking, two, more, status);
}

/// A handshake asking for a next state other than status (1) or login (2)
/// closes the connection with nothing sent, whatever follows.
pub proof fn lemma_invalid_next_state_closes(
    handshake: Seq<u8>,
    next: i32,
    more: Seq<Seq<u8>>,
    status: Seq<u8>,
)
    requires
        is_handshake_frame(handshake, next),
        next != 1 && next != 2,
    ensures
        run_frames(ConnectionState::Handshaking, seq![handshake] + more, status) == (
            ConnectionState::Closed,
            Seq::<u8>::empty(),
            seq![ProtocolError::InvalidState],
        ),
{
    assert(Seq::<u8>::empty() + Seq::<u8>::empty() =~= Seq::<u8>::empty());
    let h = ConnectionState::Handshaking;
    assert(seq![handshake].drop_last() =~= Seq::<Seq<u8>>::empty());
    assert(seq![handshake].last() == handshake);
    assert(run_frames(h, Seq::empty(), status) == (
        h,
        Seq::<u8>::empty(),
        Seq::<ProtocolError>::empty(),
    ));
    if let Ok((length, id, data)) = packet_fields(handshake) {
        assert(spec_route(h, id) == Route::Handshake);
        assert(frame_step(h, handshake, status) == (
            ConnectionState::Closed,
            Seq::<u8>::empty(),
            Some(ProtocolError::InvalidState),
        ));
    }
    assert(Seq::<ProtocolError>::empty().push(ProtocolError::InvalidState) =~= seq![
        ProtocolError::InvalidState,
    ]);
    lemma_closed_absorbs(ConnectionState::Handshaking, seq![handshake], more, status);
}


/// A status handshake and a ping that arrive as bytes in one read: both are
/// framed, the status response goes out followed by the ping frame byte for
/// byte, and the connection closes with no violation.
pub proof fn lemma_status_exchange_in_one_read(
    handshake_body: Seq<u8>,
    ping_body: Seq<u8>,
    status: Seq<u8>,
    max: nat,
)
    requires
        is_handshake_frame(frame_bytes(handshake_body), 1),
        handshake_body.len() <= max,
        ping_body.len() <= max,
        handshake_body.len() <= i32::MAX,
        ping_body.len() <= i32::MAX,
    ensures
        ({
            let (frames, rest, err) = drain(
                frame_bytes(handshake_body) + frame_bytes(ping_body),
                max,
            );
            &&& err is None
            &&& rest == Seq::<u8>::empty()
            &&& run_frames(ConnectionState::Handshaking, frames, status) == (
                ConnectionState::Closed,
                status + frame_bytes(ping_body),
                Seq::<ProtocolError>::empty(),
            )
        }),
{
    lemma_two_frames_in_one_read(handshake_body, ping_body, max);
    let frames = seq![frame_bytes(handshake_body), frame_bytes(ping_body)];
    lemma_status_then_pong(
        frame_bytes(handshake_body),
        frame_bytes(ping_body),
        Seq::empty(),
        status,
    );
    assert(frames + Seq::<Seq<u8>>::empty() =~= frames);
}

/// What a chunk of received bytes calls for.
pub struct Reaction {
    /// The bytes to write to the peer, in order.
    pub output: Vec<u8>,
    /// The violations met, in order; a fatal one comes last.
    pub errors: Vec<ProtocolError>,
    /// The handshake, when this chunk hands the connection to login.
    pub login: Option<HandshakePacket>,
}

/// One client's connection: its state, the bytes received and not yet
/// framed, and the status response frame it answers a status handshake with.
pub struct Connection {
    state: ConnectionState,
    decoder: FrameDecoder,
    status_frame: Vec<u8>,
}

impl Connection {
    pub closed spec fn spec_state(&self) -> ConnectionState {
        self.state
    }

    /// The bytes received and not yet taken as frames.
    pub closed spec fn pending(&self) -> Seq<u8> {
        self.decoder.pending()
    }

    /// The greatest length a frame may declare.
    pub closed spec fn max_length(&self) -> nat {
        self.decoder.max_length()
    }

    /// The frame sent in answer to a status handshake.
    pub closed spec fn status(&self) -> Seq<u8> {
        self.status_frame@
    }

    /// A connection in `Handshaking` that answers a status handshake with a
    /// status response frame (id 0) whose payload is `status_json` as a
    /// string, and refuses frames that declare more than `max_frame_length`
    /// bytes.
    pub fn new(status_json: &str, max_frame_length: usize) -> (r: Connection)
        requires
            status_json.spec_bytes().len() + 10 <= i32::MAX,
        ensures
            r.spec_state() == ConnectionState::Handshaking,
            r.pending() == Seq::<u8>::empty(),
            r.max_length() == max_frame_length,
            r.status() == packet_bytes(
                (var_int_bytes(0).len() + var_int_bytes(status_json.spec_bytes().len() as i32).len()
                    + status_json.spec_bytes().len()) as i32,
                0,
                var_int_bytes(status_json.spec_bytes().len() as i32) + status_json.spec_bytes(),
            ),
    {
        let packet = Packet::from_status_json(status_json);
        Connection {
            state: ConnectionState::Handshaking,
            decoder: FrameDecoder::new(max_frame_length),
            status_frame: packet.as_bytes(),
        }
    }

    #[verifier::when_used_as_spec(spec_state)]
    pub fn state(&self) -> (r: ConnectionState)
        ensures
            r == self.spec_state(),
    {
        self.state
    }

    /// Takes bytes read from the peer: frames them, and applies each
    /// complete frame in arrival order. A framing error closes the
    /// connection after the frames before it.
    pub fn receive(&mut self, chunk: &[u8]) -> (r: Reaction)
        ensures
            final(self).status() == old(self).status(),
            final(self).max_length() == old(self).max_length(),
            ({
                let (frames, rest, err) = drain(
                    old(self).pending() + chunk@,
                    old(self).max_length(),
                );
                let (state, out, errs) = run_frames(old(self).spec_state(), frames, old(self).status());
                &&& r.output@ == out
                &&& final(self).pending() == rest
                &&& match err {
                    Some(e) => final(self).spec_state() == ConnectionState::Closed && r.errors@
                        == errs.push(spec_from_frame(e)),
                    None => final(self).spec_state() == state && r.errors@ == errs,
                }
                &&& r.login.is_some() <==> (old(self).spec_state() != ConnectionState::Login
                    && state == ConnectionState::Login)
            }),
    {
        let ghost s0 = self.state;
        let ghost status = self.status_frame@;
        self.decoder.feed(chunk);
        let (frames, err) = self.decoder.drain_frames();
        let ghost fs = drain(old(self).pending() + chunk@, old(self).max_length()).0;
        let mut output: Vec<u8> = Vec::new();
        let mut errors: Vec<ProtocolError> = Vec::new();
        let mut login: Option<HandshakePacket> = None;
        let mut i: usize = 0;
        assert(fs.take(0) =~= Seq::<Seq<u8>>::empty());
        while i < frames.len()
            invariant
                i <= frames@.len(),
                frames@.len() == fs.len(),
                forall|j: int| 0 <= j < fs.len() ==> #[trigger] frames@[j]@ == fs[j],
                self.status_frame@ == status,
                self.status_frame@ == old(self).status(),
                self.decoder.max_length() == old(self).max_length(),
                self.decoder.pending() == drain(
                    old(self).pending() + chunk@,
                    old(self).max_length(),
                ).1,
                (self.state, output@, errors@) == run_frames(s0, fs.take(i as int), status),
                login.is_some() <==> (s0 != ConnectionState::Login && self.state
                    == ConnectionState::Login),
                s0 == ConnectionState::Login ==> self.state == ConnectionState::Login,
            decreases frames@.len() - i,
        {
            let ghost before = self.state;
            let outcome = handle_frame(self.state, frames[i].as_slice(), self.status_frame.as_slice());
            proof {
                assert(fs.take(i + 1).drop_last() =~= fs.take(i as int));
                assert(fs.take(i + 1).last() == fs[i as int]);
            }
            let mut reply = outcome.reply;
            output.append(&mut reply);
            match outcome.error {
                Some(e) => errors.push(e),
                None => {},
            }
            if outcome.login.is_some() {
                login = outcome.login;
            }
            self.state = outcome.state;
            i = i + 1;
        }
        assert(fs.take(fs.len() as int) =~= fs);
        match err {
            Some(e) => {
                errors.push(from_frame(e));
                self.state = ConnectionState::Closed;
            },
            None => {},
        }
        Reaction { output, errors, login }
    }

    /// The peer closed its end: the connection is done.
    pub fn peer_closed(&mut self)
        ensures
            final(self).spec_state() == ConnectionState::Closed,
            final(self).pending() == old(self).pending(),
            final(self).status() == old(self).status(),
            final(self).max_length() == old(self).max_length(),
    {
        self.state = ConnectionState::Closed;
    }
}

} // verus!
