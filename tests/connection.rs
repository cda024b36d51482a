use minecraft_server::connection::{
    handle_frame, route, Connection, ConnectionState, ProtocolError, Route,
};
use minecraft_server::data::encode_string;
use minecraft_server::packet::Packet;
use minecraft_server::varint::encode_var_int;

const STATUS: &str = "{\"description\":{\"text\":\"hi\"}}";

fn handshake(next_state: i32) -> Vec<u8> {
    let mut payload = encode_var_int(762);
    payload.extend(encode_string("localhost"));
    payload.extend_from_slice(&[0x63, 0xdd]);
    payload.extend(encode_var_int(next_state));
    Packet::from_data(0, payload).as_bytes()
}

fn status_frame() -> Vec<u8> {
    Packet::from_status_json(STATUS).as_bytes()
}

#[test]
fn empty_handshake_frame_is_ignored() {
    let mut c = Connection::new(STATUS, 1 << 21);
    let r = c.receive(&[0x01, 0x00]);
    assert!(r.output.is_empty());
    assert!(r.errors.is_empty());
    assert!(r.login.is_none());
    assert_eq!(c.state(), ConnectionState::Handshaking);
}

#[test]
fn status_handshake_then_ping_is_echoed() {
    let mut c = Connection::new(STATUS, 1 << 21);
    let r = c.receive(&handshake(1));
    assert_eq!(r.output, status_frame());
    assert_eq!(c.state(), ConnectionState::AwaitingPing);
    let ping = vec![0x09, 0x01, 1, 2, 3, 4, 5, 6, 7, 8];
    let r = c.receive(&ping);
    assert_eq!(r.output, ping);
    assert!(r.errors.is_empty());
    assert_eq!(c.state(), ConnectionState::Closed);
}

#[test]
fn non_minimal_ping_is_echoed_verbatim() {
    let mut c = Connection::new(STATUS, 1 << 21);
    c.receive(&handshake(1));
    let ping = vec![0x82, 0x00, 0x80, 0x00];
    let r = c.receive(&ping);
    assert_eq!(r.output, ping);
    assert_eq!(c.state(), ConnectionState::Closed);
}

#[test]
fn invalid_next_state_closes_silently() {
    let mut c = Connection::new(STATUS, 1 << 21);
    let mut bytes = handshake(3);
    bytes.extend_from_slice(&[0x01, 0x00]);
    let r = c.receive(&bytes);
    assert!(r.output.is_empty());
    assert_eq!(r.errors, vec![ProtocolError::InvalidState]);
    assert_eq!(c.state(), ConnectionState::Closed);
}

#[test]
fn login_handshake_hands_over() {
    let mut c = Connection::new(STATUS, 1 << 21);
    let r = c.receive(&handshake(2));
    assert!(r.output.is_empty());
    let h = r.login.unwrap();
    assert_eq!(h.server_address, "localhost");
    assert_eq!(h.server_port, 25565);
    assert_eq!(h.next_state, 2);
    assert_eq!(c.state(), ConnectionState::Login);
}

#[test]
fn two_frames_in_one_read_are_handled_in_order() {
    let mut c = Connection::new(STATUS, 1 << 21);
    let mut bytes = handshake(1);
    let ping = vec![0x03, 0x01, 0xaa, 0xbb];
    bytes.extend_from_slice(&ping);
    let r = c.receive(&bytes);
    let mut expected = status_frame();
    expected.extend_from_slice(&ping);
    assert_eq!(r.output, expected);
    assert_eq!(c.state(), ConnectionState::Closed);
}

#[test]
fn handshake_split_across_reads() {
    let mut c = Connection::new(STATUS, 1 << 21);
    let bytes = handshake(1);
    let r = c.receive(&bytes[..5]);
    assert!(r.output.is_empty());
    assert_eq!(c.state(), ConnectionState::Handshaking);
    let r = c.receive(&bytes[5..]);
    assert_eq!(r.output, status_frame());
    assert_eq!(c.state(), ConnectionState::AwaitingPing);
}

#[test]
fn unknown_packet_and_trailing_bytes_are_dropped() {
    let mut c = Connection::new(STATUS, 1 << 21);
    let r = c.receive(&[0x02, 0x05, 0x00]);
    assert_eq!(r.errors, vec![ProtocolError::UnknownPacket]);
    let mut payload = encode_var_int(762);
    payload.extend(encode_string("a"));
    payload.extend_from_slice(&[0x63, 0xdd, 0x01, 0x00]);
    let r = c.receive(&Packet::from_data(0, payload).as_bytes());
    assert_eq!(r.errors, vec![ProtocolError::TrailingBytes]);
    assert!(r.output.is_empty());
    assert_eq!(c.state(), ConnectionState::Handshaking);
    assert!(!ProtocolError::TrailingBytes.is_fatal());
    assert!(ProtocolError::InvalidState.is_fatal());
}

#[test]
fn short_handshake_is_fatal() {
    let mut c = Connection::new(STATUS, 1 << 21);
    let r = c.receive(&[0x03, 0x00, 0xfa, 0x05]);
    assert_eq!(r.errors, vec![ProtocolError::MalformedVarInt]);
    assert_eq!(c.state(), ConnectionState::Closed);
}

#[test]
fn oversized_frame_closes() {
    let mut c = Connection::new(STATUS, 64);
    let r = c.receive(&[0x80, 0x01]);
    assert_eq!(r.errors, vec![ProtocolError::FrameTooLarge]);
    assert_eq!(c.state(), ConnectionState::Closed);
}

#[test]
fn peer_close_and_routes() {
    let mut c = Connection::new(STATUS, 64);
    c.peer_closed();
    assert_eq!(c.state(), ConnectionState::Closed);
    assert_eq!(route(ConnectionState::Handshaking, 0), Route::Handshake);
    assert_eq!(route(ConnectionState::Handshaking, 1), Route::Unregistered);
    assert_eq!(route(ConnectionState::AwaitingPing, 7), Route::Ping);
    assert_eq!(route(ConnectionState::Login, 0), Route::Unregistered);
    let o = handle_frame(ConnectionState::Closed, &[1, 0], &[]);
    assert_eq!(o.state, ConnectionState::Closed);
    assert!(o.reply.is_empty() && o.error.is_none());
}
