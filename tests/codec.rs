use minecraft_server::data::{
    encode_string, read_string, read_u16, read_var_int, DecodeError, FromBytes, ReadFromBytes,
};
use minecraft_server::packet::{default_status_response, Chat, HandshakePacket, Packet};
use minecraft_server::varint::{decode_var_int, encode_var_int, VarIntError};

#[test]
fn var_int_known_encodings() {
    assert_eq!(encode_var_int(0), vec![0x00]);
    assert_eq!(encode_var_int(1), vec![0x01]);
    assert_eq!(encode_var_int(127), vec![0x7f]);
    assert_eq!(encode_var_int(128), vec![0x80, 0x01]);
    assert_eq!(encode_var_int(255), vec![0xff, 0x01]);
    assert_eq!(encode_var_int(25565), vec![0xdd, 0xc7, 0x01]);
    assert_eq!(encode_var_int(2097151), vec![0xff, 0xff, 0x7f]);
    assert_eq!(encode_var_int(i32::MAX), vec![0xff, 0xff, 0xff, 0xff, 0x07]);
    assert_eq!(encode_var_int(-1), vec![0xff, 0xff, 0xff, 0xff, 0x0f]);
    assert_eq!(encode_var_int(i32::MIN), vec![0x80, 0x80, 0x80, 0x80, 0x08]);
}

#[test]
fn var_int_round_trip_and_minimal() {
    let values = [0, 1, -1, 127, 128, 300, 16383, 16384, 762, i32::MAX, i32::MIN, -12345678];
    for v in values {
        let bytes = encode_var_int(v);
        assert!(!bytes.is_empty() && bytes.len() <= 5);
        if bytes.len() > 1 {
            assert_ne!(*bytes.last().unwrap(), 0);
        }
        let mut with_tail = bytes.clone();
        with_tail.extend_from_slice(&[0xaa, 0x01]);
        assert_eq!(decode_var_int(&with_tail), Ok((v, bytes.len())));
    }
}

#[test]
fn var_int_decode_errors() {
    assert_eq!(decode_var_int(&[]), Err(VarIntError::Incomplete));
    assert_eq!(decode_var_int(&[0x80, 0x80]), Err(VarIntError::Incomplete));
    assert_eq!(decode_var_int(&[0xff, 0xff, 0xff, 0xff, 0xff]), Err(VarIntError::Malformed));
    assert_eq!(decode_var_int(&[0xff, 0xff, 0xff, 0xff, 0x1f]), Err(VarIntError::Malformed));
    // A redundant empty group still reads.
    assert_eq!(decode_var_int(&[0x80, 0x00]), Ok((0, 2)));
}

#[test]
fn field_readers() {
    assert_eq!(read_var_int(&[0x05, 0xdd, 0xc7, 0x01], 1), Ok((25565, 4)));
    assert_eq!(read_var_int(&[0x05, 0x80], 1), Err(DecodeError::MalformedVarInt));
    assert_eq!(read_u16(&[0x00, 0x63, 0xdd], 1), Ok((0x63dd, 3)));
    assert_eq!(read_u16(&[0x63], 0), Err(DecodeError::BufferUnderflow));
    assert_eq!(read_string(&[0x02, b'h', b'i', 0x09], 0), Ok((String::from("hi"), 3)));
    assert_eq!(read_string(&[0x03, b'h', b'i'], 0), Err(DecodeError::BufferUnderflow));
    assert_eq!(read_string(&[0xff, 0xff, 0xff, 0xff, 0x0f], 0), Err(DecodeError::BufferUnderflow));
    assert_eq!(read_string(&[0xff], 0), Err(DecodeError::MalformedVarInt));
    assert_eq!(<u16 as ReadFromBytes>::read_from(&[1, 2], 0), Ok((258, 2)));
    assert_eq!(<i32 as FromBytes>::from_bytes(&[0x80, 0x01]), Ok((128, 2)));
    assert_eq!(<String as FromBytes>::from_bytes(&[0x01, b'x']), Ok((String::from("x"), 2)));
}

#[test]
fn invalid_utf8_is_replaced() {
    let (s, end) = read_string(&[0x03, b'a', 0xff, b'b'], 0).unwrap();
    assert_eq!(s, "a\u{fffd}b");
    assert_eq!(end, 4);
}

#[test]
fn string_encoding_round_trips() {
    assert_eq!(encode_string("abc"), vec![3, b'a', b'b', b'c']);
    assert_eq!(encode_string(""), vec![0]);
    let bytes = encode_string("héllo");
    assert_eq!(bytes[0], 6);
    assert_eq!(read_string(&bytes, 0), Ok((String::from("héllo"), 7)));
}

#[test]
fn packet_from_data_and_bytes() {
    let p = Packet::from_data(0, vec![1, 2]);
    assert_eq!(p.length, 3);
    assert_eq!(p.as_bytes(), vec![3, 0, 1, 2]);
    let q = Packet::from_data(300, vec![9]);
    assert_eq!(q.length, 3);
    assert_eq!(q.as_bytes(), vec![3, 0xac, 0x02, 9]);
    let n = Packet::from_data(-1, vec![]);
    assert_eq!(n.length, 5);
    let back = Packet::read(&q.as_bytes()).unwrap();
    assert_eq!((back.length, back.id, back.data), (3, 300, vec![9]));
    assert_eq!(Packet::read(&[0x00]).err(), Some(DecodeError::MalformedVarInt));
}

#[test]
fn status_json_packet() {
    let p = Packet::from_status_json("{}");
    assert_eq!(p.id, 0);
    assert_eq!(p.data, vec![2, b'{', b'}']);
    assert_eq!(p.as_bytes(), vec![4, 0, 2, b'{', b'}']);
}

#[test]
fn handshake_fields_read() {
    let mut payload = encode_var_int(762);
    payload.extend(encode_string("localhost"));
    payload.extend_from_slice(&[0x63, 0xdd]);
    payload.extend(encode_var_int(1));
    let (h, end) = HandshakePacket::read(&payload).unwrap();
    assert_eq!(h.protocol_version, 762);
    assert_eq!(h.server_address, "localhost");
    assert_eq!(h.server_port, 25565);
    assert_eq!(h.next_state, 1);
    assert_eq!(end, payload.len());
    assert_eq!(HandshakePacket::read(&payload[..13]).err(), Some(DecodeError::BufferUnderflow));
}

#[test]
fn literal_chat_and_default_status() {
    let c = Chat::literal("hi");
    assert_eq!(c.text, "hi");
    assert!(!c.bold && !c.italic && !c.underlined && !c.strikethrough && !c.obfuscated);
    assert_eq!(c.font, "minecraft:default");
    assert_eq!(c.color, "reset");
    assert!(c.insertion.is_none() && c.extra.is_none());
    let s = default_status_response();
    assert_eq!(s.version.name, "1.19.4");
    assert_eq!(s.version.protocol, 762);
    assert_eq!((s.players.max, s.players.online), (20, 1));
    assert_eq!(s.players.sample[0].name, "Notch");
    assert_eq!(s.players.sample[0].id, 0x069a79f444e94726a5befca90e38aaf5);
    assert!(s.favicon.is_none());
    assert!(!s.enforces_secure_chat);
}
