//! Packets: a declared length, an id and a payload; the handshake request;
//! the status response's data.

use vstd::prelude::*;
use vstd::string::StringSliceAdditionalSpecFns;

use crate::data::{
    encode_string, read_string, read_u16, read_var_int, string_field, u16_field, utf8_lossy,
    var_int_field, DecodeError,
};
use crate::varint::{encode_var_int, lemma_var_int_round_trip, var_int_bytes};

verus! {

/// Declares `serde_json::Value` so that a chat component can carry click and
/// hover events through unread.
#[verifier::external_type_specification]
#[verifier::external_body]
pub struct ExJsonValue(serde_json::Value);

/// One protocol message: `length` counts the bytes of the id's encoding and
/// of `data`.
pub struct Packet {
    pub length: i32,
    pub id: i32,
    pub data: Vec<u8>,
}

/// The wire form of a packet with the given fields.
pub open spec fn packet_bytes(length: i32, id: i32, data: Seq<u8>) -> Seq<u8> {
    var_int_bytes(length) + var_int_bytes(id) + data
}

/// The fields of the packet written at the front of `b`: the declared length
/// and the id, then all that follows as the payload.
pub open spec fn packet_fields(b: Seq<u8>) -> Result<(i32, i32, Seq<u8>), DecodeError> {
    match var_int_field(b, 0) {
        Ok((length, p)) => match var_int_field(b, p as int) {
            Ok((id, q)) => Ok((length, id, b.subrange(q as int, b.len() as int))),
            Err(e) => Err(e),
        },
        Err(e) => Err(e),
    }
}

impl Packet {
    /// Whether `length` is what the id and the payload take.
    pub open spec fn well_formed(&self) -> bool {
        self.length == var_int_bytes(self.id).len() + self.data@.len()
    }

    /// A packet with the given id and payload, its length computed.
    pub fn from_data(id: i32, data: Vec<u8>) -> (r: Packet)
        requires
            data@.len() + 5 <= i32::MAX,
        ensures
            r.id == id,
            r.data@ == data@,
            r.length == var_int_bytes(id).len() + data@.len(),
            r.well_formed(),
    {
        let id_len = encode_var_int(id).len();
        proof {
            lemma_var_int_round_trip(id, Seq::empty());
        }
        let length = (id_len + data.len()) as i32;
        Packet { length, id, data }
    }

    /// The packet as it goes on the wire.
    pub fn as_bytes(&self) -> (r: Vec<u8>)
        ensures
            r@ == packet_bytes(self.length, self.id, self.data@),
    {
        let mut bytes = encode_var_int(self.length);
        let mut id = encode_var_int(self.id);
        bytes.append(&mut id);
        bytes.extend_from_slice(self.data.as_slice());
        assert(bytes@ =~= packet_bytes(self.length, self.id, self.data@));
        bytes
    }

    /// Reads a packet from a frame: the declared length, the id, and every
    /// byte after the id as the payload.
    pub fn read(frame: &[u8]) -> (r: Result<Packet, DecodeError>)
        ensures
            match (r, packet_fields(frame@)) {
                (Ok(p), Ok((length, id, data))) => p.length == length && p.id == id && p.data@
                    == data,
                (Err(e), Err(f)) => e == f,
                _ => false,
            },
    {
        let (length, p) = match read_var_int(frame, 0) {
            Ok(x) => x,
            Err(e) => return Err(e),
        };
        let (id, q) = match read_var_int(frame, p) {
            Ok(x) => x,
            Err(e) => return Err(e),
        };
        let data = vstd::slice::slice_to_vec(vstd::slice::slice_subrange(frame, q, frame.len()));
        Ok(Packet { length, id, data })
    }

    /// The status response packet (id 0) whose payload is `json` as a string.
    pub fn from_status_json(json: &str) -> (r: Packet)
        requires
            json.spec_bytes().len() + 10 <= i32::MAX,
        ensures
            r.id == 0,
            r.data@ == var_int_bytes(json.spec_bytes().len() as i32) + json.spec_bytes(),
            r.well_formed(),
    {
        let data = encode_string(json);
        proof {
            lemma_var_int_round_trip(json.spec_bytes().len() as i32, Seq::empty());
        }
        Packet::from_data(0, data)
    }
}

/// A well-formed packet written out reads back as the same fields, whatever
/// follows it in the stream.
pub proof fn lemma_packet_round_trip(id: i32, data: Seq<u8>)
    requires
        data.len() + 5 <= i32::MAX,
    ensures
        packet_fields(packet_bytes((var_int_bytes(id).len() + data.len()) as i32, id, data))
            == Ok::<(i32, i32, Seq<u8>), DecodeError>(
            ((var_int_bytes(id).len() + data.len()) as i32, id, data),
        ),
{
    lemma_var_int_round_trip(id, data);
    let length = (var_int_bytes(id).len() + data.len()) as i32;
    let b = packet_bytes(length, id, data);
    let l = var_int_bytes(length);
    let i = var_int_bytes(id);
    lemma_var_int_round_trip(length, i + data);
    assert(b.subrange(0, b.len() as int) =~= l + (i + data));
    assert(b.subrange(l.len() as int, b.len() as int) =~= i + data);
    assert(b.subrange((l.len() + i.len()) as int, b.len() as int) =~= data);
}

/// The request that opens every connection.
pub struct HandshakePacket {
    pub protocol_version: i32,
    pub server_address: String,
    pub server_port: u16,
    pub next_state: i32,
}

/// The handshake's fields as written in a payload: protocol version, raw
/// address bytes, port, next state, and the position just past them.
pub open spec fn handshake_fields(b: Seq<u8>) -> Result<
    (i32, Seq<u8>, u16, i32, usize),
    DecodeError,
> {
    match var_int_field(b, 0) {
        Ok((version, at_address)) => match string_field(b, at_address as int) {
            Ok((address, at_port)) => match u16_field(b, at_port as int) {
                Ok((port, at_next)) => match var_int_field(b, at_next as int) {
                    Ok((next, end)) => Ok((version, address, port, next, end)),
                    Err(e) => Err(e),
                },
                Err(e) => Err(e),
            },
            Err(e) => Err(e),
        },
        Err(e) => Err(e),
    }
}

impl HandshakePacket {
    /// Reads the handshake fields from the front of a payload, returning
    /// them with the count of bytes they take.
    pub fn read(data: &[u8]) -> (r: Result<(HandshakePacket, usize), DecodeError>)
        ensures
            match (r, handshake_fields(data@)) {
                (Ok((h, end)), Ok((version, address, port, next, q))) => h.protocol_version
                    == version && h.server_address@ == utf8_lossy(address) && h.server_port
                    == port && h.next_state == next && end == q,
                (Err(e), Err(f)) => e == f,
                _ => false,
            },
    {
        let (protocol_version, at_address) = match read_var_int(data, 0) {
            Ok(x) => x,
            Err(e) => return Err(e),
        };
        let (server_address, at_port) = match read_string(data, at_address) {
            Ok(x) => x,
            Err(e) => return Err(e),
        };
        let (server_port, at_next) = match read_u16(data, at_port) {
            Ok(x) => x,
            Err(e) => return Err(e),
        };
        let (next_state, end) = match read_var_int(data, at_next) {
            Ok(x) => x,
            Err(e) => return Err(e),
        };
        Ok((HandshakePacket { protocol_version, server_address, server_port, next_state }, end))
    }
}

/// Styled text, as the protocol's chat component.
pub struct Chat {
    pub text: String,
    pub bold: bool,
    pub italic: bool,
    pub underlined: bool,
    pub strikethrough: bool,
    pub obfuscated: bool,
    pub font: String,
    pub color: String,
    pub insertion: Option<String>,
    pub click_event: Option<serde_json::Value>,
    pub hover_event: Option<serde_json::Value>,
    pub extra: Option<Vec<Chat>>,
}

impl Chat {
    /// Plain text with every style at its default.
    pub fn literal(text: &str) -> (r: Chat)
        ensures
            r.text@ == text@,
            !r.bold && !r.italic && !r.underlined && !r.strikethrough && !r.obfuscated,
            r.font@ == default_font(),
            r.color@ == default_color(),
            r.insertion.is_none() && r.click_event.is_none() && r.hover_event.is_none()
                && r.extra.is_none(),
    {
        Chat {
            text: text.to_string(),
            bold: false,
            italic: false,
            underlined: false,
            strikethrough: false,
            obfuscated: false,
            font: "minecraft:default".to_string(),
            color: "reset".to_string(),
            insertion: None,
            click_event: None,
            hover_event: None,
            extra: None,
        }
    }
}

/// The font a chat component has unless it names another.
pub open spec fn default_font() -> Seq<char> {
    "minecraft:default"@
}

/// The color a chat component has unless it names another.
pub open spec fn default_color() -> Seq<char> {
    "reset"@
}

/// The server's metadata as the status response reports it.
pub struct StatusResponsePacket {
    pub version: StatusResponseVersion,
    pub players: StatusResponsePlayers,
    pub description: Chat,
    pub favicon: Option<String>,
    pub enforces_secure_chat: bool,
}

pub struct StatusResponseVersion {
    pub name: String,
    pub protocol: i32,
}

pub struct StatusResponsePlayers {
    pub max: i32,
    pub online: i32,
    pub sample: Vec<StatusResponsePlayersSample>,
}

/// A listed player; `id` is the player's UUID as a 128-bit number.
pub struct StatusResponsePlayersSample {
    pub name: String,
    pub id: u128,
}

/// The status a server reports when no collaborator supplies its own:
/// version 1.19.4 (protocol 762), 1 of 20 players online with one sample
/// player, a plain description, no favicon, and secure chat not enforced.
pub fn default_status_response() -> (r: StatusResponsePacket)
    ensures
        r.version.name@ == "1.19.4"@,
        r.version.protocol == 762,
        r.players.max == 20,
        r.players.online == 1,
        r.players.sample@.len() == 1,
        r.players.sample@[0].name@ == "Notch"@,
        r.players.sample@[0].id == 0x069a79f444e94726a5befca90e38aaf5u128,
        r.description.text@ == "A Minecraft Server written in Rust"@,
        r.favicon.is_none(),
        !r.enforces_secure_chat,
{
    StatusResponsePacket {
        version: StatusResponseVersion { name: "1.19.4".to_string(), protocol: 762 },
        players: StatusResponsePlayers {
            max: 20,
            online: 1,
            sample: vec![
                StatusResponsePlayersSample {
                    name: "Notch".to_string(),
                    id: 0x069a79f444e94726a5befca90e38aaf5u128,
                },
            ],
        },
        description: Chat::literal("A Minecraft Server written in Rust"),
        favicon: None,
        enforces_secure_chat: false,
    }
}

} // verus!
