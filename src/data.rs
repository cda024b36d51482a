//! Decoders and encoders of the protocol's fields: VarInt, big-endian `u16`
//! and length-prefixed UTF-8 strings.

use vstd::prelude::*;
use vstd::slice::slice_subrange;
use vstd::string::StringSliceAdditionalSpecFns;
use vstd::utf8::{decode_utf8, encode_utf8_decode_utf8, encode_utf8_valid_utf8, valid_utf8};

use crate::varint::{
    decode_var_int, encode_var_int, lemma_var_int_round_trip, var_int_bytes, var_int_parse,
};

verus! {

/// Why a field could not be decoded. Both are fatal to a connection.
#[derive(Debug, Clone, Copy, PartialEq, Eq, Structural)]
pub enum DecodeError {
    /// A VarInt needs a sixth byte, sets bits beyond 32, or the input ends
    /// before its last byte.
    MalformedVarInt,
    /// A field of known size has fewer bytes left than it needs.
    BufferUnderflow,
}

/// A field type that can be read from a byte sequence at a position.
pub trait ReadFromBytes: Sized {
    /// Whether `r` is the outcome of reading a value from `b` at `pos`; on
    /// success the position returned is the one just past the field.
    spec fn read_result(b: Seq<u8>, pos: int, r: Result<(Self, usize), DecodeError>) -> bool;

    fn read_from(b: &[u8], pos: usize) -> (r: Result<(Self, usize), DecodeError>)
        requires
            pos <= b@.len(),
        ensures
            Self::read_result(b@, pos as int, r),
    ;
}

/// The VarInt field at `pos`, with the position just past it. A VarInt that
/// the input ends inside of is malformed here: a field lies within its frame.
pub open spec fn var_int_field(b: Seq<u8>, pos: int) -> Result<(i32, usize), DecodeError> {
    match var_int_parse(b.subrange(pos, b.len() as int)) {
        Ok((v, n)) => Ok((v, (pos + n) as usize)),
        Err(_) => Err(DecodeError::MalformedVarInt),
    }
}

/// The big-endian `u16` at `pos`, with the position just past it.
pub open spec fn u16_field(b: Seq<u8>, pos: int) -> Result<(u16, usize), DecodeError> {
    if pos + 2 <= b.len() {
        Ok(((b[pos] as int * 256 + b[pos + 1] as int) as u16, (pos + 2) as usize))
    } else {
        Err(DecodeError::BufferUnderflow)
    }
}

/// The raw bytes of the length-prefixed string at `pos`, with the position
/// just past them. A negative length, or one that runs past the end of `b`,
/// is an underflow.
pub open spec fn string_field(b: Seq<u8>, pos: int) -> Result<(Seq<u8>, usize), DecodeError> {
    match var_int_field(b, pos) {
        Ok((n, p)) => if n >= 0 && p + n <= b.len() {
            Ok((b.subrange(p as int, p + n), (p + n) as usize))
        } else {
            Err(DecodeError::BufferUnderflow)
        },
        Err(e) => Err(e),
    }
}

/// What `String::from_utf8_lossy` makes of a byte sequence: each invalid
/// sequence replaced by U+FFFD.
pub uninterp spec fn utf8_lossy(b: Seq<u8>) -> Seq<char>;

/// Relies on `String::from_utf8_lossy`: the result depends on the bytes
/// alone, and valid UTF-8 is decoded unchanged.
#[verifier::external_body]
fn string_from_utf8_lossy(b: &[u8]) -> (r: String)
    ensures
        r@ == utf8_lossy(b@),
        valid_utf8(b@) ==> r@ == decode_utf8(b@),
{
    String::from_utf8_lossy(b).into_owned()
}

/// Reads the VarInt field at `pos`.
pub fn read_var_int(b: &[u8], pos: usize) -> (r: Result<(i32, usize), DecodeError>)
    requires
        pos <= b@.len(),
    ensures
        r == var_int_field(b@, pos as int),
        r matches Ok((_, p)) ==> pos < p <= b@.len(),
{
    let rest = slice_subrange(b, pos, b.len());
    match decode_var_int(rest) {
        Ok((v, n)) => {
            proof {
                crate::varint::lemma_var_int_parse_len(rest@);
            }
            Ok((v, pos + n))
        },
        Err(_) => Err(DecodeError::MalformedVarInt),
    }
}

/// Reads the big-endian `u16` field at `pos`.
pub fn read_u16(b: &[u8], pos: usize) -> (r: Result<(u16, usize), DecodeError>)
    requires
        pos <= b@.len(),
    ensures
        r == u16_field(b@, pos as int),
{
    if b.len() - pos < 2 {
        return Err(DecodeError::BufferUnderflow);
    }
    let hi = b[pos] as u16;
    let lo = b[pos + 1] as u16;
    Ok((hi * 256 + lo, pos + 2))
}

/// Reads the length-prefixed string at `pos`, replacing invalid UTF-8.
pub fn read_string(b: &[u8], pos: usize) -> (r: Result<(String, usize), DecodeError>)
    requires
        pos <= b@.len(),
    ensures
        match (r, string_field(b@, pos as int)) {
            (Ok((s, p)), Ok((raw, q))) => s@ == utf8_lossy(raw) && p == q && (valid_utf8(raw)
                ==> s@ == decode_utf8(raw)),
            (Err(e), Err(f)) => e == f,
            _ => false,
        },
{
    let (n, p) = match read_var_int(b, pos) {
        Ok(x) => x,
        Err(e) => return Err(e),
    };
    if n < 0 || n as usize > b.len() - p {
        return Err(DecodeError::BufferUnderflow);
    }
    let end = p + n as usize;
    let raw = slice_subrange(b, p, end);
    Ok((string_from_utf8_lossy(raw), end))
}

/// The length prefix and UTF-8 bytes of `string`.
pub fn encode_string(string: &str) -> (r: Vec<u8>)
    requires
        string.spec_bytes().len() <= i32::MAX,
    ensures
        r@ == var_int_bytes(string.spec_bytes().len() as i32) + string.spec_bytes(),
{
    let mut encoded = encode_var_int(string.len() as i32);
    encoded.extend_from_slice(string.as_bytes());
    assert(encoded@ =~= var_int_bytes(string.spec_bytes().len() as i32) + string.spec_bytes());
    encoded
}

/// A string written by `encode_string` reads back as the same characters,
/// whatever follows it, and the read ends right after it.
pub proof fn lemma_string_round_trip(s: Seq<char>, rest: Seq<u8>)
    requires
        vstd::utf8::encode_utf8(s).len() <= i32::MAX,
    ensures
        ({
            let bytes = vstd::utf8::encode_utf8(s);
            let enc = var_int_bytes(bytes.len() as i32) + bytes;
            &&& string_field(enc + rest, 0) == Ok::<(Seq<u8>, usize), DecodeError>(
                (bytes, enc.len() as usize),
            )
            &&& valid_utf8(bytes)
            &&& decode_utf8(bytes) == s
        }),
{
    let bytes = vstd::utf8::encode_utf8(s);
    let pre = var_int_bytes(bytes.len() as i32);
    let enc = pre + bytes;
    let all = enc + rest;
    lemma_var_int_round_trip(bytes.len() as i32, bytes + rest);
    assert(all.subrange(0, all.len() as int) =~= pre + (bytes + rest));
    assert(all.subrange(pre.len() as int, (pre.len() + bytes.len()) as int) =~= bytes);
    encode_utf8_valid_utf8(s);
    encode_utf8_decode_utf8(s);
}

impl ReadFromBytes for i32 {
    open spec fn read_result(b: Seq<u8>, pos: int, r: Result<(i32, usize), DecodeError>) -> bool {
        r == var_int_field(b, pos)
    }

    fn read_from(b: &[u8], pos: usize) -> (r: Result<(i32, usize), DecodeError>) {
        read_var_int(b, pos)
    }
}

impl ReadFromBytes for u16 {
    open spec fn read_result(b: Seq<u8>, pos: int, r: Result<(u16, usize), DecodeError>) -> bool {
        r == u16_field(b, pos)
    }

    fn read_from(b: &[u8], pos: usize) -> (r: Result<(u16, usize), DecodeError>) {
        read_u16(b, pos)
    }
}

impl ReadFromBytes for String {
    open spec fn read_result(b: Seq<u8>, pos: int, r: Result<(String, usize), DecodeError>) -> bool {
        match (r, string_field(b, pos)) {
            (Ok((s, p)), Ok((raw, q))) => s@ == utf8_lossy(raw) && p == q,
            (Err(e), Err(f)) => e == f,
            _ => false,
        }
    }

    fn read_from(b: &[u8], pos: usize) -> (r: Result<(String, usize), DecodeError>) {
        read_string(b, pos)
    }
}

/// A field type that can be read from the front of a byte sequence; the
/// count of bytes taken comes with the value.
pub trait FromBytes: Sized {
    /// Whether `r` is the outcome of reading a value from the front of `b`.
    spec fn from_bytes_result(b: Seq<u8>, r: Result<(Self, usize), DecodeError>) -> bool;

    fn from_bytes(b: &[u8]) -> (r: Result<(Self, usize), DecodeError>)
        ensures
            Self::from_bytes_result(b@, r),
    ;
}

impl FromBytes for i32 {
    open spec fn from_bytes_result(b: Seq<u8>, r: Result<(i32, usize), DecodeError>) -> bool {
        r == var_int_field(b, 0)
    }

    fn from_bytes(b: &[u8]) -> (r: Result<(i32, usize), DecodeError>) {
        read_var_int(b, 0)
    }
}

impl FromBytes for u16 {
    open spec fn from_bytes_result(b: Seq<u8>, r: Result<(u16, usize), DecodeError>) -> bool {
        r == u16_field(b, 0)
    }

    fn from_bytes(b: &[u8]) -> (r: Result<(u16, usize), DecodeError>) {
        read_u16(b, 0)
    }
}

impl FromBytes for String {
    open spec fn from_bytes_result(b: Seq<u8>, r: Result<(String, usize), DecodeError>) -> bool {
        match (r, string_field(b, 0)) {
            (Ok((s, p)), Ok((raw, q))) => s@ == utf8_lossy(raw) && p == q,
            (Err(e), Err(f)) => e == f,
            _ => false,
        }
    }

    fn from_bytes(b: &[u8]) -> (r: Result<(String, usize), DecodeError>) {
        read_string(b, 0)
    }
}

} // verus!
