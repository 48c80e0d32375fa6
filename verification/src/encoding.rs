//! The transport encoding of integer sequences: `bincode` bytes inside a
//! standard base64 envelope.
//!
//! Both layers are outside code. The serialized bytes are stated in full;
//! reading them back and both directions of the envelope have a name each,
//! and the only fact stated of the names is that decoding inverts encoding.

use vstd::prelude::*;
use base64::Engine;
use crate::error::LweError;

verus! {

/// `256^i` for the eight places of a 64-bit integer.
pub open spec fn byte_place(i: int) -> int {
    if i <= 0 {
        1
    } else if i == 1 {
        0x100
    } else if i == 2 {
        0x1_0000
    } else if i == 3 {
        0x100_0000
    } else if i == 4 {
        0x1_0000_0000
    } else if i == 5 {
        0x100_0000_0000
    } else if i == 6 {
        0x1_0000_0000_0000
    } else {
        0x100_0000_0000_0000
    }
}

/// Byte `i` of the 64-bit pattern of `x`, least significant byte first; a
/// negative `x` in two's complement.
pub open spec fn le_byte(x: int, i: int) -> u8 {
    (((x % 0x1_0000_0000_0000_0000) / byte_place(i)) % 256) as u8
}

/// The bytes `bincode::serialize` produces for a vector of `i64`: the length
/// as eight little-endian bytes, then eight little-endian bytes per element.
pub open spec fn bincode_bytes(data: Seq<i64>) -> Seq<u8> {
    Seq::new(
        8 + 8 * data.len(),
        |t: int|
            if t < 8 {
                le_byte(data.len() as int, t)
            } else {
                le_byte(data[(t - 8) / 8] as int, (t - 8) % 8)
            },
    )
}

/// The vector of `i64` that `bincode::deserialize` reads from `bytes`, if it
/// reads one.
pub uninterp spec fn bincode_values(bytes: Seq<u8>) -> Option<Seq<i64>>;

/// The text `base64`'s standard engine produces for `bytes`.
pub uninterp spec fn base64_text(bytes: Seq<u8>) -> Seq<char>;

/// The bytes `base64`'s standard engine decodes from `text`, if it accepts
/// the text.
pub uninterp spec fn base64_bytes(text: Seq<char>) -> Option<Seq<u8>>;

#[verifier::external_type_specification]
#[verifier::external_body]
pub struct ExBincodeErrorKind(bincode::ErrorKind);

#[verifier::external_type_specification]
#[verifier::external_body]
pub struct ExBase64DecodeError(base64::DecodeError);

/// `bincode::serialize` on a vector of `i64`.
///
/// Trusted: the result is the length as a 64-bit little-endian integer
/// followed by every element as one, which is bincode's fixed-width
/// encoding; and `bincode::deserialize` reads the vector back from it.
/// Serializing fixed-width integers into memory without a size limit has no
/// failure case, so the `Result` is unwrapped.
#[verifier::external_body]
pub(crate) fn bincode_serialize(data: &Vec<i64>) -> (r: Vec<u8>)
    ensures
        r@ == bincode_bytes(data@),
        r.len() == 8 + 8 * data.len(),
        bincode_values(r@) == Some(data@),
{
    bincode::serialize(data).expect("serializing integers into memory cannot fail")
}

/// `bincode::deserialize` to a vector of `i64`.
///
/// Trusted: success and the vector read are a function of the bytes.
#[verifier::external_body]
pub(crate) fn bincode_deserialize(bytes: &Vec<u8>) -> (r: Result<Vec<i64>, Box<bincode::ErrorKind>>)
    ensures
        match r {
            Ok(data) => bincode_values(bytes@) == Some(data@),
            Err(_) => bincode_values(bytes@) is None,
        },
{
    bincode::deserialize(bytes)
}

/// `encode` of `base64`'s standard engine.
///
/// Trusted: the result is the named text, and the engine's `decode` gives the
/// bytes back from it. The engine panics when the encoded length, four
/// characters per three bytes rounded up, does not fit `usize`.
#[verifier::external_body]
pub(crate) fn base64_encode(bytes: &Vec<u8>) -> (r: String)
    requires
        4 * (bytes.len() / 3) + 4 <= usize::MAX,
    ensures
        r@ == base64_text(bytes@),
        base64_bytes(r@) == Some(bytes@),
{
    base64::engine::general_purpose::STANDARD.encode(bytes)
}

/// `decode` of `base64`'s standard engine.
///
/// Trusted: acceptance and the bytes decoded are a function of the text.
#[verifier::external_body]
pub(crate) fn base64_decode(text: &str) -> (r: Result<Vec<u8>, base64::DecodeError>)
    ensures
        match r {
            Ok(bytes) => base64_bytes(text@) == Some(bytes@),
            Err(_) => base64_bytes(text@) is None,
        },
{
    base64::engine::general_purpose::STANDARD.decode(text)
}

/// The text that stands for `data`.
pub open spec fn compress_spec(data: Seq<i64>) -> Seq<char> {
    base64_text(bincode_bytes(data))
}

/// The integer sequence that `text` stands for, if it stands for one.
pub open spec fn decompress_spec(text: Seq<char>) -> Option<Seq<i64>> {
    match base64_bytes(text) {
        Some(bytes) => bincode_values(bytes),
        None => None,
    }
}

/// The largest number of integers whose encoding is sure to fit in memory:
/// sixteen bytes of text and envelope per integer, and some for the frame.
pub open spec fn encodable_len(len: nat) -> bool {
    16 * len + 64 <= usize::MAX
}

/// Serializes `data` and wraps the bytes in base64.
pub fn compress(data: &Vec<i64>) -> (r: String)
    requires
        encodable_len(data.len() as nat),
    ensures
        r@ == compress_spec(data@),
        decompress_spec(r@) == Some(data@),
{
    let serialized = bincode_serialize(data);
    base64_encode(&serialized)
}

/// Unwraps base64 text and deserializes the integers inside.
///
/// Fails with `MalformedEncoding` exactly when either layer rejects its input.
pub fn decompress(base64_str: &str) -> (r: Result<Vec<i64>, LweError>)
    ensures
        match r {
            Ok(data) => decompress_spec(base64_str@) == Some(data@),
            Err(e) => e == LweError::MalformedEncoding && decompress_spec(base64_str@) is None,
        },
{
    match base64_decode(base64_str) {
        Ok(bytes) => match bincode_deserialize(&bytes) {
            Ok(data) => Ok(data),
            Err(_) => Err(LweError::MalformedEncoding),
        },
        Err(_) => Err(LweError::MalformedEncoding),
    }
}

} // verus!
