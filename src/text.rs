//! The text layer: turns field bytes into strings and back.
use vstd::prelude::*;
use vstd::utf8::{decode_utf8, encode_utf8, valid_utf8};
use encoding_rs::Encoding;

verus! {

/// Declares encoding_rs::Encoding, carried opaquely as the configured text
/// encoding.
#[verifier::external_type_specification]
#[verifier::external_body]
pub struct ExEncoding(Encoding);

/// Relies on std::str::from_utf8: it accepts exactly the valid UTF-8 byte
/// sequences, and the string it gives holds the characters they encode.
#[verifier::external_body]
fn utf8_str(bytes: &[u8]) -> (r: Option<String>)
    ensures
        r is Some <==> valid_utf8(bytes@),
        r matches Some(s) ==> s@ == decode_utf8(bytes@),
{
    std::str::from_utf8(bytes).ok().map(|s| s.to_string())
}

/// The text that `encoding` decodes `bytes` to.
pub uninterp spec fn decoded_as(encoding: &'static Encoding, bytes: Seq<u8>) -> Seq<char>;

/// The bytes that `encoding` encodes `text` to.
pub uninterp spec fn encoded_as(encoding: &'static Encoding, text: Seq<char>) -> Seq<u8>;

/// The bytes that stand for `text`: its UTF-8 bytes without an encoding,
/// else what the encoding makes of it.
pub open spec fn text_bytes(encoding: Option<&'static Encoding>, text: Seq<char>) -> Seq<u8> {
    match encoding {
        None => encode_utf8(text),
        Some(e) => encoded_as(e, text),
    }
}

/// Relies on encoding_rs::Encoding::decode: decodes the bytes under the
/// encoding, replacing malformed sequences; the result depends on the
/// encoding and the bytes alone (a BOM is read from the bytes).
#[verifier::external_body]
fn decode_in(encoding: &'static Encoding, bytes: &[u8]) -> (r: String)
    ensures
        r@ == decoded_as(encoding, bytes@),
{
    let (text, _, _) = encoding.decode(bytes);
    text.to_string()
}

/// Relies on encoding_rs::Encoding::encode: encodes the text under the
/// encoding's output encoding, replacing unmappable characters; the result
/// depends on the encoding and the text alone.
#[verifier::external_body]
fn encode_in(encoding: &'static Encoding, text: &str) -> (r: Vec<u8>)
    ensures
        r@ == encoded_as(encoding, text@),
{
    let (bytes, _, _) = encoding.encode(text);
    bytes.to_vec()
}

/// The field as text when it is valid UTF-8; `None` when it is not.
pub fn to_utf8(bytes: &[u8]) -> (r: Option<String>)
    ensures
        r is Some <==> valid_utf8(bytes@),
        r matches Some(s) ==> s@ == decode_utf8(bytes@),
{
    utf8_str(bytes)
}

/// The field decoded under `encoding`.
pub fn to_encoding(bytes: &[u8], encoding: &'static Encoding) -> (r: String)
    ensures
        r@ == decoded_as(encoding, bytes@),
{
    decode_in(encoding, bytes)
}

/// The text encoded under `encoding`, or its UTF-8 bytes when there is none.
pub fn from_text(text: &String, encoding: Option<&'static Encoding>) -> (r: Vec<u8>)
    ensures
        r@ == text_bytes(encoding, text@),
{
    match encoding {
        None => {
            let b = text.as_str().as_bytes();
            vstd::slice::slice_to_vec(b)
        }
        Some(e) => encode_in(e, text.as_str()),
    }
}

} // verus!
