//! The call-bridge conversion pipeline: between document text and the binary
//! wire format, and from a dispatcher's outcome back to the document that
//! script code receives.

use vstd::prelude::*;
use vstd::utf8::{encode_utf8, valid_utf8};
use crate::value::{Value, SpecValue, wf};
use crate::msgpack::{enc, dec_full};
use crate::json::{jfmt, jparse_full};
use crate::{json, msgpack};

verus! {

/// Relies on `String::from_utf8`: it succeeds exactly on valid UTF-8 and
/// keeps the bytes as the string's contents.
#[verifier::external_body]
fn bytes_to_string(v: Vec<u8>) -> (r: Option<String>)
    ensures
        r is Some <==> valid_utf8(v@),
        r matches Some(s) ==> encode_utf8(s@) == v@,
{
    match String::from_utf8(v) {
        Ok(s) => Some(s),
        Err(_) => None,
    }
}

/// The document that quotes a plain message as a string value.
pub open spec fn quoted_text(m: Seq<char>) -> Seq<u8> {
    jfmt(SpecValue::Text(encode_utf8(m)))
}

/// The note returned when a dispatcher response cannot be decoded.
pub open spec fn decode_failure_note() -> Seq<char> {
    "invalid binary payload"@
}

/// Re-encodes a canonical document as the binary wire format: the document
/// is parsed into a structured value and that value encoded.  Fails exactly
/// when the document does not parse.
pub fn json_to_msgpack(string: &str) -> (r: Result<Vec<u8>, String>)
    ensures
        r is Ok <==> jparse_full(encode_utf8(string@)) is Some,
        r matches Ok(b) ==> jparse_full(encode_utf8(string@)) matches Some(v) && b@ == enc(v),
{
    let bytes = string.as_bytes();
    match json::parse(bytes) {
        Some(v) => Ok(msgpack::encode(&v)),
        None => Err(String::from_str("invalid document")),
    }
}

/// Decodes the binary wire format back into a canonical document: the bytes
/// are decoded into a structured value and that value written as a document.
/// Fails exactly when the bytes do not decode, or when the document they
/// stand for is not valid UTF-8.
pub fn msgpack_to_json(bytes: &[u8]) -> (r: Result<String, String>)
    ensures
        r is Ok <==> (dec_full(bytes@) matches Some(v) && valid_utf8(jfmt(v))),
        r matches Ok(s) ==> dec_full(bytes@) matches Some(v) && encode_utf8(s@) == jfmt(v),
{
    match msgpack::decode(bytes) {
        Some(v) => {
            let doc = json::format(&v);
            match bytes_to_string(doc) {
                Some(s) => Ok(s),
                None => Err(String::from_str("document is not UTF-8")),
            }
        },
        None => Err(String::from_str("invalid binary payload")),
    }
}

/// Quotes a message as a document string value.  Fails exactly when the
/// message is too long for the value model or its quoted form is not valid
/// UTF-8.
fn quote_message(m: &str) -> (r: Result<String, String>)
    ensures
        r is Ok <==> (encode_utf8(m@).len() <= u32::MAX && valid_utf8(quoted_text(m@))),
        r matches Ok(s) ==> encode_utf8(s@) == quoted_text(m@),
{
    let mb = vstd::slice::slice_to_vec(m.as_bytes());
    if mb.len() as u64 > 0xffffffff {
        return Err(String::from_str("message too long"));
    }
    let v = Value::Text(mb);
    let doc = json::format(&v);
    match bytes_to_string(doc) {
        Some(s) => Ok(s),
        None => Err(String::from_str("document is not UTF-8")),
    }
}

/// The document handed back to script code for a dispatcher outcome: a
/// successful response is decoded into a document; a failed dispatch, or a
/// response that does not decode, becomes the failure message quoted as an
/// ordinary string value, never an exception.  The error case arises only
/// when the resulting document would not be valid UTF-8 text.
pub fn bridge_response(outcome: Result<Vec<u8>, String>) -> (r: Result<String, String>)
    ensures
        outcome matches Ok(b) ==> (match dec_full(b@) {
            Some(v) => (r is Ok <==> valid_utf8(jfmt(v))) && (r matches Ok(s) ==> encode_utf8(
                s@,
            ) == jfmt(v)),
            None => (r matches Ok(s) ==> encode_utf8(s@) == quoted_text(decode_failure_note()))
                && (r is Ok <==> (encode_utf8(decode_failure_note()).len() <= u32::MAX
                && valid_utf8(quoted_text(decode_failure_note())))),
        }),
        outcome matches Err(m) ==> ((r matches Ok(s) ==> encode_utf8(s@) == quoted_text(m@)) && (
        r is Ok <==> (encode_utf8(m@).len() <= u32::MAX && valid_utf8(quoted_text(m@))))),
{
    match outcome {
        Ok(bytes) => {
            match msgpack::decode(bytes.as_slice()) {
                Some(v) => {
                    let doc = json::format(&v);
                    match bytes_to_string(doc) {
                        Some(s) => Ok(s),
                        None => Err(String::from_str("document is not UTF-8")),
                    }
                },
                None => {
                    let note = "invalid binary payload";
                    quote_message(note)
                },
            }
        },
        Err(m) => quote_message(m.as_str()),
    }
}

/// Law: a successfully decoded dispatcher response reaches script code
/// unchanged in value and structure: the document that `bridge_response`
/// hands back parses to exactly the decoded value.
pub proof fn lemma_response_faithful(b: Seq<u8>, v: SpecValue, s: Seq<char>)
    requires
        dec_full(b) == Some(v),
        wf(v),
        encode_utf8(s) == jfmt(v),
    ensures
        jparse_full(encode_utf8(s)) == Some(v),
{
    crate::json::lemma_parse_format(v);
}

/// Law: a quoted failure message reaches script code as exactly that string
/// value: the quoting document parses back to the message.
pub proof fn lemma_quoted_message_faithful(m: Seq<char>)
    requires
        encode_utf8(m).len() <= u32::MAX,
    ensures
        jparse_full(quoted_text(m)) == Some(SpecValue::Text(encode_utf8(m))),
{
    crate::json::lemma_parse_format(SpecValue::Text(encode_utf8(m)));
}

} // verus!
