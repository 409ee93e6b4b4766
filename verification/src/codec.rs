//! The key codec: how a key becomes a JSON object property name and how a
//! property name becomes a key again.
//!
//! A key type is classified once, at the call site, as either the string
//! type itself or any other (structured) type. A string key's characters are
//! the property name directly; a structured key's canonical JSON text is the
//! property name. The classification never depends on the value of an
//! individual key.
use vstd::prelude::*;
use crate::json::{JVal, Json, copy_chars};
use crate::parse::{parse_json_chars, parse_text};
use crate::text::{json_text_chars, text_of};

verus! {

/// The class of a key type: exactly the string type, or anything else.
#[derive(Clone, Copy)]
pub enum KeyClass {
    RawString,
    Structured,
}

/// Why encoding a collection failed. Since every JSON value has a canonical
/// text, the one failing element an encode can hit is a key classified as a
/// raw string that is not a string value; no further detail exists to carry.
#[derive(Debug)]
pub enum EncodeError {
    /// A key was classified as a raw string but is not a string value.
    KeyNotAString,
}

/// Why decoding a JSON object text failed.
#[derive(Debug)]
pub enum DecodeError {
    /// The whole input is not canonical JSON text.
    Malformed,
    /// The input is canonical JSON text, but of a value that is not an
    /// object.
    NotAnObject,
    /// A property name could not be decoded as a key; the offending name is
    /// carried along.
    KeyDecodeFailure(Vec<char>),
}

/// Whether a key value can be encoded under a class: a raw-string key must
/// actually be a string.
pub open spec fn key_encodable(class: KeyClass, k: JVal) -> bool {
    match class {
        KeyClass::RawString => k is Str,
        KeyClass::Structured => true,
    }
}

/// The property-name content an encodable key produces: the string itself,
/// or the key's canonical JSON text.
pub open spec fn key_name(class: KeyClass, k: JVal) -> Seq<char> {
    match class {
        KeyClass::RawString => match k {
            JVal::Str(s) => s,
            _ => Seq::empty(),
        },
        KeyClass::Structured => text_of(k),
    }
}

/// The key a property name decodes to, if any: a raw-string name is the key
/// itself; a structured name must be the JSON text of the key.
pub open spec fn decoded_key(class: KeyClass, name: Seq<char>) -> Option<JVal> {
    match class {
        KeyClass::RawString => Some(JVal::Str(name)),
        KeyClass::Structured => parse_text(name),
    }
}

/// Encode one key as the content of a JSON object property name.
pub fn encode_key(class: KeyClass, k: &Json) -> (r: Result<Vec<char>, EncodeError>)
    ensures
        key_encodable(class, k@) ==> (r matches Ok(name) && name@ == key_name(class, k@)),
        !key_encodable(class, k@) ==> r is Err,
{
    match class {
        KeyClass::RawString => match k {
            Json::Str(s) => Ok(copy_chars(s)),
            _ => Err(EncodeError::KeyNotAString),
        },
        KeyClass::Structured => Ok(json_text_chars(k)),
    }
}

/// Decode one property name back into a key.
pub fn decode_key(class: KeyClass, name: &Vec<char>) -> (r: Result<Json, DecodeError>)
    ensures
        match decoded_key(class, name@) {
            Some(k) => (r matches Ok(key) && key@ == k),
            None => (r matches Err(e) && e matches DecodeError::KeyDecodeFailure(n) && n@ == name@),
        },
{
    match class {
        KeyClass::RawString => Ok(Json::Str(copy_chars(name))),
        KeyClass::Structured => match parse_json_chars(name) {
            Some(k) => Ok(k),
            None => Err(DecodeError::KeyDecodeFailure(copy_chars(name))),
        },
    }
}

/// Decoding the name of an encodable key gives the key back, for every key
/// class: the key codec round-trips.
pub proof fn lemma_key_roundtrip(class: KeyClass, k: JVal)
    requires
        key_encodable(class, k),
    ensures
        decoded_key(class, key_name(class, k)) == Some(k),
{
    match class {
        KeyClass::RawString => {},
        KeyClass::Structured => {
            crate::parse_proofs::lemma_parse_text_complete(k);
        },
    }
}

} // verus!
