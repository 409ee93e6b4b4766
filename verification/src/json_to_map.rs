//! Deserializing a JSON object text into an unordered map, decoding each
//! property name back into a key. The whole operation aborts on the first
//! name that fails to decode; a duplicate decoded key keeps the last value.
//! The input is standard JSON text; number forms that only denote floating
//! point values are outside the value model and reported as malformed.
use vstd::prelude::*;
use crate::chars::chars_of;
use crate::codec::{DecodeError, KeyClass};
use crate::decode::{decode_entries, decode_props, pairs_to_map};
use crate::json::{JVal, Json};
use crate::json_map::{JsonMap, fold_upsert, map_of_pairs};
use crate::parse::{parse_json_chars, parse_text};

verus! {

/// Parse a JSON object text and decode every property into a key-value
/// entry of a fresh map.
pub fn json_to_map(text: &str, class: KeyClass) -> (r: Result<JsonMap, DecodeError>)
    ensures
        parse_text(text@) is None ==> (r matches Err(e) && e is Malformed),
        (match parse_text(text@) {
            Some(v) => match v {
                JVal::Obj(props) => match decode_props(class, props) {
                    Ok(pairs) => (r matches Ok(m) && m.pairs() == fold_upsert(pairs) && m@
                        == map_of_pairs(pairs)),
                    Err(name) => (r matches Err(e) && e matches DecodeError::KeyDecodeFailure(n)
                        && n@ == name),
                },
                _ => (r matches Err(e) && e is NotAnObject),
            },
            None => true,
        }),
{
    let cs = chars_of(text);
    match parse_json_chars(&cs) {
        None => Err(DecodeError::Malformed),
        Some(j) => match j {
            Json::Obj(props) => match decode_entries(&props, class) {
                Ok(pairs) => Ok(pairs_to_map(pairs)),
                Err(e) => Err(e),
            },
            _ => Err(DecodeError::NotAnObject),
        },
    }
}

} // verus!
