//! Deserializing a JSON object text into a list of key-value pairs, in the
//! object's property order, keeping duplicates. The whole operation aborts
//! on the first property name that fails to decode.
//! The input is standard JSON text; number forms that only denote floating
//! point values are outside the value model and reported as malformed.
use vstd::prelude::*;
use crate::chars::chars_of;
use crate::codec::{DecodeError, KeyClass};
use crate::decode::{decode_entries, decode_props};
use crate::json::{JVal, Json, jpairs_of};
use crate::parse::{parse_json_chars, parse_text};

verus! {

/// Parse a JSON object text and decode every property into a key-value
/// pair, in property order.
pub fn json_to_vec(text: &str, class: KeyClass) -> (r: Result<Vec<(Json, Json)>, DecodeError>)
    ensures
        parse_text(text@) is None ==> (r matches Err(e) && e is Malformed),
        (match parse_text(text@) {
            Some(v) => match v {
                JVal::Obj(props) => match decode_props(class, props) {
                    Ok(pairs) => (r matches Ok(out) && jpairs_of(out@) == pairs),
                    Err(name) => (r matches Err(e) && e matches DecodeError::KeyDecodeFailure(n)
                        && n@ == name),
                },
                _ => (r matches Err(e) && e is NotAnObject),
            },
            None => true,
        }),
{
    let cs = chars_of(text);
    match parse_json_chars(&cs) {
        None => Err(DecodeError::Malformed),
        Some(j) => match j {
            Json::Obj(props) => decode_entries(&props, class),
            _ => Err(DecodeError::NotAnObject),
        },
    }
}

} // verus!
