//! The field-level hooks for a list of key-value pairs nested inside a
//! larger structure. The list is written as a JSON object, exactly as a
//! map-like field with the same entries would be, and is rebuilt as a list
//! in property order, keeping duplicates.
use vstd::prelude::*;
use crate::codec::{DecodeError, EncodeError, KeyClass};
use crate::decode::{decode_entries, decode_props};
use crate::encode::{all_encodable, build_encoded_obj, encoded_obj};
use crate::json::{JVal, Json, jpairs_of};

verus! {

/// Encode a pair-list field's entries as the JSON object value the
/// surrounding structure will carry.
pub fn serialize(entries: &Vec<(Json, Json)>, class: KeyClass) -> (r: Result<Json, EncodeError>)
    ensures
        all_encodable(class, jpairs_of(entries@)) ==> (r matches Ok(j) && j@ == encoded_obj(
            class,
            jpairs_of(entries@),
        )),
        !all_encodable(class, jpairs_of(entries@)) ==> r is Err,
{
    build_encoded_obj(entries, class)
}

/// Decode a JSON object value taken out of a surrounding structure into a
/// list of pairs, in property order, aborting on the first name that fails
/// to decode.
pub fn deserialize(field: &Json, class: KeyClass) -> (r: Result<Vec<(Json, Json)>, DecodeError>)
    ensures
        (match field@ {
            JVal::Obj(props) => match decode_props(class, props) {
                Ok(pairs) => (r matches Ok(out) && jpairs_of(out@) == pairs),
                Err(name) => (r matches Err(e) && e matches DecodeError::KeyDecodeFailure(n) && n@
                    == name),
            },
            _ => (r matches Err(e) && e is NotAnObject),
        }),
{
    match field {
        Json::Obj(props) => decode_entries(props, class),
        _ => Err(DecodeError::NotAnObject),
    }
}

} // verus!
