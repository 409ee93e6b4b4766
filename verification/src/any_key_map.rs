//! The field-level hooks for a map-like collection nested inside a larger
//! structure: the field's entries become a JSON object value inside the
//! surrounding structure, and come back out of one. Because the hooks work
//! on JSON values rather than on standalone text, a keyed collection can sit
//! at any nesting depth and round-trips all the same.
use vstd::prelude::*;
use crate::codec::{DecodeError, EncodeError, KeyClass};
use crate::decode::{decode_entries, decode_props, pairs_to_map};
use crate::encode::{all_encodable, build_encoded_obj, encoded_obj};
use crate::json::{JVal, Json, jpairs_of};
use crate::json_map::{JsonMap, fold_upsert, map_of_pairs};

verus! {

/// Encode a map field's entries as the JSON object value the surrounding
/// structure will carry.
pub fn serialize(entries: &Vec<(Json, Json)>, class: KeyClass) -> (r: Result<Json, EncodeError>)
    ensures
        all_encodable(class, jpairs_of(entries@)) ==> (r matches Ok(j) && j@ == encoded_obj(
            class,
            jpairs_of(entries@),
        )),
        !all_encodable(class, jpairs_of(entries@)) ==> r is Err,
{
    build_encoded_obj(entries, class)
}

/// Decode a JSON object value taken out of a surrounding structure into a
/// map, aborting on the first property name that fails to decode.
pub fn deserialize(field: &Json, class: KeyClass) -> (r: Result<JsonMap, DecodeError>)
    ensures
        (match field@ {
            JVal::Obj(props) => match decode_props(class, props) {
                Ok(pairs) => (r matches Ok(m) && m.pairs() == fold_upsert(pairs) && m@
                    == map_of_pairs(pairs)),
                Err(name) => (r matches Err(e) && e matches DecodeError::KeyDecodeFailure(n) && n@
                    == name),
            },
            _ => (r matches Err(e) && e is NotAnObject),
        }),
{
    match field {
        Json::Obj(props) => match decode_entries(props, class) {
            Ok(pairs) => Ok(pairs_to_map(pairs)),
            Err(e) => Err(e),
        },
        _ => Err(DecodeError::NotAnObject),
    }
}

} // verus!
