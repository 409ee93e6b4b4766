//! Serializing a map-like collection's entries to a JSON object, borrowing
//! the entries: the source collection stays usable afterwards.
use vstd::prelude::*;
use crate::chars::string_of_chars;
use crate::codec::{EncodeError, KeyClass};
use crate::encode::{all_encodable, encode_entries_chars, encoded_text};
use crate::json::{Json, jpairs_of};

verus! {

/// Write the borrowed entries of a map-like collection as a JSON object, one
/// property per entry, in entry order.
pub fn to_json_map(entries: &Vec<(Json, Json)>, class: KeyClass) -> (r: Result<
    String,
    EncodeError,
>)
    ensures
        all_encodable(class, jpairs_of(entries@)) ==> (r matches Ok(out) && out@ == encoded_text(
            class,
            jpairs_of(entries@),
        )),
        !all_encodable(class, jpairs_of(entries@)) ==> r is Err,
{
    match encode_entries_chars(entries, class) {
        Ok(out) => Ok(string_of_chars(out)),
        Err(e) => Err(e),
    }
}

} // verus!
