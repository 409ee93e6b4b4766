//! Serializing a collection's entries to a JSON object while consuming
//! them: the entries are moved in and gone afterwards. The output is
//! identical to what the borrowing entry points produce for the same
//! entries.
use vstd::prelude::*;
use crate::chars::string_of_chars;
use crate::codec::{EncodeError, KeyClass};
use crate::encode::{all_encodable, encode_entries_chars, encoded_text};
use crate::json::{Json, jpairs_of};

verus! {

/// Write the moved entries as a JSON object, one property per entry, in
/// entry order; the entries are consumed.
pub fn into_json_map(entries: Vec<(Json, Json)>, class: KeyClass) -> (r: Result<
    String,
    EncodeError,
>)
    ensures
        all_encodable(class, jpairs_of(entries@)) ==> (r matches Ok(out) && out@ == encoded_text(
            class,
            jpairs_of(entries@),
        )),
        !all_encodable(class, jpairs_of(entries@)) ==> r is Err,
{
    match encode_entries_chars(&entries, class) {
        Ok(out) => Ok(string_of_chars(out)),
        Err(e) => Err(e),
    }
}

} // verus!
