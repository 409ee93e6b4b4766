//! Deserializing a JSON object text into a lazy pull sequence of entries:
//! each pull decodes exactly one more property, and a failed entry does not
//! stop the entries after it from being pulled.
//! The input is standard JSON text; number forms that only denote floating
//! point values are outside the value model and reported as malformed.
use vstd::prelude::*;
use crate::chars::chars_of;
use crate::codec::{DecodeError, KeyClass, decoded_key};
use crate::decode::decode_entry;
use crate::json::{JVal, Json, jprops_of};
use crate::parse::{parse_json_chars, parse_text};

verus! {

/// A finite, single-pass source of decoded entries. Each pull decodes one
/// property; its outcome depends only on that property, never on whether an
/// earlier pull failed.
pub struct JsonToTupleIter {
    class: KeyClass,
    props: Vec<(Vec<char>, Json)>,
    pos: usize,
}

impl JsonToTupleIter {
    /// The members still to be walked come from this sequence.
    pub closed spec fn props_view(&self) -> Seq<(Seq<char>, JVal)> {
        jprops_of(self.props@)
    }

    /// The key class every pull decodes with.
    pub closed spec fn class_of(&self) -> KeyClass {
        self.class
    }

    /// How many members have been pulled already.
    pub closed spec fn pos_of(&self) -> int {
        self.pos as int
    }

    /// Decode the next property, if one is left. The outcome is exactly the
    /// decoding of the property at the current position: entries before or
    /// after it, failed or not, play no part.
    pub fn next(&mut self) -> (r: Option<Result<(Json, Json), DecodeError>>)
        ensures
            final(self).props_view() == old(self).props_view(),
            final(self).class_of() == old(self).class_of(),
            old(self).pos_of() >= old(self).props_view().len() ==> (r is None && final(self).pos_of()
                == old(self).pos_of()),
            old(self).pos_of() < old(self).props_view().len() ==> {
                &&& final(self).pos_of() == old(self).pos_of() + 1
                &&& (match decode_entry(
                    old(self).class_of(),
                    old(self).props_view()[old(self).pos_of()],
                ) {
                    Ok(p) => (r matches Some(x) && x matches Ok(kv) && kv.0@ == p.0 && kv.1@
                        == p.1),
                    Err(name) => (r matches Some(x) && x matches Err(e) && e
                        matches DecodeError::KeyDecodeFailure(n) && n@ == name),
                })
            },
    {
        broadcast use crate::json::lemma_jprops_of_index;

        if self.pos >= self.props.len() {
            return None;
        }
        let r = match crate::codec::decode_key(self.class, &self.props[self.pos].0) {
            Ok(key) => Some(Ok((key, self.props[self.pos].1.duplicate()))),
            Err(e) => {
                assert(decoded_key(self.class, self.props_view()[self.pos as int].0) is None);
                Some(Err(e))
            },
        };
        self.pos = self.pos + 1;
        r
    }
}

/// Parse a JSON object text and hand back a lazy pull sequence over its
/// properties.
pub fn json_to_iter(text: &str, class: KeyClass) -> (r: Result<JsonToTupleIter, DecodeError>)
    ensures
        parse_text(text@) is None ==> (r matches Err(e) && e is Malformed),
        (match parse_text(text@) {
            Some(v) => match v {
                JVal::Obj(props) => (r matches Ok(it) && it.props_view() == props && it.class_of()
                    == class && it.pos_of() == 0),
                _ => (r matches Err(e) && e is NotAnObject),
            },
            None => true,
        }),
{
    let cs = chars_of(text);
    match parse_json_chars(&cs) {
        None => Err(DecodeError::Malformed),
        Some(j) => match j {
            Json::Obj(props) => Ok(JsonToTupleIter { class, props, pos: 0 }),
            _ => Err(DecodeError::NotAnObject),
        },
    }
}

} // verus!
