//! Turning a sequence of key-value entries into a JSON object, streaming one
//! entry at a time: the shared routine behind every serializer entry point.
use vstd::prelude::*;
use crate::codec::{EncodeError, KeyClass, encode_key, key_encodable, key_name};
use crate::json::{JVal, Json, jpairs_of, jprops_of, lemma_jpairs_of_index, lemma_jprops_of_index};
use crate::text::{member_text, obj_tail_text, text_of, write_member};

verus! {

/// The object members an entry sequence produces: each key's property name
/// paired with its value.
pub open spec fn props_of(class: KeyClass, pairs: Seq<(JVal, JVal)>) -> Seq<(Seq<char>, JVal)> {
    pairs.map_values(|p: (JVal, JVal)| (key_name(class, p.0), p.1))
}

/// The JSON object value an entry sequence encodes to.
pub open spec fn encoded_obj(class: KeyClass, pairs: Seq<(JVal, JVal)>) -> JVal {
    JVal::Obj(props_of(class, pairs))
}

/// The JSON object text an entry sequence encodes to.
pub open spec fn encoded_text(class: KeyClass, pairs: Seq<(JVal, JVal)>) -> Seq<char> {
    text_of(encoded_obj(class, pairs))
}

/// Whether every key of an entry sequence can be encoded under a class.
pub open spec fn all_encodable(class: KeyClass, pairs: Seq<(JVal, JVal)>) -> bool {
    forall|i: int| 0 <= i < pairs.len() ==> key_encodable(class, #[trigger] pairs[i].0)
}

/// Write the entries as a JSON object, streaming one property per entry, in
/// entry order. The first key that cannot be encoded aborts the whole
/// operation.
#[verifier::loop_isolation(false)]
pub(crate) fn encode_entries_chars(entries: &Vec<(Json, Json)>, class: KeyClass) -> (r: Result<
    Vec<char>,
    EncodeError,
>)
    ensures
        all_encodable(class, jpairs_of(entries@)) ==> (r matches Ok(out) && out@ == encoded_text(
            class,
            jpairs_of(entries@),
        )),
        !all_encodable(class, jpairs_of(entries@)) ==> r is Err,
{
    broadcast use lemma_jpairs_of_index;

    let ghost pairs = jpairs_of(entries@);
    let ghost props = props_of(class, pairs);
    let mut out: Vec<char> = Vec::new();
    out.push('{');
    if entries.len() == 0 {
        out.push('}');
        assert(out@ =~= encoded_text(class, pairs));
        return Ok(out);
    }
    let name0 = match encode_key(class, &entries[0].0) {
        Ok(name) => name,
        Err(e) => {
            assert(!key_encodable(class, pairs[0].0));
            return Err(e);
        },
    };
    write_member(&name0, &entries[0].1, &mut out);
    assert(props[0] == (key_name(class, pairs[0].0), pairs[0].1));
    assert(out@ =~= seq!['{'] + member_text(props[0]));
    let mut k: usize = 1;
    while k < entries.len()
        invariant
            1 <= k <= entries.len(),
            forall|i: int| 0 <= i < k ==> key_encodable(class, #[trigger] pairs[i].0),
            out@ + obj_tail_text(props.skip(k as int)) == encoded_text(class, pairs),
        decreases entries.len() - k,
    {
        let name = match encode_key(class, &entries[k].0) {
            Ok(name) => name,
            Err(e) => {
                assert(!key_encodable(class, pairs[k as int].0));
                return Err(e);
            },
        };
        let ghost old_out = out@;
        out.push(',');
        write_member(&name, &entries[k].1, &mut out);
        proof {
            assert(props[k as int] == (key_name(class, pairs[k as int].0), pairs[k as int].1));
            assert(props.skip(k as int).drop_first() =~= props.skip(k as int + 1));
            assert(props.skip(k as int)[0] == props[k as int]);
            assert(obj_tail_text(props.skip(k as int)) == seq![','] + member_text(props[k as int])
                + obj_tail_text(props.skip(k as int + 1)));
            assert(out@ =~= old_out + (seq![','] + member_text(props[k as int])));
            assert(out@ + obj_tail_text(props.skip(k as int + 1)) =~= old_out + obj_tail_text(
                props.skip(k as int),
            ));
        }
        k = k + 1;
    }
    out.push('}');
    proof {
        assert(props.skip(entries@.len() as int) =~= Seq::<(Seq<char>, JVal)>::empty());
        assert(obj_tail_text(props.skip(entries@.len() as int)) == seq!['}']);
        assert(out@ =~= encoded_text(class, pairs));
    }
    Ok(out)
}

/// Build the encoded object as a JSON value rather than as text: the form a
/// nested field contributes to its surrounding structure.
#[verifier::loop_isolation(false)]
pub(crate) fn build_encoded_obj(entries: &Vec<(Json, Json)>, class: KeyClass) -> (r: Result<
    Json,
    EncodeError,
>)
    ensures
        all_encodable(class, jpairs_of(entries@)) ==> (r matches Ok(j) && j@ == encoded_obj(
            class,
            jpairs_of(entries@),
        )),
        !all_encodable(class, jpairs_of(entries@)) ==> r is Err,
{
    broadcast use lemma_jpairs_of_index, lemma_jprops_of_index;

    let ghost pairs = jpairs_of(entries@);
    let ghost props = props_of(class, pairs);
    let mut out: Vec<(Vec<char>, Json)> = Vec::new();
    let mut k: usize = 0;
    while k < entries.len()
        invariant
            0 <= k <= entries.len(),
            out@.len() == k,
            forall|i: int| 0 <= i < k ==> key_encodable(class, #[trigger] pairs[i].0),
            forall|i: int| 0 <= i < k ==> jprops_of(out@)[i] == #[trigger] props[i],
        decreases entries.len() - k,
    {
        let name = match encode_key(class, &entries[k].0) {
            Ok(name) => name,
            Err(e) => {
                assert(!key_encodable(class, pairs[k as int].0));
                return Err(e);
            },
        };
        let ghost old_out = out@;
        out.push((name, entries[k].1.duplicate()));
        proof {
            assert(out@.drop_last() =~= old_out);
            assert(props[k as int] == (key_name(class, pairs[k as int].0), pairs[k as int].1));
        }
        k = k + 1;
    }
    proof {
        assert(jprops_of(out@) =~= props);
    }
    Ok(Json::Obj(out))
}

} // verus!
