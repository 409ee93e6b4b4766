//! The general laws of the library, stated and proved once for all inputs:
//! encoding and decoding invert each other, the string-key fast path adds no
//! second layer of encoding, and a structured key's property name is its
//! escaped canonical text.
use vstd::prelude::*;
use crate::codec::{KeyClass, key_encodable, key_name, lemma_key_roundtrip};
use crate::decode::{decode_entry, decode_props};
use crate::encode::{all_encodable, encoded_obj, encoded_text, props_of};
use crate::json::JVal;
use crate::json_map::{distinct_keys, fold_upsert, upsert_pairs};
use crate::parse::parse_text;
use crate::parse_proofs::lemma_parse_text_complete;
use crate::text::{escape_text, member_text, obj_tail_text, text_of};

verus! {

/// Decoding the members an entry sequence encodes to gives the entries
/// back, for every key class: the codec inverts the serializer member by
/// member.
pub proof fn lemma_decode_encoded_props(class: KeyClass, pairs: Seq<(JVal, JVal)>)
    requires
        all_encodable(class, pairs),
    ensures
        decode_props(class, props_of(class, pairs)) == Ok::<Seq<(JVal, JVal)>, Seq<char>>(pairs),
    decreases pairs.len(),
{
    let props = props_of(class, pairs);
    if pairs.len() == 0 {
        assert(props =~= Seq::<(Seq<char>, JVal)>::empty());
        assert(pairs =~= Seq::<(JVal, JVal)>::empty());
    } else {
        assert(props[0] == (key_name(class, pairs[0].0), pairs[0].1));
        lemma_key_roundtrip(class, pairs[0].0);
        assert(decode_entry(class, props[0]) == Ok::<(JVal, JVal), Seq<char>>(
            (pairs[0].0, pairs[0].1),
        ));
        assert(pairs[0] == (pairs[0].0, pairs[0].1));
        assert(all_encodable(class, pairs.drop_first())) by {
            assert(forall|i: int|
                0 <= i < pairs.drop_first().len() ==> #[trigger] pairs.drop_first()[i] == pairs[i
                    + 1]);
        }
        lemma_decode_encoded_props(class, pairs.drop_first());
        assert(props.drop_first() =~= props_of(class, pairs.drop_first()));
        assert(seq![pairs[0]] + pairs.drop_first() =~= pairs);
    }
}

/// The round trip, for every key class and every entry sequence whose keys
/// it can encode: the encoded object text parses back to exactly the encoded
/// object, and decoding its members gives the original entries, in order.
pub proof fn lemma_roundtrip(class: KeyClass, pairs: Seq<(JVal, JVal)>)
    requires
        all_encodable(class, pairs),
    ensures
        parse_text(encoded_text(class, pairs)) == Some(encoded_obj(class, pairs)),
        decode_props(class, props_of(class, pairs)) == Ok::<Seq<(JVal, JVal)>, Seq<char>>(pairs),
{
    lemma_parse_text_complete(encoded_obj(class, pairs));
    lemma_decode_encoded_props(class, pairs);
}

/// Folding an entry sequence with pairwise-distinct keys into a map changes
/// nothing: with no duplicate keys, last-write-wins keeps every entry. So a
/// decoded map holds exactly the entries a distinct-keyed source encoded.
pub proof fn lemma_fold_upsert_distinct(pairs: Seq<(JVal, JVal)>)
    requires
        distinct_keys(pairs),
    ensures
        fold_upsert(pairs) == pairs,
    decreases pairs.len(),
{
    if pairs.len() > 0 {
        let pd = pairs.drop_last();
        assert(distinct_keys(pd));
        lemma_fold_upsert_distinct(pd);
        assert(forall|m: int| 0 <= m < pd.len() ==> (#[trigger] pd[m]).0 != pairs.last().0);
        assert(upsert_pairs(pd, pairs.last().0, pairs.last().1) == pd.push(pairs.last())) by {
            assert(pairs.last() == (pairs.last().0, pairs.last().1));
        }
        assert(pd.push(pairs.last()) =~= pairs);
    }
}

/// The string-key fast path is transparent: when every key is a string, the
/// property names are the key strings themselves, so the encoded object is
/// exactly the native string-keyed object, with no second layer of quoting.
pub proof fn lemma_string_key_fast_path(pairs: Seq<(JVal, JVal)>)
    requires
        forall|i: int| 0 <= i < pairs.len() ==> (#[trigger] pairs[i]).0 is Str,
    ensures
        encoded_obj(KeyClass::RawString, pairs) == JVal::Obj(
            pairs.map_values(|p: (JVal, JVal)| (p.0->Str_0, p.1)),
        ),
{
    let a = props_of(KeyClass::RawString, pairs);
    let b = pairs.map_values(|p: (JVal, JVal)| (p.0->Str_0, p.1));
    assert(a =~= b) by {
        assert(forall|i: int|
            0 <= i < pairs.len() ==> #[trigger] a[i] == (key_name(
                KeyClass::RawString,
                pairs[i].0,
            ), pairs[i].1));
        assert(forall|i: int|
            0 <= i < pairs.len() ==> key_name(KeyClass::RawString, (#[trigger] pairs[i]).0)
                == pairs[i].0->Str_0);
    }
}

/// A structured key's property name is the escaped form of its canonical
/// JSON text: a single structured entry encodes to an object whose one
/// property name holds the key's serialization, escaped and quoted once.
pub proof fn lemma_structured_key_escaping(k: JVal, v: JVal)
    ensures
        encoded_text(KeyClass::Structured, seq![(k, v)]) == seq!['{', '"'] + escape_text(
            text_of(k),
        ) + seq!['"', ':'] + text_of(v) + seq!['}'],
{
    let pairs = seq![(k, v)];
    let props = props_of(KeyClass::Structured, pairs);
    assert(props.len() == 1);
    assert(props[0] == (text_of(k), v));
    assert(props.drop_first() =~= Seq::<(Seq<char>, JVal)>::empty());
    assert(obj_tail_text(props.drop_first()) == seq!['}']);
    assert(member_text(props[0]) == seq!['"'] + escape_text(text_of(k)) + seq!['"', ':'] + text_of(
        v,
    ));
    assert(encoded_text(KeyClass::Structured, pairs) == seq!['{'] + member_text(props[0])
        + obj_tail_text(props.drop_first()));
    assert(seq!['{'] + (seq!['"'] + escape_text(text_of(k)) + seq!['"', ':'] + text_of(v)) + seq![
        '}',
    ] =~= seq!['{', '"'] + escape_text(text_of(k)) + seq!['"', ':'] + text_of(v) + seq!['}']);
}

/// The eager and the lazy deserialization shapes agree: the eager decode of
/// a member sequence succeeds exactly when every member decodes on its own,
/// in which case the pulled entries are the eager result entry for entry;
/// and when it fails, the error is the first member's failure, in member
/// order.
pub proof fn lemma_eager_lazy_agreement(class: KeyClass, props: Seq<(Seq<char>, JVal)>)
    ensures
        decode_props(class, props) is Ok <==> (forall|k: int|
            0 <= k < props.len() ==> decode_entry(class, #[trigger] props[k]) is Ok),
        decode_props(class, props) matches Ok(pairs) ==> pairs.len() == props.len() && (forall|
            k: int,
        |
            0 <= k < props.len() ==> decode_entry(class, #[trigger] props[k]) == Ok::<
                (JVal, JVal),
                Seq<char>,
            >(pairs[k])),
        decode_props(class, props) matches Err(e) ==> exists|k: int|
            {
                &&& 0 <= k < props.len()
                &&& decode_entry(class, #[trigger] props[k]) == Err::<(JVal, JVal), Seq<char>>(e)
                &&& forall|m: int| 0 <= m < k ==> decode_entry(class, #[trigger] props[m]) is Ok
            },
    decreases props.len(),
{
    if props.len() > 0 {
        let rest = props.drop_first();
        lemma_eager_lazy_agreement(class, rest);
        assert(forall|k: int| 0 <= k < rest.len() ==> #[trigger] rest[k] == props[k + 1]);
        match decode_entry(class, props[0]) {
            Ok(p) => {
                match decode_props(class, rest) {
                    Ok(rpairs) => {
                        let pairs = seq![p] + rpairs;
                        assert(decode_props(class, props) == Ok::<Seq<(JVal, JVal)>, Seq<char>>(
                            pairs,
                        ));
                        assert forall|k: int|
                            1 <= k < props.len() implies decode_entry(class, #[trigger] props[k])
                            == Ok::<(JVal, JVal), Seq<char>>(pairs[k]) by {
                            assert(rest[k - 1] == props[k]);
                            assert(decode_entry(class, rest[k - 1]) == Ok::<
                                (JVal, JVal),
                                Seq<char>,
                            >(rpairs[k - 1]));
                            assert(pairs[k] == rpairs[k - 1]);
                        }
                    },
                    Err(e) => {
                        let k = choose|k: int|
                            {
                                &&& 0 <= k < rest.len()
                                &&& decode_entry(class, #[trigger] rest[k]) == Err::<
                                    (JVal, JVal),
                                    Seq<char>,
                                >(e)
                                &&& forall|m: int|
                                    0 <= m < k ==> decode_entry(class, #[trigger] rest[m]) is Ok
                            };
                        assert(decode_entry(class, props[k + 1]) == Err::<(JVal, JVal), Seq<char>>(
                            e,
                        ));
                        assert forall|m: int|
                            0 <= m < k + 1 implies decode_entry(class, #[trigger] props[m]) is Ok by {
                            if m >= 1 {
                                assert(rest[m - 1] == props[m]);
                                assert(decode_entry(class, rest[m - 1]) is Ok);
                            }
                        }
                    },
                }
            },
            Err(e) => {
                assert(decode_entry(class, props[0]) is Err);
            },
        }
    }
}

/// Nested structures round-trip at any depth: the canonical text of any
/// value, however deeply keyed collections are nested inside it, parses back
/// to exactly that value. A field encoded by the field-level hooks is such a
/// value, so nesting adds no loss.
pub proof fn lemma_nested_roundtrip(v: JVal)
    ensures
        parse_text(text_of(v)) == Some(v),
{
    lemma_parse_text_complete(v);
}

} // verus!
