//! Turning the members of a parsed JSON object back into key-value entries:
//! the shared routine behind every deserializer shape.
use vstd::prelude::*;
use crate::codec::{DecodeError, KeyClass, decode_key, decoded_key};
use crate::json::{JVal, Json, jpairs_of, jprops_of, lemma_jpairs_of_index, lemma_jprops_of_index};
use crate::json_map::{JsonMap, fold_upsert, map_of_pairs};

verus! {

/// What one object member decodes to: the key-value pair, or the property
/// name that failed to decode.
pub open spec fn decode_entry(class: KeyClass, p: (Seq<char>, JVal)) -> Result<
    (JVal, JVal),
    Seq<char>,
> {
    match decoded_key(class, p.0) {
        Some(k) => Ok((k, p.1)),
        None => Err(p.0),
    }
}

/// What a member sequence decodes to, aborting at the first member whose
/// name fails.
pub open spec fn decode_props(class: KeyClass, props: Seq<(Seq<char>, JVal)>) -> Result<
    Seq<(JVal, JVal)>,
    Seq<char>,
>
    decreases props.len(),
{
    if props.len() == 0 {
        Ok(Seq::empty())
    } else {
        match decode_entry(class, props[0]) {
            Ok(p) => match decode_props(class, props.drop_first()) {
                Ok(rest) => Ok(seq![p] + rest),
                Err(e) => Err(e),
            },
            Err(e) => Err(e),
        }
    }
}

/// Decode every member into a key-value entry, in member order, aborting on
/// the first name that fails to decode.
#[verifier::loop_isolation(false)]
pub(crate) fn decode_entries(props: &Vec<(Vec<char>, Json)>, class: KeyClass) -> (r: Result<
    Vec<(Json, Json)>,
    DecodeError,
>)
    ensures
        match decode_props(class, jprops_of(props@)) {
            Ok(pairs) => (r matches Ok(v) && jpairs_of(v@) == pairs),
            Err(name) => (r matches Err(e) && e matches DecodeError::KeyDecodeFailure(n) && n@
                == name),
        },
{
    broadcast use lemma_jpairs_of_index, lemma_jprops_of_index;

    let ghost pv = jprops_of(props@);
    let mut out: Vec<(Json, Json)> = Vec::new();
    assert(jpairs_of(out@) =~= Seq::<(JVal, JVal)>::empty());
    let mut k: usize = 0;
    assert(pv.skip(0) =~= pv);
    while k < props.len()
        invariant
            k <= props.len(),
            (match decode_props(class, pv.skip(k as int)) {
                Ok(rest) => decode_props(class, pv) == Ok::<Seq<(JVal, JVal)>, Seq<char>>(
                    jpairs_of(out@) + rest,
                ),
                Err(e) => decode_props(class, pv) == Err::<Seq<(JVal, JVal)>, Seq<char>>(e),
            }),
        decreases props.len() - k,
    {
        proof {
            assert(pv.skip(k as int)[0] == pv[k as int]);
            assert(pv.skip(k as int).drop_first() =~= pv.skip(k as int + 1));
        }
        match decode_key(class, &props[k].0) {
            Ok(key) => {
                let ghost old_out = out@;
                out.push((key, props[k].1.duplicate()));
                proof {
                    assert(out@.drop_last() =~= old_out);
                    assert(jpairs_of(out@) =~= jpairs_of(old_out).push(
                        (key@, pv[k as int].1),
                    ));
                    match decode_props(class, pv.skip(k as int + 1)) {
                        Ok(rest) => {
                            assert(jpairs_of(old_out) + (seq![(key@, pv[k as int].1)] + rest)
                                =~= jpairs_of(out@) + rest);
                        },
                        Err(e) => {},
                    }
                }
                k = k + 1;
            },
            Err(e) => {
                assert(decoded_key(class, pv[k as int].0) is None);
                return Err(e);
            },
        }
    }
    proof {
        assert(pv.skip(props@.len() as int) =~= Seq::<(Seq<char>, JVal)>::empty());
        assert(jpairs_of(out@) + Seq::<(JVal, JVal)>::empty() =~= jpairs_of(out@));
    }
    Ok(out)
}

/// Fold decoded entries into a map, a later entry with the same key
/// overwriting the earlier one.
#[verifier::loop_isolation(false)]
pub(crate) fn pairs_to_map(pairs: Vec<(Json, Json)>) -> (m: JsonMap)
    ensures
        m.pairs() == fold_upsert(jpairs_of(pairs@)),
        m@ == map_of_pairs(jpairs_of(pairs@)),
{
    broadcast use lemma_jpairs_of_index;

    let ghost pw = jpairs_of(pairs@);
    let mut m = JsonMap::new();
    assert(fold_upsert(pw.take(0)) =~= Seq::<(JVal, JVal)>::empty()) by {
        assert(pw.take(0) =~= Seq::<(JVal, JVal)>::empty());
    }
    assert(map_of_pairs(pw.take(0)) =~= Map::<JVal, JVal>::empty()) by {
        assert(pw.take(0) =~= Seq::<(JVal, JVal)>::empty());
    }
    let mut k: usize = 0;
    while k < pairs.len()
        invariant
            k <= pairs.len(),
            m.pairs() == fold_upsert(pw.take(k as int)),
            m@ == map_of_pairs(pw.take(k as int)),
        decreases pairs.len() - k,
    {
        m.insert(pairs[k].0.duplicate(), pairs[k].1.duplicate());
        proof {
            assert(pw.take(k as int + 1).drop_last() =~= pw.take(k as int));
            assert(pw.take(k as int + 1).last() == pw[k as int]);
        }
        k = k + 1;
    }
    proof {
        assert(pw.take(pairs@.len() as int) =~= pw);
    }
    m
}

} // verus!
