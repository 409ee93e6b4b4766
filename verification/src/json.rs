//! The JSON value model: an executable tree of JSON values and its
//! mathematical counterpart used in specifications.
use vstd::prelude::*;

verus! {

/// An executable JSON value. Numbers are signed 64-bit integers, so decoding
/// rejects numbers outside that range (including unsigned values above the
/// signed maximum); text is held as a vector of characters.
pub enum Json {
    Null,
    Bool(bool),
    Int(i64),
    Str(Vec<char>),
    Arr(Vec<Json>),
    Obj(Vec<(Vec<char>, Json)>),
}

/// The mathematical model of a JSON value: the same tree with sequences in
/// place of vectors.
pub enum JVal {
    Null,
    Bool(bool),
    Int(i64),
    Str(Seq<char>),
    Arr(Seq<JVal>),
    Obj(Seq<(Seq<char>, JVal)>),
}

/// The model of an executable JSON value.
pub open spec fn jval_of(j: Json) -> JVal
    decreases j,
{
    match j {
        Json::Null => JVal::Null,
        Json::Bool(b) => JVal::Bool(b),
        Json::Int(n) => JVal::Int(n),
        Json::Str(s) => JVal::Str(s@),
        Json::Arr(es) => JVal::Arr(jvals_of(es@)),
        Json::Obj(ps) => JVal::Obj(jprops_of(ps@)),
    }
}

/// The models of a sequence of executable JSON values.
pub open spec fn jvals_of(s: Seq<Json>) -> Seq<JVal>
    decreases s,
{
    if s.len() == 0 {
        Seq::empty()
    } else {
        jvals_of(s.drop_last()).push(jval_of(s.last()))
    }
}

/// The models of a sequence of executable JSON object members.
pub open spec fn jprops_of(s: Seq<(Vec<char>, Json)>) -> Seq<(Seq<char>, JVal)>
    decreases s,
{
    if s.len() == 0 {
        Seq::empty()
    } else {
        jprops_of(s.drop_last()).push((s.last().0@, jval_of(s.last().1)))
    }
}

impl View for Json {
    type V = JVal;

    open spec fn view(&self) -> JVal {
        jval_of(*self)
    }
}

pub broadcast proof fn lemma_jvals_of_index(s: Seq<Json>)
    ensures
        (#[trigger] jvals_of(s)).len() == s.len(),
        forall|i: int| 0 <= i < s.len() ==> jvals_of(s)[i] == jval_of(s[i]),
    decreases s.len(),
{
    if s.len() > 0 {
        lemma_jvals_of_index(s.drop_last());
    }
}

/// The models of a sequence of executable key-value pairs.
pub open spec fn jpairs_of(s: Seq<(Json, Json)>) -> Seq<(JVal, JVal)>
    decreases s,
{
    if s.len() == 0 {
        Seq::empty()
    } else {
        jpairs_of(s.drop_last()).push((jval_of(s.last().0), jval_of(s.last().1)))
    }
}

pub broadcast proof fn lemma_jpairs_of_index(s: Seq<(Json, Json)>)
    ensures
        (#[trigger] jpairs_of(s)).len() == s.len(),
        forall|i: int|
            0 <= i < s.len() ==> jpairs_of(s)[i] == (jval_of(s[i].0), jval_of(s[i].1)),
    decreases s.len(),
{
    if s.len() > 0 {
        lemma_jpairs_of_index(s.drop_last());
    }
}

pub broadcast proof fn lemma_jprops_of_index(s: Seq<(Vec<char>, Json)>)
    ensures
        (#[trigger] jprops_of(s)).len() == s.len(),
        forall|i: int|
            0 <= i < s.len() ==> jprops_of(s)[i] == (s[i].0@, jval_of(s[i].1)),
    decreases s.len(),
{
    if s.len() > 0 {
        lemma_jprops_of_index(s.drop_last());
    }
}

fn chars_eq(a: &Vec<char>, b: &Vec<char>) -> (r: bool)
    ensures
        r == (a@ == b@),
{
    if a.len() != b.len() {
        return false;
    }
    let mut k: usize = 0;
    while k < a.len()
        invariant
            k <= a.len(),
            a@.len() == b@.len(),
            forall|m: int| 0 <= m < k ==> a@[m] == b@[m],
        decreases a.len() - k,
    {
        if a[k] != b[k] {
            return false;
        }
        k = k + 1;
    }
    proof {
        assert(a@ =~= b@);
    }
    true
}

impl Json {
    /// Whether two JSON values model the same value.
    #[verifier::loop_isolation(false)]
    pub fn deep_eq(&self, other: &Json) -> (r: bool)
        ensures
            r == (self@ == other@),
        decreases *self,
    {
        broadcast use lemma_jvals_of_index, lemma_jprops_of_index;

        match (self, other) {
            (Json::Null, Json::Null) => true,
            (Json::Bool(x), Json::Bool(y)) => x == y,
            (Json::Int(x), Json::Int(y)) => x == y,
            (Json::Str(x), Json::Str(y)) => chars_eq(x, y),
            (Json::Arr(x), Json::Arr(y)) => {
                if x.len() != y.len() {
                    assert(jvals_of(x@).len() != jvals_of(y@).len());
                    return false;
                }
                let mut k: usize = 0;
                while k < x.len()
                    invariant
                        k <= x.len(),
                        x@.len() == y@.len(),
                        forall|m: int|
                            0 <= m < k ==> jvals_of(x@)[m] == #[trigger] jvals_of(y@)[m],
                    decreases x.len() - k,
                {
                    if !x[k].deep_eq(&y[k]) {
                        assert(jvals_of(x@)[k as int] != jvals_of(y@)[k as int]);
                        return false;
                    }
                    k = k + 1;
                }
                proof {
                    assert(jvals_of(x@) =~= jvals_of(y@));
                }
                true
            },
            (Json::Obj(x), Json::Obj(y)) => {
                if x.len() != y.len() {
                    assert(jprops_of(x@).len() != jprops_of(y@).len());
                    return false;
                }
                let mut k: usize = 0;
                while k < x.len()
                    invariant
                        k <= x.len(),
                        x@.len() == y@.len(),
                        forall|m: int|
                            0 <= m < k ==> jprops_of(x@)[m] == #[trigger] jprops_of(y@)[m],
                    decreases x.len() - k,
                {
                    if !chars_eq(&x[k].0, &y[k].0) {
                        assert(jprops_of(x@)[k as int].0 != jprops_of(y@)[k as int].0);
                        return false;
                    }
                    if !x[k].1.deep_eq(&y[k].1) {
                        assert(jprops_of(x@)[k as int].1 != jprops_of(y@)[k as int].1);
                        return false;
                    }
                    k = k + 1;
                }
                proof {
                    assert(jprops_of(x@) =~= jprops_of(y@));
                }
                true
            },
            _ => {
                false
            },
        }
    }

    /// A copy of this JSON value with the same model.
    #[verifier::loop_isolation(false)]
    pub fn duplicate(&self) -> (r: Json)
        ensures
            r@ == self@,
        decreases *self,
    {
        broadcast use lemma_jvals_of_index, lemma_jprops_of_index;

        match self {
            Json::Null => Json::Null,
            Json::Bool(b) => Json::Bool(*b),
            Json::Int(n) => Json::Int(*n),
            Json::Str(s) => Json::Str(copy_chars(s)),
            Json::Arr(es) => {
                let mut out: Vec<Json> = Vec::new();
                let mut k: usize = 0;
                while k < es.len()
                    invariant
                        k <= es.len(),
                        out@.len() == k,
                        forall|m: int|
                            0 <= m < k ==> jvals_of(out@)[m] == #[trigger] jvals_of(es@)[m],
                    decreases es.len() - k,
                {
                    let ghost old_out = out@;
                    out.push(es[k].duplicate());
                    proof {
                        assert(out@.drop_last() =~= old_out);
                    }
                    k = k + 1;
                }
                proof {
                    assert(jvals_of(out@) =~= jvals_of(es@));
                }
                Json::Arr(out)
            },
            Json::Obj(ps) => {
                let mut out: Vec<(Vec<char>, Json)> = Vec::new();
                let mut k: usize = 0;
                while k < ps.len()
                    invariant
                        k <= ps.len(),
                        out@.len() == k,
                        forall|m: int|
                            0 <= m < k ==> jprops_of(out@)[m] == #[trigger] jprops_of(ps@)[m],
                    decreases ps.len() - k,
                {
                    let ghost old_out = out@;
                    out.push((copy_chars(&ps[k].0), ps[k].1.duplicate()));
                    proof {
                        assert(out@.drop_last() =~= old_out);
                    }
                    k = k + 1;
                }
                proof {
                    assert(jprops_of(out@) =~= jprops_of(ps@));
                }
                Json::Obj(out)
            },
        }
    }
}

/// A copy of a character vector with the same view.
pub fn copy_chars(v: &Vec<char>) -> (r: Vec<char>)
    ensures
        r@ == v@,
{
    let mut out: Vec<char> = Vec::new();
    let mut k: usize = 0;
    while k < v.len()
        invariant
            k <= v.len(),
            out@ =~= v@.take(k as int),
        decreases v.len() - k,
    {
        out.push(v[k]);
        proof {
            assert(v@.take(k as int + 1) =~= v@.take(k as int).push(v@[k as int]));
        }
        k = k + 1;
    }
    proof {
        assert(v@.take(v@.len() as int) =~= v@);
    }
    out
}

/// A JSON string value holding the characters of the given text.
pub fn json_string(s: &str) -> (r: Json)
    ensures
        r@ == JVal::Str(s@),
{
    Json::Str(crate::chars::chars_of(s))
}

} // verus!
