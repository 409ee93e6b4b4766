//! An unordered map from JSON key values to JSON values, kept as a vector of
//! entries with pairwise-distinct keys. Inserting an existing key replaces
//! its value in place; the model is a mathematical map.
use vstd::prelude::*;
use crate::json::{JVal, Json, jpairs_of, lemma_jpairs_of_index};

verus! {

/// Whether the keys of an entry sequence are pairwise distinct.
pub open spec fn distinct_keys(pairs: Seq<(JVal, JVal)>) -> bool {
    forall|i: int, j: int|
        0 <= i < j < pairs.len() ==> (#[trigger] pairs[i]).0 != (#[trigger] pairs[j]).0
}

/// The mathematical map an entry sequence stands for; a later entry with the
/// same key wins.
pub open spec fn map_of_pairs(pairs: Seq<(JVal, JVal)>) -> Map<JVal, JVal>
    decreases pairs.len(),
{
    if pairs.len() == 0 {
        Map::empty()
    } else {
        map_of_pairs(pairs.drop_last()).insert(pairs.last().0, pairs.last().1)
    }
}

/// One insertion into an entry sequence: replace the value in place if the
/// key is present, append otherwise.
pub open spec fn upsert_pairs(pairs: Seq<(JVal, JVal)>, k: JVal, v: JVal) -> Seq<(JVal, JVal)> {
    if exists|i: int| 0 <= i < pairs.len() && (#[trigger] pairs[i]).0 == k {
        let i = choose|i: int| 0 <= i < pairs.len() && (#[trigger] pairs[i]).0 == k;
        pairs.update(i, (k, v))
    } else {
        pairs.push((k, v))
    }
}

/// Folding a whole entry sequence into a map entry by entry, later entries
/// winning.
pub open spec fn fold_upsert(pairs: Seq<(JVal, JVal)>) -> Seq<(JVal, JVal)>
    decreases pairs.len(),
{
    if pairs.len() == 0 {
        Seq::empty()
    } else {
        upsert_pairs(fold_upsert(pairs.drop_last()), pairs.last().0, pairs.last().1)
    }
}

/// Inserting distinct-keyed entries in place agrees with the map model.
pub proof fn lemma_upsert_map(pairs: Seq<(JVal, JVal)>, k: JVal, v: JVal)
    requires
        distinct_keys(pairs),
    ensures
        distinct_keys(upsert_pairs(pairs, k, v)),
        map_of_pairs(upsert_pairs(pairs, k, v)) == map_of_pairs(pairs).insert(k, v),
    decreases pairs.len(),
{
    if exists|i: int| 0 <= i < pairs.len() && (#[trigger] pairs[i]).0 == k {
        let i = choose|i: int| 0 <= i < pairs.len() && (#[trigger] pairs[i]).0 == k;
        let up = pairs.update(i, (k, v));
        assert(forall|m: int| 0 <= m < up.len() && m != i ==> up[m] == pairs[m]);
        assert(distinct_keys(up));
        if i == pairs.len() - 1 {
            assert(up.drop_last() =~= pairs.drop_last());
            assert(up.last() == (k, v));
            assert(pairs.last().0 == k);
            assert(map_of_pairs(up) == map_of_pairs(pairs.drop_last()).insert(k, v));
            assert(map_of_pairs(pairs.drop_last()).insert(k, v) =~= map_of_pairs(
                pairs.drop_last(),
            ).insert(pairs.last().0, pairs.last().1).insert(k, v));
        } else {
            let pd = pairs.drop_last();
            assert(pd[i].0 == k);
            assert(distinct_keys(pd));
            assert(exists|m: int| 0 <= m < pd.len() && (#[trigger] pd[m]).0 == k);
            let i2 = choose|m: int| 0 <= m < pd.len() && (#[trigger] pd[m]).0 == k;
            assert(i2 == i);
            lemma_upsert_map(pd, k, v);
            assert(up.drop_last() =~= pd.update(i, (k, v)));
            assert(up.drop_last() =~= upsert_pairs(pd, k, v));
            assert(up.last() == pairs.last());
            assert(map_of_pairs(up) == map_of_pairs(pd).insert(k, v).insert(
                pairs.last().0,
                pairs.last().1,
            ));
            assert(pairs.last().0 != k);
            assert(map_of_pairs(pd).insert(k, v).insert(pairs.last().0, pairs.last().1)
                =~= map_of_pairs(pd).insert(pairs.last().0, pairs.last().1).insert(k, v));
        }
    } else {
        let up = pairs.push((k, v));
        assert(forall|m: int| 0 <= m < pairs.len() ==> #[trigger] up[m] == pairs[m]);
        assert(forall|m: int| 0 <= m < pairs.len() ==> (#[trigger] pairs[m]).0 != k);
        assert(distinct_keys(up));
        assert(up.drop_last() =~= pairs);
        assert(map_of_pairs(up) == map_of_pairs(pairs).insert(k, v));
    }
}

/// Every entry of a distinct-keyed sequence is in its map, with its value.
pub proof fn lemma_map_of_pairs_index(pairs: Seq<(JVal, JVal)>, i: int)
    requires
        distinct_keys(pairs),
        0 <= i < pairs.len(),
    ensures
        map_of_pairs(pairs).contains_key(pairs[i].0),
        map_of_pairs(pairs)[pairs[i].0] == pairs[i].1,
    decreases pairs.len(),
{
    if i == pairs.len() - 1 {
        assert(pairs[i] == pairs.last());
    } else {
        assert(distinct_keys(pairs.drop_last()));
        assert(pairs.drop_last()[i] == pairs[i]);
        lemma_map_of_pairs_index(pairs.drop_last(), i);
        assert(pairs.last().0 != pairs[i].0);
    }
}

/// A key that no entry holds is not in the map.
pub proof fn lemma_map_of_pairs_absent(pairs: Seq<(JVal, JVal)>, k: JVal)
    requires
        forall|i: int| 0 <= i < pairs.len() ==> (#[trigger] pairs[i]).0 != k,
    ensures
        !map_of_pairs(pairs).contains_key(k),
    decreases pairs.len(),
{
    if pairs.len() > 0 {
        assert(forall|i: int|
            0 <= i < pairs.drop_last().len() ==> #[trigger] pairs.drop_last()[i] == pairs[i]);
        lemma_map_of_pairs_absent(pairs.drop_last(), k);
        assert(pairs.last().0 != k);
    }
}

/// An unordered map of JSON values keyed by JSON values.
pub struct JsonMap {
    entries: Vec<(Json, Json)>,
}

impl View for JsonMap {
    type V = Map<JVal, JVal>;

    open spec fn view(&self) -> Map<JVal, JVal> {
        map_of_pairs(self.pairs())
    }
}

impl JsonMap {
    /// The entries of the map, as models, in insertion order.
    pub closed spec fn pairs(&self) -> Seq<(JVal, JVal)> {
        jpairs_of(self.entries@)
    }

    #[verifier::type_invariant]
    spec fn inv(&self) -> bool {
        distinct_keys(self.pairs())
    }

    /// An empty map.
    pub fn new() -> (r: JsonMap)
        ensures
            r.pairs() == Seq::<(JVal, JVal)>::empty(),
    {
        broadcast use lemma_jpairs_of_index;

        let r = JsonMap { entries: Vec::new() };
        proof {
            assert(r.pairs() =~= Seq::<(JVal, JVal)>::empty());
        }
        r
    }

    /// How many entries the map holds.
    pub fn len(&self) -> (r: usize)
        ensures
            r == self.pairs().len(),
    {
        broadcast use lemma_jpairs_of_index;

        self.entries.len()
    }

    /// The entries of the map, in insertion order.
    pub fn as_pairs(&self) -> (r: &Vec<(Json, Json)>)
        ensures
            jpairs_of(r@) == self.pairs(),
            distinct_keys(self.pairs()),
    {
        proof {
            use_type_invariant(self);
        }
        &self.entries
    }

    /// Insert an entry; an existing key keeps its position and takes the new
    /// value.
    #[verifier::loop_isolation(false)]
    pub fn insert(&mut self, k: Json, v: Json)
        ensures
            final(self).pairs() == upsert_pairs(old(self).pairs(), k@, v@),
            final(self)@ == old(self)@.insert(k@, v@),
    {
        broadcast use lemma_jpairs_of_index;

        proof {
            use_type_invariant(&*self);
            lemma_upsert_map(self.pairs(), k@, v@);
        }
        let ghost ps = self.pairs();
        let mut es: Vec<(Json, Json)> = Vec::new();
        core::mem::swap(&mut es, &mut self.entries);
        assert(jpairs_of(self.entries@) =~= Seq::<(JVal, JVal)>::empty());
        let mut i: usize = 0;
        let mut found = false;
        while i < es.len() && !found
            invariant
                i <= es.len(),
                !found ==> jpairs_of(es@) == ps,
                !found ==> forall|m: int| 0 <= m < i ==> (#[trigger] ps[m]).0 != k@,
                found ==> jpairs_of(es@) == upsert_pairs(ps, k@, v@),
            decreases (if found {
                0int
            } else {
                1int
            }), es.len() - i,
        {
            if es[i].0.deep_eq(&k) {
                let ghost iv = i as int;
                let kd = k.duplicate();
                let vd = v.duplicate();
                es.set(i, (kd, vd));
                found = true;
                proof {
                    assert(jpairs_of(es@) =~= ps.update(iv, (k@, v@)));
                    assert(ps[iv].0 == k@);
                    let ci = choose|m: int| 0 <= m < ps.len() && (#[trigger] ps[m]).0 == k@;
                    assert(ci == iv);
                }
            } else {
                i = i + 1;
            }
        }
        if !found {
            proof {
                assert(forall|m: int| 0 <= m < ps.len() ==> (#[trigger] ps[m]).0 != k@);
            }
            let ghost old_es = es@;
            es.push((k, v));
            proof {
                assert(es@.drop_last() =~= old_es);
                assert(jpairs_of(es@) =~= ps.push((k@, v@)));
            }
        }
        core::mem::swap(&mut es, &mut self.entries);
    }

    /// The value stored under a key, if the key is in the map.
    #[verifier::loop_isolation(false)]
    pub fn get(&self, k: &Json) -> (r: Option<&Json>)
        ensures
            match r {
                Some(v) => self@.contains_key(k@) && v@ == self@[k@],
                None => !self@.contains_key(k@),
            },
    {
        broadcast use lemma_jpairs_of_index;

        proof {
            use_type_invariant(self);
        }
        let ghost ps = self.pairs();
        let mut i: usize = 0;
        while i < self.entries.len()
            invariant
                i <= self.entries.len(),
                forall|m: int| 0 <= m < i ==> (#[trigger] ps[m]).0 != k@,
            decreases self.entries.len() - i,
        {
            if self.entries[i].0.deep_eq(k) {
                proof {
                    lemma_map_of_pairs_index(ps, i as int);
                }
                return Some(&self.entries[i].1);
            }
            i = i + 1;
        }
        proof {
            lemma_map_of_pairs_absent(ps, k@);
        }
        None
    }

    /// Whether this map and another hold the same entries in the same order.
    #[verifier::loop_isolation(false)]
    pub fn eq_pairs(&self, other: &JsonMap) -> (r: bool)
        ensures
            r == (self.pairs() == other.pairs()),
    {
        broadcast use lemma_jpairs_of_index;

        if self.entries.len() != other.entries.len() {
            return false;
        }
        let mut i: usize = 0;
        while i < self.entries.len()
            invariant
                i <= self.entries.len(),
                self.entries@.len() == other.entries@.len(),
                forall|m: int|
                    0 <= m < i ==> self.pairs()[m] == #[trigger] other.pairs()[m],
            decreases self.entries.len() - i,
        {
            if !self.entries[i].0.deep_eq(&other.entries[i].0) {
                assert(self.pairs()[i as int].0 != other.pairs()[i as int].0);
                return false;
            }
            if !self.entries[i].1.deep_eq(&other.entries[i].1) {
                assert(self.pairs()[i as int].1 != other.pairs()[i as int].1);
                return false;
            }
            i = i + 1;
        }
        proof {
            assert(self.pairs() =~= other.pairs());
        }
        true
    }
}

} // verus!
