//! Association lists keyed by text, read as maps where the last entry for a
//! key wins.
use vstd::prelude::*;

verus! {

/// The map an association list stands for: entries are applied in order, so
/// a later entry for a key replaces an earlier one.
pub open spec fn assoc_map<V>(s: Seq<(Seq<char>, V)>) -> Map<Seq<char>, V>
    decreases s.len(),
{
    if s.len() == 0 {
        Map::empty()
    } else {
        assoc_map(s.drop_last()).insert(s.last().0, s.last().1)
    }
}

/// Entry `i` is the last one for its key.
pub open spec fn is_last_for_key<V>(s: Seq<(Seq<char>, V)>, i: int) -> bool {
    &&& 0 <= i < s.len()
    &&& forall|j: int| i < j < s.len() ==> (#[trigger] s[j]).0 != s[i].0
}

/// The last entry for a key gives the key's value.
pub proof fn lemma_assoc_last<V>(s: Seq<(Seq<char>, V)>, i: int)
    requires
        is_last_for_key(s, i),
    ensures
        assoc_map(s).contains_key(s[i].0),
        assoc_map(s)[s[i].0] == s[i].1,
    decreases s.len(),
{
    if i < s.len() - 1 {
        let p = s.drop_last();
        assert(s[s.len() - 1].0 != s[i].0);
        assert forall|j: int| i < j < p.len() implies (#[trigger] p[j]).0 != p[i].0 by {
            assert(p[j] == s[j]);
        }
        lemma_assoc_last(p, i);
    }
}

/// A key with no entry is not in the map.
pub proof fn lemma_assoc_absent<V>(s: Seq<(Seq<char>, V)>, k: Seq<char>)
    requires
        forall|j: int| 0 <= j < s.len() ==> (#[trigger] s[j]).0 != k,
    ensures
        !assoc_map(s).contains_key(k),
    decreases s.len(),
{
    if s.len() > 0 {
        let p = s.drop_last();
        assert forall|j: int| 0 <= j < p.len() implies (#[trigger] p[j]).0 != k by {
            assert(p[j] == s[j]);
        }
        lemma_assoc_absent(p, k);
    }
}

/// The map's keys are exactly the keys of the entries.
pub proof fn lemma_assoc_contains<V>(s: Seq<(Seq<char>, V)>, k: Seq<char>)
    ensures
        assoc_map(s).contains_key(k) <==> exists|j: int| 0 <= j < s.len() && (#[trigger] s[j]).0 == k,
    decreases s.len(),
{
    if s.len() > 0 {
        let p = s.drop_last();
        lemma_assoc_contains(p, k);
        if exists|j: int| 0 <= j < p.len() && (#[trigger] p[j]).0 == k {
            let j = choose|j: int| 0 <= j < p.len() && (#[trigger] p[j]).0 == k;
            assert(s[j] == p[j]);
        }
        if exists|j: int| 0 <= j < s.len() && (#[trigger] s[j]).0 == k {
            let j = choose|j: int| 0 <= j < s.len() && (#[trigger] s[j]).0 == k;
            if j < p.len() {
                assert(p[j] == s[j]);
            }
        }
    }
}

/// Replacing the value of the last entry for a key updates that key only.
pub proof fn lemma_assoc_update_last<V>(s: Seq<(Seq<char>, V)>, i: int, v: V)
    requires
        is_last_for_key(s, i),
    ensures
        assoc_map(s.update(i, (s[i].0, v))) == assoc_map(s).insert(s[i].0, v),
    decreases s.len(),
{
    let t = s.update(i, (s[i].0, v));
    let k = s[i].0;
    if i == s.len() - 1 {
        assert(t.drop_last() =~= s.drop_last());
        assert(assoc_map(t) =~= assoc_map(s).insert(k, v));
    } else {
        let p = s.drop_last();
        assert(t.drop_last() =~= p.update(i, (k, v)));
        assert(s[s.len() - 1].0 != k);
        assert forall|j: int| i < j < p.len() implies (#[trigger] p[j]).0 != p[i].0 by {
            assert(p[j] == s[j]);
        }
        lemma_assoc_update_last(p, i, v);
        assert(assoc_map(t) =~= assoc_map(s).insert(k, v));
    }
}

} // verus!
