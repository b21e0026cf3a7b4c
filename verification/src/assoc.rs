//! Association lists with unique `u64` keys, viewed as maps.
//!
//! The window manager keys viewports by native window identifier and the
//! proxy keys its cache by viewport key.  Both hold their entries in a
//! vector of pairs whose keys are pairwise distinct, and state their
//! contracts over [`map_of`], the finite map the vector denotes.

use vstd::prelude::*;

verus! {

/// Some entry of the list carries this key.
pub open spec fn has_key<V>(s: Seq<(u64, V)>, k: u64) -> bool {
    exists|i: int| 0 <= i < s.len() && (#[trigger] s[i]).0 == k
}

/// No key occurs twice.
pub open spec fn unique_keys<V>(s: Seq<(u64, V)>) -> bool {
    forall|i: int, j: int| 0 <= i < j < s.len() ==> (#[trigger] s[i]).0 != (#[trigger] s[j]).0
}

/// The map an association list denotes.  An earlier entry wins over a later
/// one with the same key; with [`unique_keys`] the case never arises.
pub open spec fn map_of<V>(s: Seq<(u64, V)>) -> Map<u64, V>
    decreases s.len(),
{
    if s.len() == 0 {
        Map::empty()
    } else {
        map_of(s.drop_first()).insert(s[0].0, s[0].1)
    }
}

/// A key is in the map exactly when some entry carries it.
pub proof fn lemma_map_of_dom<V>(s: Seq<(u64, V)>)
    ensures
        forall|k: u64| #[trigger] map_of(s).contains_key(k) <==> has_key(s, k),
    decreases s.len(),
{
    if s.len() == 0 {
        assert(forall|k: u64| !has_key(s, k));
    } else {
        lemma_map_of_dom(s.drop_first());
        assert forall|k: u64| #[trigger] map_of(s).contains_key(k) implies has_key(s, k) by {
            if k == s[0].0 {
                assert(s[0].0 == k);
            } else {
                assert(map_of(s.drop_first()).contains_key(k));
                let i = choose|i: int|
                    0 <= i < s.drop_first().len() && (#[trigger] s.drop_first()[i]).0 == k;
                assert(s.drop_first()[i] == s[i + 1]);
                assert(s[i + 1].0 == k);
            }
        }
        assert forall|k: u64| has_key(s, k) implies #[trigger] map_of(s).contains_key(k) by {
            let i = choose|i: int| 0 <= i < s.len() && (#[trigger] s[i]).0 == k;
            if i > 0 {
                assert(s.drop_first()[i - 1] == s[i]);
                assert(has_key(s.drop_first(), k));
                assert(map_of(s.drop_first()).contains_key(k));
            } else {
                assert(s[0].0 == k);
            }
        }
    }
}

/// With unique keys, the entry at any index gives the map's value at its key.
pub proof fn lemma_map_of_index<V>(s: Seq<(u64, V)>, i: int)
    requires
        unique_keys(s),
        0 <= i < s.len(),
    ensures
        map_of(s).contains_key(s[i].0),
        map_of(s)[s[i].0] == s[i].1,
    decreases s.len(),
{
    if i > 0 {
        lemma_unique_drop_first(s);
        lemma_map_of_index(s.drop_first(), i - 1);
        assert(s.drop_first()[i - 1] == s[i]);
        assert(s[0].0 != s[i].0);
    }
}

/// Pushing an entry with a fresh key inserts it into the map.
pub proof fn lemma_map_of_push<V>(s: Seq<(u64, V)>, k: u64, v: V)
    requires
        forall|i: int| 0 <= i < s.len() ==> (#[trigger] s[i]).0 != k,
    ensures
        map_of(s.push((k, v))) =~= map_of(s).insert(k, v),
    decreases s.len(),
{
    let t = s.push((k, v));
    assert(t.len() == s.len() + 1);
    if s.len() == 0 {
        assert(t[0] == (k, v));
        assert(t.drop_first() =~= Seq::<(u64, V)>::empty());
        assert(map_of(Seq::<(u64, V)>::empty()) =~= Map::<u64, V>::empty());
        assert(map_of(s) =~= Map::<u64, V>::empty());
    } else {
        assert(t.drop_first() =~= s.drop_first().push((k, v)));
        assert forall|i: int| 0 <= i < s.drop_first().len() implies (#[trigger] s.drop_first()[i]).0
            != k by {
            assert(s.drop_first()[i] == s[i + 1]);
        }
        lemma_map_of_push(s.drop_first(), k, v);
        assert(t[0] == s[0]);
        assert(s[0].0 != k);
    }
}

/// Removing the entry at an index removes its key from the map.
pub proof fn lemma_map_of_remove<V>(s: Seq<(u64, V)>, i: int)
    requires
        unique_keys(s),
        0 <= i < s.len(),
    ensures
        map_of(s.remove(i)) =~= map_of(s).remove(s[i].0),
        unique_keys(s.remove(i)),
    decreases s.len(),
{
    assert forall|p: int, q: int| 0 <= p < q < s.remove(i).len() implies (#[trigger] s.remove(
        i,
    )[p]).0 != (#[trigger] s.remove(i)[q]).0 by {
        let p0: int = if p < i { p } else { p + 1 };
        let q0: int = if q < i { q } else { q + 1 };
        assert(s.remove(i)[p] == s[p0]);
        assert(s.remove(i)[q] == s[q0]);
        assert(s[p0].0 != s[q0].0);
    }
    lemma_unique_drop_first(s);
    if i == 0 {
        assert(s.remove(0) =~= s.drop_first());
        lemma_map_of_no_key(s.drop_first(), s[0].0);
    } else {
        assert(s.remove(i).drop_first() =~= s.drop_first().remove(i - 1));
        assert(s.drop_first()[i - 1] == s[i]);
        lemma_map_of_remove(s.drop_first(), i - 1);
        assert(s.remove(i)[0] == s[0]);
        assert(s[0].0 != s[i].0);
    }
}

/// Replacing the value at an index, keeping its key, updates the map.
pub proof fn lemma_map_of_set<V>(s: Seq<(u64, V)>, i: int, v: V)
    requires
        unique_keys(s),
        0 <= i < s.len(),
    ensures
        map_of(s.update(i, (s[i].0, v))) =~= map_of(s).insert(s[i].0, v),
        unique_keys(s.update(i, (s[i].0, v))),
    decreases s.len(),
{
    let t = s.update(i, (s[i].0, v));
    assert forall|p: int, q: int| 0 <= p < q < t.len() implies (#[trigger] t[p]).0 != (
    #[trigger] t[q]).0 by {
        assert(s[p].0 != s[q].0);
        assert(t[p].0 == s[p].0);
        assert(t[q].0 == s[q].0);
    }
    lemma_unique_drop_first(s);
    if i == 0 {
        assert(t.drop_first() =~= s.drop_first());
    } else {
        assert(t.drop_first() =~= s.drop_first().update(i - 1, (s[i].0, v)));
        assert(s.drop_first()[i - 1] == s[i]);
        lemma_map_of_set(s.drop_first(), i - 1, v);
        assert(t[0] == s[0]);
        assert(s[0].0 != s[i].0);
    }
}

/// A key no entry carries is absent from the map.
pub proof fn lemma_map_of_no_key<V>(s: Seq<(u64, V)>, k: u64)
    requires
        forall|i: int| 0 <= i < s.len() ==> (#[trigger] s[i]).0 != k,
    ensures
        !map_of(s).contains_key(k),
        map_of(s).remove(k) =~= map_of(s),
    decreases s.len(),
{
    if s.len() > 0 {
        assert forall|i: int| 0 <= i < s.drop_first().len() implies (#[trigger] s.drop_first()[i]).0
            != k by {
            assert(s.drop_first()[i] == s[i + 1]);
        }
        lemma_map_of_no_key(s.drop_first(), k);
        assert(s[0].0 != k);
    }
}

/// Index of an entry carrying the key, if any entry does.
pub fn index_of<V>(v: &Vec<(u64, V)>, key: u64) -> (r: Option<usize>)
    ensures
        match r {
            Some(i) => i < v@.len() && v@[i as int].0 == key,
            None => !has_key(v@, key),
        },
{
    let n: usize = v.len();
    let mut i: usize = 0;
    while i < n
        invariant
            i <= n,
            n == v@.len(),
            forall|j: int| 0 <= j < i ==> (#[trigger] v@[j]).0 != key,
        decreases n - i,
    {
        if v[i].0 == key {
            return Some(i);
        }
        i = i + 1;
    }
    None
}

/// Uniqueness survives dropping the first entry, and the first key is
/// fresh for the remainder.
pub proof fn lemma_unique_drop_first<V>(s: Seq<(u64, V)>)
    requires
        unique_keys(s),
        s.len() > 0,
    ensures
        unique_keys(s.drop_first()),
        forall|i: int| 0 <= i < s.drop_first().len() ==> (#[trigger] s.drop_first()[i]).0 != s[0].0,
{
    assert forall|p: int, q: int| 0 <= p < q < s.drop_first().len() implies (#[trigger] s
        .drop_first()[p]).0 != (#[trigger] s.drop_first()[q]).0 by {
        assert(s.drop_first()[p] == s[p + 1]);
        assert(s.drop_first()[q] == s[q + 1]);
        assert(s[p + 1].0 != s[q + 1].0);
    }
    assert forall|i: int| 0 <= i < s.drop_first().len() implies (#[trigger] s.drop_first()[i]).0 != s[0].0 by {
        assert(s.drop_first()[i] == s[i + 1]);
        assert(s[i + 1].0 != s[0].0);
    }
}

} // verus!
