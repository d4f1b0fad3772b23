//! Laws relating the map's operations, stated over the views that the
//! operations' own contracts use.

use crate::keys::HashProvider;
use crate::keys::MapKey;
use crate::map::HashTrieMap;
use crate::map::distinct_pair_keys;
use crate::map::map_of_pairs;
use vstd::prelude::*;

verus! {

broadcast use vstd::set::group_set_axioms, vstd::seq_lib::group_to_multiset_ensures,
    vstd::multiset::group_multiset_axioms;

/// Law: after producing `m2` by inserting a binding into `m`, looking the
/// key up in `m2` yields exactly the inserted value, whatever the key and
/// value.
pub proof fn lemma_get_after_insert<K: MapKey, V, H: HashProvider<K>>(
    m: HashTrieMap<K, V, H>,
    m2: HashTrieMap<K, V, H>,
    key: K,
    value: V,
)
    requires
        m2@ == m@.insert(key@, value),
    ensures
        m2@.contains_key(key@),
        m2@[key@] == value,
{
}

/// Law: inserting a fresh key grows the map by one binding, and
/// re-inserting a present key leaves the number of bindings unchanged.
pub proof fn lemma_insert_size<K: MapKey, V, H: HashProvider<K>>(
    m: HashTrieMap<K, V, H>,
    key: K,
    value: V,
)
    requires
        m.well_formed(),
    ensures
        !m@.contains_key(key@) ==> m@.insert(key@, value).len() == m@.len() + 1,
        m@.contains_key(key@) ==> m@.insert(key@, value).len() == m@.len(),
{
    m.lemma_entries_complete();
    assert(m@.insert(key@, value).dom() =~= m@.dom().insert(key@));
}

/// Law: removing a present key shrinks the map by one binding; removing
/// an absent key leaves the map exactly as it was.
pub proof fn lemma_remove_size<K: MapKey, V, H: HashProvider<K>>(m: HashTrieMap<K, V, H>, key: K)
    requires
        m.well_formed(),
    ensures
        m@.contains_key(key@) ==> m@.remove(key@).len() == m@.len() - 1,
        !m@.contains_key(key@) ==> m@.remove(key@) == m@,
{
    m.lemma_entries_complete();
    if m@.contains_key(key@) {
        assert(m@.remove(key@).dom() =~= m@.dom().remove(key@));
    } else {
        assert(m@.remove(key@) =~= m@);
    }
}

/// The map a pair sequence denotes, pointwise: a key is bound exactly
/// when some pair carries it, and with pairwise-distinct keys the bound
/// value is that pair's value.
proof fn lemma_map_of_pairs_at<K: MapKey, V>(s: Seq<(K, V)>, kv: K::V)
    ensures
        map_of_pairs(s).contains_key(kv) <==> (exists|i: int|
            0 <= i < s.len() && (#[trigger] s[i]).0@ == kv),
        distinct_pair_keys(s) ==> forall|i: int|
            0 <= i < s.len() && (#[trigger] s[i]).0@ == kv ==> map_of_pairs(s)[kv] == s[i].1,
    decreases s.len(),
{
    if s.len() == 0 {
        assert(map_of_pairs(s) =~= Map::<K::V, V>::empty());
    } else {
        let t = s.drop_last();
        lemma_map_of_pairs_at(t, kv);
        assert(forall|i: int| 0 <= i < t.len() ==> (#[trigger] t[i]) == s[i]);
        assert(map_of_pairs(s) == map_of_pairs(t).insert(s.last().0@, s.last().1));
        if map_of_pairs(s).contains_key(kv) {
            if kv == s.last().0@ {
                assert(s[s.len() - 1].0@ == kv);
            } else {
                assert(map_of_pairs(t).contains_key(kv));
                let i = choose|i: int| 0 <= i < t.len() && (#[trigger] t[i]).0@ == kv;
                assert(s[i].0@ == kv);
            }
        }
        if exists|i: int| 0 <= i < s.len() && (#[trigger] s[i]).0@ == kv {
            let i = choose|i: int| 0 <= i < s.len() && (#[trigger] s[i]).0@ == kv;
            if i < s.len() - 1 {
                assert(t[i].0@ == kv);
                assert(map_of_pairs(t).contains_key(kv));
            } else {
                assert(kv == s.last().0@);
            }
            assert(map_of_pairs(s).contains_key(kv));
        }
        if distinct_pair_keys(s) {
            assert(distinct_pair_keys(t));
            assert forall|i: int| 0 <= i < s.len() && (#[trigger] s[i]).0@ == kv implies
                map_of_pairs(s)[kv] == s[i].1 by {
                if i < s.len() - 1 {
                    assert(s[i].0@ != s.last().0@);
                    assert(t[i] == s[i]);
                }
            }
        }
    }
}

/// A permutation of a pair sequence with pairwise-distinct keys has
/// pairwise-distinct keys itself.
proof fn lemma_permutation_distinct_keys<K: MapKey, V>(s: Seq<(K, V)>, s2: Seq<(K, V)>)
    requires
        distinct_pair_keys(s),
        s2.to_multiset() == s.to_multiset(),
    ensures
        distinct_pair_keys(s2),
{
    assert(s.no_duplicates()) by {
        assert forall|i: int, j: int|
            0 <= i < s.len() && 0 <= j < s.len() && i != j implies s[i] != s[j] by {
            if i < j {
                assert(s[i].0@ != s[j].0@);
            } else {
                assert(s[j].0@ != s[i].0@);
            }
        }
    }
    s.lemma_multiset_has_no_duplicates();
    assert forall|i: int, j: int| 0 <= i < j < s2.len() implies (#[trigger] s2[i]).0@ != (
    #[trigger] s2[j]).0@ by {
        if s2[i].0@ == s2[j].0@ {
            if s2[i] == s2[j] {
                // the same pair would sit twice in the permutation, so
                // twice in the original, where keys are distinct
                let front = s2.subrange(0, j);
                let back = s2.subrange(j, s2.len() as int);
                assert(s2 =~= front + back);
                vstd::seq_lib::lemma_multiset_commutative(front, back);
                assert(front[i] == s2[i]);
                assert(front.contains(s2[i]));
                assert(back[0] == s2[j]);
                assert(back.contains(s2[j]));
                assert(front.to_multiset().count(s2[i]) > 0);
                assert(back.to_multiset().count(s2[i]) > 0);
                assert(s2.to_multiset().count(s2[i]) == front.to_multiset().count(s2[i])
                    + back.to_multiset().count(s2[i]));
                assert(s.to_multiset().count(s2[i]) >= 2);
                assert(s.to_multiset().contains(s2[i]));
            } else {
                // two different pairs with one key view would both come
                // from the original, at two positions sharing a key view
                assert(s2.contains(s2[i]));
                assert(s2.contains(s2[j]));
                assert(s2.to_multiset().count(s2[i]) > 0);
                assert(s2.to_multiset().count(s2[j]) > 0);
                assert(s.contains(s2[i]));
                assert(s.contains(s2[j]));
                let a = choose|a: int| 0 <= a < s.len() && s[a] == s2[i];
                let b = choose|b: int| 0 <= b < s.len() && s[b] == s2[j];
                assert(a != b);
                if a < b {
                    assert(s[a].0@ != s[b].0@);
                } else {
                    assert(s[b].0@ != s[a].0@);
                }
            }
        }
    }
}

/// Law: pair sequences that are permutations of one another, with
/// pairwise-distinct keys, denote the same map; so maps built by
/// inserting the same bindings in different orders are equal.
pub proof fn lemma_map_of_pairs_permutation<K: MapKey, V>(s: Seq<(K, V)>, s2: Seq<(K, V)>)
    requires
        distinct_pair_keys(s),
        s2.to_multiset() == s.to_multiset(),
    ensures
        map_of_pairs(s2) == map_of_pairs(s),
{
    lemma_permutation_distinct_keys(s, s2);
    assert(map_of_pairs(s2) =~= map_of_pairs(s)) by {
        assert forall|kv: K::V|
            map_of_pairs::<K, V>(s2).dom().contains(kv) == map_of_pairs::<K, V>(
                s,
            ).dom().contains(kv) by {
            lemma_map_of_pairs_at(s, kv);
            lemma_map_of_pairs_at(s2, kv);
            if map_of_pairs::<K, V>(s).contains_key(kv) {
                let i = choose|i: int| 0 <= i < s.len() && (#[trigger] s[i]).0@ == kv;
                assert(s.contains(s[i]));
                assert(s.to_multiset().count(s[i]) > 0);
                assert(s2.contains(s[i]));
                let j = choose|j: int| 0 <= j < s2.len() && s2[j] == s[i];
                assert(s2[j].0@ == kv);
            }
            if map_of_pairs::<K, V>(s2).contains_key(kv) {
                let j = choose|j: int| 0 <= j < s2.len() && (#[trigger] s2[j]).0@ == kv;
                assert(s2.contains(s2[j]));
                assert(s2.to_multiset().count(s2[j]) > 0);
                assert(s.contains(s2[j]));
                let i = choose|i: int| 0 <= i < s.len() && s[i] == s2[j];
                assert(s[i].0@ == kv);
            }
        }
        assert forall|kv: K::V|
            map_of_pairs::<K, V>(s2).dom().contains(kv) implies map_of_pairs::<K, V>(s2)[kv]
            == map_of_pairs::<K, V>(s)[kv] by {
            lemma_map_of_pairs_at(s, kv);
            lemma_map_of_pairs_at(s2, kv);
            let j = choose|j: int| 0 <= j < s2.len() && (#[trigger] s2[j]).0@ == kv;
            assert(s2.contains(s2[j]));
            assert(s2.to_multiset().count(s2[j]) > 0);
            assert(s.contains(s2[j]));
            let i = choose|i: int| 0 <= i < s.len() && s[i] == s2[j];
            assert(s[i].0@ == kv);
            assert(map_of_pairs(s2)[kv] == s2[j].1);
            assert(map_of_pairs(s)[kv] == s[i].1);
        }
    }
}

/// Law: changing the value of one pair to a different value changes the
/// denoted map, so maps built from the two sequences compare unequal.
pub proof fn lemma_map_of_pairs_value_change<K: MapKey, V>(s: Seq<(K, V)>, j: int, v2: V)
    requires
        distinct_pair_keys(s),
        0 <= j < s.len(),
        v2 != s[j].1,
    ensures
        map_of_pairs(s.update(j, (s[j].0, v2))) != map_of_pairs(s),
{
    let s2 = s.update(j, (s[j].0, v2));
    assert(distinct_pair_keys(s2)) by {
        assert(forall|i: int| 0 <= i < s.len() ==> (#[trigger] s2[i]).0@ == s[i].0@);
    }
    lemma_map_of_pairs_at(s, s[j].0@);
    lemma_map_of_pairs_at(s2, s[j].0@);
    assert(s2[j].0@ == s[j].0@);
    assert(map_of_pairs(s)[s[j].0@] == s[j].1);
    assert(map_of_pairs(s2)[s[j].0@] == v2);
}

/// Law: maps built from the same bindings in different orders are equal.
/// With `equals`'s contract this is what the executable comparison
/// returns true on.
pub proof fn lemma_equal_from_permuted_pairs<K: MapKey, V, H: HashProvider<K>, H2: HashProvider<
    K,
>>(m: HashTrieMap<K, V, H>, m2: HashTrieMap<K, V, H2>, s: Seq<(K, V)>, s2: Seq<(K, V)>)
    requires
        m@ == map_of_pairs(s),
        m2@ == map_of_pairs(s2),
        distinct_pair_keys(s),
        s2.to_multiset() == s.to_multiset(),
    ensures
        m@ == m2@,
{
    lemma_map_of_pairs_permutation(s, s2);
}

/// Law: changing any one value before building makes the two maps
/// unequal, so the executable comparison returns false on them.
pub proof fn lemma_unequal_from_changed_value<K: MapKey, V, H: HashProvider<K>, H2: HashProvider<
    K,
>>(m: HashTrieMap<K, V, H>, m2: HashTrieMap<K, V, H2>, s: Seq<(K, V)>, j: int, v2: V)
    requires
        m@ == map_of_pairs(s),
        m2@ == map_of_pairs(s.update(j, (s[j].0, v2))),
        distinct_pair_keys(s),
        0 <= j < s.len(),
        v2 != s[j].1,
    ensures
        m@ != m2@,
{
    lemma_map_of_pairs_value_change(s, j, v2);
}

} // verus!
