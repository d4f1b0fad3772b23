use hash_trie_map::DefaultHashProvider;
use hash_trie_map::HashTrieMap;
use hash_trie_map::MaskHashProvider;

#[test]
fn insert_then_get_returns_value() {
    let mut m: HashTrieMap<u64, u64> = HashTrieMap::new();
    for k in 0..100u64 {
        m.insert_mut(k, k * 7);
    }
    for k in 0..100u64 {
        assert_eq!(m.get(&k), Some(&(k * 7)));
    }
    assert_eq!(m.get(&1000), None);
}

#[test]
fn size_counts_distinct_keys() {
    let mut m: HashTrieMap<u64, u64> = HashTrieMap::new();
    for k in 0..50u64 {
        m.insert_mut(k, k);
    }
    assert_eq!(m.size(), 50);
    m.insert_mut(10, 999);
    assert_eq!(m.size(), 50);
    assert_eq!(m.get(&10), Some(&999));
}

#[test]
fn remove_present_and_absent() {
    let mut m: HashTrieMap<u64, u64> = HashTrieMap::new();
    for k in 0..20u64 {
        m.insert_mut(k, k + 1);
    }
    assert!(m.remove_mut(&7));
    assert_eq!(m.size(), 19);
    assert_eq!(m.get(&7), None);
    assert!(!m.remove_mut(&7));
    assert_eq!(m.size(), 19);
    let m2 = m.remove(&100);
    assert_eq!(m2.size(), 19);
    let m3 = m.remove(&3);
    assert_eq!(m3.size(), 18);
    assert_eq!(m3.get(&3), None);
    assert_eq!(m.get(&3), Some(&4));
}

#[test]
fn persistence_of_prior_handles() {
    let mut a: HashTrieMap<u64, u64> = HashTrieMap::new();
    for k in 0..30u64 {
        a.insert_mut(k, k);
    }
    let mut b = a.clone();
    b.insert_mut(100, 100);
    b.insert_mut(5, 555);
    b.remove_mut(&9);
    assert_eq!(a.size(), 30);
    assert_eq!(a.get(&5), Some(&5));
    assert_eq!(a.get(&9), Some(&9));
    assert_eq!(a.get(&100), None);
    assert_eq!(b.size(), 30);
    assert_eq!(b.get(&5), Some(&555));
    assert_eq!(b.get(&9), None);

    let c = a.insert(200, 200);
    assert_eq!(a.get(&200), None);
    assert_eq!(a.size(), 30);
    assert_eq!(c.get(&200), Some(&200));
    assert_eq!(c.size(), 31);

    let mut a_keys: Vec<u64> = a.keys();
    a_keys.sort();
    assert_eq!(a_keys, (0..30u64).collect::<Vec<u64>>());
}

#[test]
fn colliding_keys_coexist_and_collapse() {
    let provider = MaskHashProvider { mask: 0 };
    let mut m: HashTrieMap<u64, u64, MaskHashProvider> =
        HashTrieMap::new_with_hasher_and_degree_and_ptr_kind(provider, 4);
    m.insert_mut(1, 10);
    m.insert_mut(2, 20);
    m.insert_mut(3, 30);
    assert_eq!(m.size(), 3);
    assert_eq!(m.get(&1), Some(&10));
    assert_eq!(m.get(&2), Some(&20));
    assert_eq!(m.get(&3), Some(&30));
    assert!(m.remove_mut(&2));
    assert_eq!(m.size(), 2);
    assert_eq!(m.get(&2), None);
    assert_eq!(m.get(&1), Some(&10));
    assert_eq!(m.get(&3), Some(&30));
    assert!(m.remove_mut(&3));
    assert_eq!(m.size(), 1);
    assert_eq!(m.get(&1), Some(&10));
    assert!(m.remove_mut(&1));
    assert_eq!(m.size(), 0);
    assert!(m.is_empty());
}

#[test]
fn partially_colliding_hashes() {
    let provider = MaskHashProvider { mask: 0b11 };
    let mut m: HashTrieMap<u64, u64, MaskHashProvider> =
        HashTrieMap::new_with_hasher_and_degree_and_ptr_kind(provider, 2);
    for k in 0..16u64 {
        m.insert_mut(k, k * k);
    }
    assert_eq!(m.size(), 16);
    for k in 0..16u64 {
        assert_eq!(m.get(&k), Some(&(k * k)));
    }
    for k in (0..16u64).step_by(2) {
        assert!(m.remove_mut(&k));
    }
    assert_eq!(m.size(), 8);
    for k in 0..16u64 {
        if k % 2 == 0 {
            assert_eq!(m.get(&k), None);
        } else {
            assert_eq!(m.get(&k), Some(&(k * k)));
        }
    }
}

#[test]
fn iteration_yields_every_entry_once() {
    let mut m: HashTrieMap<u64, u64> = HashTrieMap::new();
    for k in 0..40u64 {
        m.insert_mut(k, k + 1000);
    }
    let mut it = m.iter();
    let (lo, hi) = it.size_hint();
    assert_eq!(lo, 40);
    assert_eq!(hi, Some(40));
    let mut seen: Vec<(u64, u64)> = Vec::new();
    while let Some(e) = it.next() {
        seen.push((e.key, e.value));
    }
    assert_eq!(seen.len(), 40);
    let mut keys: Vec<u64> = seen.iter().map(|p| p.0).collect();
    keys.sort();
    keys.dedup();
    assert_eq!(keys, (0..40u64).collect::<Vec<u64>>());
    for (k, v) in seen {
        assert_eq!(v, k + 1000);
    }
}

#[test]
fn empty_map_iterates_nothing() {
    let m: HashTrieMap<u64, u64> = HashTrieMap::new();
    let mut it = m.iter();
    assert_eq!(it.size_hint(), (0, Some(0)));
    assert!(it.next().is_none());
    assert!(m.is_empty());
    assert_eq!(m.size(), 0);
}

#[test]
fn keys_and_values_match_entries() {
    let mut m: HashTrieMap<u64, u64> = HashTrieMap::new();
    for k in 0..10u64 {
        m.insert_mut(k, 2 * k);
    }
    let keys = m.keys();
    let values = m.values();
    assert_eq!(keys.len(), 10);
    assert_eq!(values.len(), 10);
    for (i, k) in keys.iter().enumerate() {
        assert_eq!(values[i], 2 * k);
    }
}

#[test]
fn equality_ignores_insertion_order() {
    let mut m1: HashTrieMap<u64, u64> = HashTrieMap::new();
    let mut m2: HashTrieMap<u64, u64> = HashTrieMap::new();
    for k in 0..25u64 {
        m1.insert_mut(k, k + 1);
    }
    for k in (0..25u64).rev() {
        m2.insert_mut(k, k + 1);
    }
    assert!(m1.equals(&m2));
    assert!(m2.equals(&m1));
    m2.insert_mut(13, 0);
    assert!(!m1.equals(&m2));
    m2.insert_mut(13, 14);
    assert!(m1.equals(&m2));
    m2.remove_mut(&24);
    assert!(!m1.equals(&m2));
}

#[test]
fn equality_across_providers() {
    let mut m1: HashTrieMap<u64, u64> = HashTrieMap::new();
    let mut m2: HashTrieMap<u64, u64, MaskHashProvider> =
        HashTrieMap::new_with_hasher_and_degree_and_ptr_kind(MaskHashProvider { mask: 0b111 }, 8);
    for k in 0..12u64 {
        m1.insert_mut(k, k);
        m2.insert_mut(k, k);
    }
    assert!(m1.equals(&m2));
}

#[test]
fn degree_validation() {
    assert!(!hash_trie_map::is_valid_degree(0));
    assert!(!hash_trie_map::is_valid_degree(3));
    assert!(!hash_trie_map::is_valid_degree(128));
    assert!(hash_trie_map::is_valid_degree(2));
    assert!(hash_trie_map::is_valid_degree(64));
    let mut m: HashTrieMap<u64, u64> = HashTrieMap::new_with_degree(4);
    for k in 0..10u64 {
        m.insert_mut(k, k);
    }
    assert_eq!(m.size(), 10);
}

#[test]
fn string_key_scenario() {
    let mut m: HashTrieMap<String, u64> = HashTrieMap::new();
    m.insert_mut(String::from("a"), 1);
    m.insert_mut(String::from("b"), 2);
    assert_eq!(m.size(), 2);
    assert_eq!(m.get(&String::from("a")), Some(&1));
    assert_eq!(m.get(&String::from("b")), Some(&2));
    assert!(m.remove_mut(&String::from("a")));
    assert_eq!(m.size(), 1);
    assert_eq!(m.get(&String::from("a")), None);
    assert_eq!(m.get(&String::from("b")), Some(&2));
}

#[test]
fn contains_key_and_index() {
    let mut m: HashTrieMap<String, u64> = HashTrieMap::new();
    m.insert_mut(String::from("x"), 42);
    assert!(m.contains_key(&String::from("x")));
    assert!(!m.contains_key(&String::from("y")));
    assert_eq!(*m.index(&String::from("x")), 42);
}

#[test]
fn sync_constructors() {
    let mut m = HashTrieMap::<u64, u64>::new_sync();
    m.insert_mut(1, 2);
    assert_eq!(m.get(&1), Some(&2));
    let m2 = HashTrieMap::<u64, u64>::new_sync_with_degree(16);
    assert!(m2.is_empty());
}

#[test]
fn default_provider_is_deterministic() {
    let p1 = DefaultHashProvider;
    let p2 = DefaultHashProvider;
    let s = String::from("some key");
    assert_eq!(hash_trie_map::hash(&s, &p1), hash_trie_map::hash(&s, &p2));
    let k: u64 = 12345;
    assert_eq!(hash_trie_map::hash(&k, &p1), hash_trie_map::hash(&k, &p2));
}

#[test]
fn from_entries_later_pairs_overwrite() {
    let pairs: Vec<(u64, u64)> = vec![(1, 10), (2, 20), (1, 11), (3, 30), (2, 22)];
    let m: HashTrieMap<u64, u64> = HashTrieMap::from_entries(DefaultHashProvider, pairs);
    assert_eq!(m.size(), 3);
    assert_eq!(m.get(&1), Some(&11));
    assert_eq!(m.get(&2), Some(&22));
    assert_eq!(m.get(&3), Some(&30));
}

#[test]
fn deep_paths_with_wide_hashes() {
    let provider = MaskHashProvider { mask: u64::MAX };
    let mut m: HashTrieMap<u64, u64, MaskHashProvider> =
        HashTrieMap::new_with_hasher_and_degree_and_ptr_kind(provider, 2);
    let mut keys: Vec<u64> = (0..64).map(|i| 1u64 << i).collect();
    keys.push(0);
    for (i, k) in keys.iter().enumerate() {
        m.insert_mut(*k, i as u64);
    }
    assert_eq!(m.size(), 65);
    for (i, k) in keys.iter().enumerate() {
        assert_eq!(m.get(k), Some(&(i as u64)));
    }
    for k in keys.iter() {
        assert!(m.remove_mut(k));
    }
    assert!(m.is_empty());
}

#[test]
fn from_entries_permutation_equality() {
    let s: Vec<(u64, u64)> = vec![(1, 10), (2, 20), (3, 30), (4, 40)];
    let s2: Vec<(u64, u64)> = vec![(3, 30), (1, 10), (4, 40), (2, 20)];
    let m1: HashTrieMap<u64, u64> = HashTrieMap::from_entries(DefaultHashProvider, s);
    let m2: HashTrieMap<u64, u64> = HashTrieMap::from_entries(DefaultHashProvider, s2);
    assert!(m1.equals(&m2));
    let s3: Vec<(u64, u64)> = vec![(3, 30), (1, 10), (4, 41), (2, 20)];
    let m3: HashTrieMap<u64, u64> = HashTrieMap::from_entries(DefaultHashProvider, s3);
    assert!(!m1.equals(&m3));
}
