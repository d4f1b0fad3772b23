use hash_trie_map::EntryWithHash;
use hash_trie_map::index_from_hash;
use hash_trie_map::list_remove_first;
use hash_trie_map::list::List;
use hash_trie_map::trie_max_height;

#[test]
fn index_from_hash_slices_digits() {
    let hash: u64 = 0b0111_0101;
    assert_eq!(index_from_hash(hash, 0, 16), Some(0b0101));
    assert_eq!(index_from_hash(hash, 1, 16), Some(0b0111));
    assert_eq!(index_from_hash(hash, 2, 16), Some(0));
    assert_eq!(index_from_hash(hash, 0, 2), Some(1));
    assert_eq!(index_from_hash(hash, 1, 2), Some(0));
    assert_eq!(index_from_hash(hash, 0, 64), Some(0b110101));
}

#[test]
fn index_from_hash_exhausts() {
    let hash: u64 = u64::MAX;
    assert_eq!(index_from_hash(hash, 15, 16), Some(0b1111));
    assert_eq!(index_from_hash(hash, 16, 16), None);
    assert_eq!(index_from_hash(hash, 63, 2), Some(1));
    assert_eq!(index_from_hash(hash, 64, 2), None);
    assert_eq!(index_from_hash(hash, 10, 64), Some(0b1111));
    assert_eq!(index_from_hash(hash, 11, 64), None);
}

#[test]
fn trie_max_height_rounds_up() {
    assert_eq!(trie_max_height(2), 64);
    assert_eq!(trie_max_height(4), 32);
    assert_eq!(trie_max_height(8), 22);
    assert_eq!(trie_max_height(16), 16);
    assert_eq!(trie_max_height(32), 13);
    assert_eq!(trie_max_height(64), 11);
}

#[test]
fn list_remove_first_takes_first_match_only() {
    let mut l: List<EntryWithHash<u64, u64>> = List::new();
    l = l.push_front(EntryWithHash::new(3, 30, 7));
    l = l.push_front(EntryWithHash::new(2, 20, 7));
    l = l.push_front(EntryWithHash::new(1, 10, 7));
    // front to back the keys are 1, 2, 3, all with hash 7
    let removed = list_remove_first(&mut l, &2, 7);
    assert!(removed);
    assert_eq!(*l.first().unwrap().key(), 1);
    let again = list_remove_first(&mut l, &2, 7);
    assert!(!again);
    assert_eq!(*l.first().unwrap().key(), 1);
    let front = list_remove_first(&mut l, &1, 7);
    assert!(front);
    assert_eq!(*l.first().unwrap().key(), 3);
    assert_eq!(*l.first().unwrap().value(), 30);
}

#[test]
fn list_remove_first_checks_hash_before_key() {
    let mut l: List<EntryWithHash<u64, u64>> = List::new();
    l = l.push_front(EntryWithHash::new(5, 50, 9));
    // same key, different cached hash: no match
    let removed = list_remove_first(&mut l, &5, 8);
    assert!(!removed);
    assert!(!l.is_empty());
}

#[test]
fn entry_accessors() {
    let e: EntryWithHash<u64, u64> = EntryWithHash::new(4, 44, 123);
    assert_eq!(*e.key(), 4);
    assert_eq!(*e.value(), 44);
    let d = e.dup();
    assert_eq!(*d.key(), 4);
    assert_eq!(*d.value(), 44);
}
