//! The hash array mapped trie itself: entries with their cached hashes,
//! leaf buckets, the recursive node type, and the radix indexing that picks
//! a child from a slice of a key's hash.
//!
//! The abstract model of a node is the sequence of its entries in traversal
//! order (`entries`), and the finite map those entries denote (`as_map`,
//! where an earlier entry wins, matching front-to-back scans).  The
//! well-formedness predicate `node_wf` carries the structural invariants:
//! branches exist only while hash digits remain, collision buckets only
//! where the hash is exhausted, every entry sits under the child named by
//! the digit of its cached hash, and each cached hash is the hash the
//! provider assigns to its key.

use crate::keys::MapKey;
use crate::list::List;
use crate::list::ListNode;
use crate::shared_ptr::arc_dup;
use crate::shared_ptr::arc_unwrap_or_keep;
use crate::sparse_array_usize::SparseArrayUsize;
use std::sync::Arc;
use vstd::prelude::*;

verus! {

broadcast use vstd::std_specs::vec::group_vec_axioms,
    crate::sparse_array_usize::SparseArrayUsize::lemma_view_decreases;

/// An immutable key/value pair.
pub struct Entry<K, V> {
    pub key: K,
    pub value: V,
}

impl<K, V> Entry<K, V> {
    /// Pairs a key with a value.
    pub fn new(key: K, value: V) -> (r: Entry<K, V>)
        ensures
            r.key == key,
            r.value == value,
    {
        Entry { key, value }
    }
}

/// A shared entry together with its cached 64-bit hash, computed once at
/// insertion and reused at every trie level.
pub struct EntryWithHash<K, V> {
    pub entry: Arc<Entry<K, V>>,
    pub key_hash: u64,
}

impl<K: MapKey, V> EntryWithHash<K, V> {
    /// The view of the entry's key.
    pub open spec fn k(self) -> K::V {
        self.entry.key@
    }

    /// The entry's value.
    pub open spec fn val(self) -> V {
        self.entry.value
    }

    /// Builds an entry from a key, a value and the key's hash.
    pub fn new(key: K, value: V, key_hash: u64) -> (r: EntryWithHash<K, V>)
        ensures
            r.k() == key@,
            r.val() == value,
            r.key_hash == key_hash,
    {
        EntryWithHash { entry: Arc::new(Entry::new(key, value)), key_hash }
    }

    /// The entry's key.
    pub fn key(&self) -> (r: &K)
        ensures
            r@ == self.k(),
    {
        let ent: &Entry<K, V> = &self.entry;
        &ent.key
    }

    /// The entry's value.
    pub fn value(&self) -> (r: &V)
        ensures
            *r == self.val(),
    {
        let ent: &Entry<K, V> = &self.entry;
        &ent.value
    }

    /// Whether this entry is for the given key: the cached hashes are
    /// compared first, the keys only on a hash match.
    pub fn matches(&self, key: &K, key_hash: u64) -> (r: bool)
        ensures
            r == ewh_matches(*self, key@, key_hash),
    {
        self.key_hash == key_hash && {
            let ent: &Entry<K, V> = &self.entry;
            ent.key.key_eq(key)
        }
    }

    /// An entry with the same key, value and hash, sharing the pair.
    pub fn dup(&self) -> (r: Self)
        ensures
            r == *self,
    {
        EntryWithHash { entry: arc_dup(&self.entry), key_hash: self.key_hash }
    }
}

/// Whether `e` carries hash `h` and a key with view `kv`.
pub open spec fn ewh_matches<K: MapKey, V>(
    e: EntryWithHash<K, V>,
    kv: K::V,
    h: u64,
) -> bool {
    e.key_hash == h && e.k() == kv
}

/// The position of the first entry for (`kv`, `h`), or -1 when there is
/// none.
pub open spec fn first_match<K: MapKey, V>(
    s: Seq<EntryWithHash<K, V>>,
    kv: K::V,
    h: u64,
) -> int
    decreases s.len(),
{
    if s.len() == 0 {
        -1
    } else if ewh_matches(s[0], kv, h) {
        0
    } else {
        let r = first_match(s.drop_first(), kv, h);
        if r < 0 {
            -1
        } else {
            r + 1
        }
    }
}

/// The sequence with its first (`kv`, `h`) entry taken out, if any.
pub open spec fn remove_first_match<K: MapKey, V>(
    s: Seq<EntryWithHash<K, V>>,
    kv: K::V,
    h: u64,
) -> Seq<EntryWithHash<K, V>> {
    if first_match(s, kv, h) >= 0 {
        s.remove(first_match(s, kv, h))
    } else {
        s
    }
}

/// Every entry whose key has view `kv` carries hash `h`.
pub(crate) open spec fn consistent<K: MapKey, V>(
    s: Seq<EntryWithHash<K, V>>,
    kv: K::V,
    h: u64,
) -> bool {
    forall|i: int| 0 <= i < s.len() && (#[trigger] s[i]).k() == kv ==> s[i].key_hash == h
}

/// Whether some entry's key has view `kv`.
pub(crate) open spec fn has_key<K: MapKey, V>(s: Seq<EntryWithHash<K, V>>, kv: K::V) -> bool {
    exists|i: int| 0 <= i < s.len() && (#[trigger] s[i]).k() == kv
}

/// The keys of the entries are pairwise distinct.
pub(crate) open spec fn distinct_keys<K: MapKey, V>(s: Seq<EntryWithHash<K, V>>) -> bool {
    forall|i: int, j: int| 0 <= i < j < s.len() ==> (#[trigger] s[i]).k() != (#[trigger] s[j]).k()
}

/// Each entry's cached hash is the hash `hfn` assigns to its key.
pub(crate) open spec fn hashes_consistent<K: MapKey, V>(
    s: Seq<EntryWithHash<K, V>>,
    hfn: spec_fn(K::V) -> u64,
) -> bool {
    forall|i: int| 0 <= i < s.len() ==> (#[trigger] s[i]).key_hash == hfn(s[i].k())
}

/// The finite map the entries denote; on a repeated key the earlier entry
/// wins, matching a front-to-back scan.
pub(crate) open spec fn entries_map<K: MapKey, V>(s: Seq<EntryWithHash<K, V>>) -> Map<K::V, V>
    decreases s.len(),
{
    if s.len() == 0 {
        Map::empty()
    } else {
        entries_map(s.drop_first()).insert(s[0].k(), s[0].val())
    }
}

/// Every entry of `s` occurs in `t`, or is the extra entry `e`.
pub(crate) open spec fn drawn_from_plus<K: MapKey, V>(
    s: Seq<EntryWithHash<K, V>>,
    t: Seq<EntryWithHash<K, V>>,
    e: EntryWithHash<K, V>,
) -> bool {
    forall|i: int|
        0 <= i < s.len() ==> (exists|j: int| 0 <= j < t.len() && (#[trigger] s[i]) == t[j]) || s[i]
            == e
}

/// The child node at position `p` of a branch's container view.
pub(crate) open spec fn nth_child<K: MapKey, V>(
    cs: Seq<(usize, Arc<Node<K, V>>)>,
    p: int,
) -> Node<K, V> {
    *cs[p].1
}

proof fn lemma_em_dom<K: MapKey, V>(s: Seq<EntryWithHash<K, V>>, kv: K::V)
    ensures
        entries_map(s).contains_key(kv) == has_key(s, kv),
    decreases s.len(),
{
    if s.len() > 0 {
        lemma_em_dom(s.drop_first(), kv);
        if s[0].k() == kv {
            assert(has_key(s, kv));
        } else {
            if has_key(s.drop_first(), kv) {
                let i = choose|i: int|
                    0 <= i < s.drop_first().len() && (#[trigger] s.drop_first()[i]).k() == kv;
                assert(s[i + 1].k() == kv);
            }
            if has_key(s, kv) {
                let i = choose|i: int| 0 <= i < s.len() && (#[trigger] s[i]).k() == kv;
                assert(s.drop_first()[i - 1].k() == kv);
            }
        }
    }
}

proof fn lemma_em_lookup<K: MapKey, V>(s: Seq<EntryWithHash<K, V>>, kv: K::V, h: u64)
    requires
        consistent(s, kv, h),
    ensures
        entries_map(s).contains_key(kv) == (first_match(s, kv, h) >= 0),
        first_match(s, kv, h) >= 0 ==> {
            let fm = first_match(s, kv, h);
            &&& 0 <= fm < s.len()
            &&& ewh_matches(s[fm], kv, h)
            &&& entries_map(s)[kv] == s[fm].val()
            &&& forall|j: int| 0 <= j < fm ==> !ewh_matches(s[j], kv, h)
        },
    decreases s.len(),
{
    lemma_em_dom(s, kv);
    if s.len() > 0 {
        if ewh_matches(s[0], kv, h) {
            assert(has_key(s, kv));
        } else {
            assert(forall|i: int|
                0 <= i < s.drop_first().len() && (#[trigger] s.drop_first()[i]).k() == kv
                    ==> s.drop_first()[i].key_hash == h) by {
                assert(forall|i: int|
                    0 <= i < s.drop_first().len() ==> (#[trigger] s.drop_first()[i]) == s[i + 1]);
            }
            lemma_em_lookup(s.drop_first(), kv, h);
            assert(s[0].k() != kv) by {
                if s[0].k() == kv {
                    assert(s[0].key_hash == h);
                }
            }
            let fm0 = first_match(s.drop_first(), kv, h);
            if fm0 >= 0 {
                assert(s[fm0 + 1] == s.drop_first()[fm0]);
                assert(forall|j: int| 0 <= j < fm0 + 1 ==> !ewh_matches(#[trigger] s[j], kv, h))
                    by {
                    assert(forall|j: int|
                        1 <= j < fm0 + 1 ==> (#[trigger] s[j]) == s.drop_first()[j - 1]);
                }
            }
        }
    }
}

proof fn lemma_em_remove_at<K: MapKey, V>(s: Seq<EntryWithHash<K, V>>, idx: int, kv: K::V)
    requires
        distinct_keys(s),
        0 <= idx < s.len(),
        s[idx].k() == kv,
    ensures
        entries_map(s.remove(idx)) == entries_map(s).remove(kv),
        distinct_keys(s.remove(idx)),
    decreases s.len(),
{
    assert(distinct_keys(s.remove(idx))) by {
        assert(forall|i: int|
            0 <= i < s.remove(idx).len() ==> (#[trigger] s.remove(idx)[i]) == s[if i < idx {
                i
            } else {
                i + 1
            }]);
    }
    if idx == 0 {
        assert(s.remove(0) =~= s.drop_first());
        assert(!entries_map(s.drop_first()).contains_key(kv)) by {
            lemma_em_dom(s.drop_first(), kv);
            if has_key(s.drop_first(), kv) {
                let i = choose|i: int|
                    0 <= i < s.drop_first().len() && (#[trigger] s.drop_first()[i]).k() == kv;
                assert(s[i + 1].k() == s[0].k());
            }
        }
        assert(entries_map(s.drop_first()) =~= entries_map(s).remove(kv));
    } else {
        lemma_em_remove_at(s.drop_first(), idx - 1, kv);
        assert(s.remove(idx).drop_first() =~= s.drop_first().remove(idx - 1));
        assert(s.remove(idx)[0] == s[0]);
        assert(entries_map(s.remove(idx)) == entries_map(s.drop_first().remove(idx - 1)).insert(
            s[0].k(),
            s[0].val(),
        ));
        assert(s[0].k() != kv);
        assert(entries_map(s.drop_first()).remove(kv).insert(s[0].k(), s[0].val())
            =~= entries_map(s.drop_first()).insert(s[0].k(), s[0].val()).remove(kv));
    }
}

/// The leaf payload: one entry, or a chain of entries whose hashes fully
/// collide.
pub(crate) enum Bucket<K, V> {
    Single(EntryWithHash<K, V>),
    Collision(List<EntryWithHash<K, V>>),
}

impl<K: MapKey, V> Bucket<K, V> {
    /// The bucket's entries, front to back.
    pub(crate) open spec fn entries(self) -> Seq<EntryWithHash<K, V>> {
        match self {
            Bucket::Single(e) => seq![e],
            Bucket::Collision(l) => l@,
        }
    }

    /// Structural soundness of a bucket at the given trie depth: a
    /// collision chain exists only where the hash is exhausted, holds at
    /// least two entries, and its keys are pairwise distinct; every cached
    /// hash is the provider's hash of its key.
    pub(crate) open spec fn bucket_wf(
        self,
        depth: nat,
        bits: nat,
        hfn: spec_fn(K::V) -> u64,
    ) -> bool {
        match self {
            Bucket::Single(e) => e.key_hash == hfn(e.k()),
            Bucket::Collision(l) => {
                &&& !has_digit(depth, bits)
                &&& l@.len() >= 2
                &&& hashes_consistent(l@, hfn)
                &&& distinct_keys(l@)
            },
        }
    }

    /// Looks a key up in the bucket, scanning front to back.
    #[verifier::loop_isolation(false)]
    pub(crate) fn get(&self, key: &K, key_hash: u64) -> (r: Option<&EntryWithHash<K, V>>)
        ensures
            match r {
                Option::Some(e) => {
                    let fm = first_match(self.entries(), key@, key_hash);
                    fm >= 0 && *e == self.entries()[fm]
                },
                Option::None => first_match(self.entries(), key@, key_hash) < 0,
            },
    {
        match self {
            Bucket::Single(e) => {
                proof {
                    assert(self.entries() == seq![*e]);
                    assert(self.entries()[0] == *e);
                    assert(self.entries().drop_first() =~= Seq::<EntryWithHash<K, V>>::empty());
                    assert(first_match(self.entries().drop_first(), key@, key_hash) == -1);
                }
                if e.matches(key, key_hash) {
                    Option::Some(e)
                } else {
                    Option::None
                }
            },
            Bucket::Collision(l) => {
                let ghost full = l@;
                let ghost kv = key@;
                let mut cur: Option<&ListNode<EntryWithHash<K, V>>> = l.head_node();
                let ghost mut seen: int = 0;
                proof {
                    assert(full.skip(0) =~= full);
                }
                loop
                    invariant
                        0 <= seen,
                        match cur {
                            Option::Some(n) => {
                                &&& n.seq_of().len() > 0
                                &&& n.seq_of() == full.skip(seen)
                                &&& seen < full.len()
                            },
                            Option::None => seen == full.len(),
                        },
                        first_match(full, kv, key_hash) == if first_match(
                            full.skip(seen),
                            kv,
                            key_hash,
                        ) >= 0 {
                            seen + first_match(full.skip(seen), kv, key_hash)
                        } else {
                            -1
                        },
                        self is Collision,
                        self.entries() == full,
                    decreases full.len() - seen,
                {
                    match cur {
                        Option::None => {
                            proof {
                                assert(full.skip(seen).len() == 0);
                            }
                            return Option::None;
                        },
                        Option::Some(n) => {
                            let e = n.elem_ref();
                            proof {
                                assert(full.skip(seen)[0] == full[seen]);
                                assert(*e == full[seen]);
                            }
                            if e.matches(key, key_hash) {
                                proof {
                                    assert(first_match(full.skip(seen), kv, key_hash) == 0);
                                }
                                return Option::Some(e);
                            }
                            proof {
                                assert(full.skip(seen).drop_first() =~= full.skip(seen + 1));
                                assert(first_match(full.skip(seen), kv, key_hash)
                                    == if first_match(full.skip(seen + 1), kv, key_hash) < 0 {
                                    -1int
                                } else {
                                    1 + first_match(full.skip(seen + 1), kv, key_hash)
                                });
                            }
                            cur = n.next_ref();
                            proof {
                                seen = seen + 1;
                            }
                        },
                    }
                }
            },
        }
    }
}

/// Removes the first entry of the chain that is for the given key,
/// preserving the order of the remaining entries.  Returns whether an
/// entry was removed.
#[verifier::loop_isolation(false)]
pub fn list_remove_first<K: MapKey, V>(
    list: &mut List<EntryWithHash<K, V>>,
    key: &K,
    key_hash: u64,
) -> (removed: bool)
    ensures
        removed == (first_match(old(list)@, key@, key_hash) >= 0),
        removed ==> final(list)@ == old(list)@.remove(first_match(old(list)@, key@, key_hash)),
        !removed ==> final(list)@ == old(list)@,
{
    let ghost full = list@;
    let ghost kv = key@;
    let ghost target = remove_first_match(full, kv, key_hash);
    let mut before: Vec<EntryWithHash<K, V>> = Vec::new();
    let mut remaining: List<EntryWithHash<K, V>> = list.dup();
    let mut removed = false;
    proof {
        assert(before@ + remaining@ =~= full);
    }
    loop
        invariant
            !removed ==> {
                &&& before@ + remaining@ == full
                &&& first_match(full, kv, key_hash) == (if first_match(remaining@, kv, key_hash)
                    >= 0 {
                    before@.len() + first_match(remaining@, kv, key_hash)
                } else {
                    -1
                })
            },
            removed ==> {
                &&& first_match(full, kv, key_hash) == before@.len()
                &&& before@ + remaining@ == target
            },
        decreases remaining@.len() + (if removed {
            0int
        } else {
            1int
        }),
    {
        if removed {
            break ;
        }
        let head = match remaining.first() {
            Option::Some(er) => Option::Some(er.dup()),
            Option::None => Option::None,
        };
        match head {
            Option::None => {
                break ;
            },
            Option::Some(e) => {
                let ghost old_rem = remaining@;
                proof {
                    assert(old_rem[0] == e);
                }
                remaining = remaining.drop_first();
                if e.matches(key, key_hash) {
                    removed = true;
                    proof {
                        assert(ewh_matches(old_rem[0], kv, key_hash));
                        assert(first_match(old_rem, kv, key_hash) == 0);
                        let fm = first_match(full, kv, key_hash);
                        assert(fm == before@.len());
                        assert(full == before@ + old_rem);
                        assert(target == full.remove(fm));
                        assert(full.remove(fm) =~= before@ + remaining@);
                    }
                } else {
                    proof {
                        assert(!ewh_matches(old_rem[0], kv, key_hash));
                        assert(first_match(old_rem, kv, key_hash) == if first_match(
                            old_rem.drop_first(),
                            kv,
                            key_hash,
                        ) < 0 {
                            -1int
                        } else {
                            1 + first_match(old_rem.drop_first(), kv, key_hash)
                        });
                    }
                    before.push(e);
                    proof {
                        assert(before@ + remaining@ =~= full);
                    }
                }
            },
        }
    }
    while before.len() > 0
        invariant
            before@ + remaining@ == (if removed {
                target
            } else {
                full
            }),
        decreases before@.len(),
    {
        let e = match before.pop() {
            Option::Some(e) => e,
            Option::None => {
                proof {
                    assert(false);
                }
                return removed;
            },
        };
        remaining = remaining.push_front(e);
        proof {
            assert(before@ + remaining@ =~= (if removed {
                target
            } else {
                full
            }));
        }
    }
    proof {
        assert(remaining@ =~= before@ + remaining@);
    }
    *list = remaining;
    removed
}

/// With at least one bit per level, a level where a digit remains sits
/// below depth 64.
pub(crate) proof fn lemma_depth_bound(depth: nat, bits: nat)
    requires
        1 <= bits,
        depth * bits < 64,
    ensures
        depth < 64,
{
    assert(depth < 64) by (nonlinear_arith)
        requires
            1 <= bits,
            depth * bits < 64,
    ;
}

/// Whether a digit of the hash remains at this depth: each level consumes
/// `bits` bits of a 64-bit hash.
pub open spec fn has_digit(depth: nat, bits: nat) -> bool {
    depth * bits < 64
}

/// The radix digit of `hash` at level `depth`: the `bits`-bit slice
/// starting at bit `depth * bits`.
pub open spec fn digit_of(hash: u64, depth: nat, bits: nat) -> usize {
    (((hash >> ((depth * bits) as u64)) & (((1u64 << (bits as u64)) - 1) as u64)) as usize)
}

/// The branching degrees the map accepts: powers of two between 2 and 64.
pub open spec fn valid_degree(degree: u8) -> bool {
    degree == 2 || degree == 4 || degree == 8 || degree == 16 || degree == 32 || degree == 64
}

/// The number of hash bits one level consumes: the base-2 logarithm of the
/// degree.
pub open spec fn degree_bits(degree: u8) -> usize {
    if degree == 2 {
        1
    } else if degree == 4 {
        2
    } else if degree == 8 {
        3
    } else if degree == 16 {
        4
    } else if degree == 32 {
        5
    } else {
        6
    }
}

/// What `index_from_hash` returns: the digit of `hash` at level `depth`,
/// or nothing once the hash is exhausted.
pub open spec fn spec_index_from_hash(hash: u64, depth: nat, degree: u8) -> Option<usize> {
    if has_digit(depth, degree_bits(degree) as nat) {
        Option::Some(digit_of(hash, depth, degree_bits(degree) as nat))
    } else {
        Option::None
    }
}

/// The number of hash bits one level consumes, as executable code.
pub(crate) fn bits_of_degree(degree: u8) -> (r: usize)
    requires
        valid_degree(degree),
    ensures
        r == degree_bits(degree),
        1 <= r <= 6,
{
    if degree == 2 {
        1
    } else if degree == 4 {
        2
    } else if degree == 8 {
        3
    } else if degree == 16 {
        4
    } else if degree == 32 {
        5
    } else {
        6
    }
}

/// Whether a digit remains at this depth, as executable code.
pub(crate) fn has_digit_exec(depth: usize, bits: usize) -> (r: bool)
    requires
        1 <= bits <= 6,
    ensures
        r == has_digit(depth as nat, bits as nat),
{
    if depth < 64 {
        proof {
            assert(depth * bits <= 63 * 6) by (nonlinear_arith)
                requires
                    depth <= 63,
                    bits <= 6,
            ;
        }
        depth * bits < 64
    } else {
        proof {
            assert((depth as nat) * (bits as nat) >= 64) by (nonlinear_arith)
                requires
                    depth >= 64,
                    bits >= 1,
            ;
        }
        false
    }
}

/// The digit of `hash` at level `depth`, where one remains.
pub(crate) fn digit_unchecked(hash: u64, depth: usize, bits: usize) -> (r: usize)
    requires
        1 <= bits <= 6,
        has_digit(depth as nat, bits as nat),
    ensures
        r == digit_of(hash, depth as nat, bits as nat),
{
    proof {
        assert(depth * bits < 64) by (nonlinear_arith)
            requires
                (depth as nat) * (bits as nat) < 64,
        ;
    }
    let shift = depth * bits;
    let b = bits as u64;
    proof {
        assert(1u64 << b >= 1 && 1u64 << b <= 64) by (bit_vector)
            requires
                1 <= b <= 6,
        ;
    }
    let mask = (1u64 << b) - 1;
    let sh = shift as u64;
    proof {
        assert((hash >> sh) & (((1u64 << b) - 1) as u64) <= (((1u64 << b) - 1) as u64)) by (bit_vector);
    }
    ((hash >> sh) & mask) as usize
}

/// The index of the child a hash selects at the given depth, or nothing
/// once the hash is exhausted, which signals maximum depth.
pub fn index_from_hash(hash: u64, depth: usize, degree: u8) -> (r: Option<usize>)
    requires
        valid_degree(degree),
    ensures
        r == spec_index_from_hash(hash, depth as nat, degree),
{
    let bits = bits_of_degree(degree);
    if has_digit_exec(depth, bits) {
        Option::Some(digit_unchecked(hash, depth, bits))
    } else {
        Option::None
    }
}

/// A trie node: a branch holding children by radix digit, or a leaf
/// holding a bucket.
pub(crate) enum Node<K, V> {
    Branch(SparseArrayUsize<Arc<Node<K, V>>>),
    Leaf(Bucket<K, V>),
}

/// Every entry of `s` has digit `index` at level `depth`.
pub(crate) open spec fn all_digits<K: MapKey, V>(
    s: Seq<EntryWithHash<K, V>>,
    index: usize,
    depth: nat,
    bits: nat,
) -> bool {
    forall|i: int| 0 <= i < s.len() ==> digit_of((#[trigger] s[i]).key_hash, depth, bits) == index
}

impl<K: MapKey, V> Node<K, V> {
    /// The node's entries in traversal order: children in ascending digit
    /// order, a bucket front to back.
    pub(crate) open spec fn entries(self) -> Seq<EntryWithHash<K, V>>
        decreases self,
    {
        match self {
            Node::Leaf(b) => b.entries(),
            Node::Branch(sa) => Node::children_entries(sa@),
        }
    }

    /// The entries of a branch's children, in the container's order.
    pub(crate) open spec fn children_entries(cs: Seq<(usize, Arc<Node<K, V>>)>) -> Seq<
        EntryWithHash<K, V>,
    >
        decreases cs,
    {
        if cs.len() == 0 {
            Seq::empty()
        } else {
            cs[0].1.entries() + Node::children_entries(cs.drop_first())
        }
    }

    /// The finite map this subtree denotes.
    pub(crate) open spec fn as_map(self) -> Map<K::V, V> {
        entries_map(self.entries())
    }

    /// What a branch requires of each child: at least one entry beneath
    /// it, and at least two when the child is itself a branch (else the
    /// child would have been compressed away).
    pub(crate) open spec fn child_ok(self) -> bool {
        &&& self.entries().len() >= 1
        &&& (self is Branch ==> self.entries().len() >= 2)
    }

    /// Structural soundness of a subtree rooted at the given depth.
    pub(crate) open spec fn node_wf(
        self,
        depth: nat,
        bits: nat,
        hfn: spec_fn(K::V) -> u64,
    ) -> bool
        decreases self,
    {
        match self {
            Node::Leaf(b) => b.bucket_wf(depth, bits, hfn),
            Node::Branch(sa) => {
                &&& has_digit(depth, bits)
                &&& sa.inv()
                &&& forall|p: int|
                    0 <= p < sa@.len() ==> (#[trigger] sa@[p]).1.node_wf(depth + 1, bits, hfn)
                &&& forall|p: int| 0 <= p < sa@.len() ==> (#[trigger] sa@[p]).1.child_ok()
                &&& forall|p: int|
                    0 <= p < sa@.len() ==> all_digits(
                        (#[trigger] sa@[p]).1.entries(),
                        sa@[p].0,
                        depth,
                        bits,
                    )
            },
        }
    }

    /// A fresh empty branch, the representation of "no entries".
    pub(crate) fn new_empty_branch() -> (r: Node<K, V>)
        ensures
            r.entries() == Seq::<EntryWithHash<K, V>>::empty(),
            forall|depth: nat, bits: nat, hfn: spec_fn(K::V) -> u64|
                has_digit(depth, bits) ==> #[trigger] r.node_wf(depth, bits, hfn),
            r is Branch,
            r.empty_shape(),
    {
        let sa = SparseArrayUsize::new();
        proof {
            assert(Node::<K, V>::children_entries(sa@) =~= Seq::<EntryWithHash<K, V>>::empty());
        }
        Node::Branch(sa)
    }
}

pub(crate) proof fn lemma_ce_concat<K: MapKey, V>(
    a: Seq<(usize, Arc<Node<K, V>>)>,
    b: Seq<(usize, Arc<Node<K, V>>)>,
)
    ensures
        Node::children_entries(a + b) == Node::children_entries(a) + Node::children_entries(b),
    decreases a.len(),
{
    if a.len() == 0 {
        assert(a + b =~= b);
        assert(Node::children_entries(a) =~= Seq::<EntryWithHash<K, V>>::empty());
        assert(Node::children_entries(a) + Node::children_entries(b) =~= Node::children_entries(
            b,
        ));
    } else {
        lemma_ce_concat(a.drop_first(), b);
        assert((a + b).drop_first() =~= a.drop_first() + b);
        assert((a + b)[0] == a[0]);
        assert(Node::children_entries(a + b) == a[0].1.entries() + (Node::children_entries(
            a.drop_first(),
        ) + Node::children_entries(b)));
        assert(a[0].1.entries() + (Node::children_entries(a.drop_first())
            + Node::children_entries(b)) =~= (a[0].1.entries() + Node::children_entries(
            a.drop_first(),
        )) + Node::children_entries(b));
    }
}

pub(crate) proof fn lemma_ce_split<K: MapKey, V>(cs: Seq<(usize, Arc<Node<K, V>>)>, p: int)
    requires
        0 <= p < cs.len(),
    ensures
        Node::children_entries(cs) == Node::children_entries(cs.take(p)) + cs[p].1.entries()
            + Node::children_entries(cs.skip(p + 1)),
{
    let mid = seq![cs[p]];
    assert(cs =~= cs.take(p) + mid + cs.skip(p + 1));
    lemma_ce_concat(cs.take(p) + mid, cs.skip(p + 1));
    lemma_ce_concat(cs.take(p), mid);
    assert(Node::children_entries(mid) == cs[p].1.entries() + Node::children_entries(
        mid.drop_first(),
    ));
    assert(Node::children_entries(mid.drop_first()) =~= Seq::<EntryWithHash<K, V>>::empty());
    assert(Node::children_entries(mid) =~= cs[p].1.entries());
    assert(Node::children_entries(cs.take(p) + mid) + Node::children_entries(cs.skip(p + 1))
        =~= Node::children_entries(cs.take(p)) + cs[p].1.entries() + Node::children_entries(
        cs.skip(p + 1),
    ));
}

proof fn lemma_em_concat<K: MapKey, V>(a: Seq<EntryWithHash<K, V>>, b: Seq<EntryWithHash<K, V>>)
    ensures
        entries_map(a + b) == entries_map(b).union_prefer_right(entries_map(a)),
    decreases a.len(),
{
    if a.len() == 0 {
        assert(a + b =~= b);
        assert(entries_map(a) =~= Map::<K::V, V>::empty());
        assert(entries_map(b).union_prefer_right(entries_map(a)) =~= entries_map(b));
    } else {
        lemma_em_concat(a.drop_first(), b);
        assert((a + b).drop_first() =~= a.drop_first() + b);
        assert((a + b)[0] == a[0]);
        assert(entries_map(a + b) == entries_map(b).union_prefer_right(
            entries_map(a.drop_first()),
        ).insert(a[0].k(), a[0].val()));
        assert(entries_map(b).union_prefer_right(entries_map(a.drop_first())).insert(
            a[0].k(),
            a[0].val(),
        ) =~= entries_map(b).union_prefer_right(entries_map(a)));
    }
}

pub(crate) proof fn lemma_ce_len_lower<K: MapKey, V>(cs: Seq<(usize, Arc<Node<K, V>>)>)
    requires
        forall|p: int| 0 <= p < cs.len() ==> (#[trigger] cs[p]).1.entries().len() >= 1,
    ensures
        Node::children_entries(cs).len() >= cs.len(),
    decreases cs.len(),
{
    if cs.len() > 0 {
        assert(forall|p: int|
            0 <= p < cs.drop_first().len() ==> (#[trigger] cs.drop_first()[p]) == cs[p + 1]);
        lemma_ce_len_lower(cs.drop_first());
    }
}

/// Lifts per-child facts to the flat entry sequence of a branch: hashes
/// stay consistent, keys stay pairwise distinct, and every entry's digit
/// is the index of some child.
proof fn lemma_children_entries_sound<K: MapKey, V>(
    cs: Seq<(usize, Arc<Node<K, V>>)>,
    depth: nat,
    bits: nat,
    hfn: spec_fn(K::V) -> u64,
)
    requires
        forall|p: int| 0 <= p < cs.len() ==> (#[trigger] cs[p]).1.node_wf(depth + 1, bits, hfn),
        forall|p: int|
            0 <= p < cs.len() ==> all_digits((#[trigger] cs[p]).1.entries(), cs[p].0, depth, bits),
        forall|p: int, q: int| 0 <= p < q < cs.len() ==> (#[trigger] cs[p]).0 != (#[trigger] cs[q]).0,
    ensures
        hashes_consistent(Node::children_entries(cs), hfn),
        distinct_keys(Node::children_entries(cs)),
        forall|i: int|
            0 <= i < Node::children_entries(cs).len() ==> exists|p: int|
                0 <= p < cs.len() && digit_of(
                    (#[trigger] Node::children_entries(cs)[i]).key_hash,
                    depth,
                    bits,
                ) == cs[p].0,
    decreases cs,
{
    if cs.len() > 0 {
        let head = nth_child(cs, 0).entries();
        let tail = Node::children_entries(cs.drop_first());
        let whole = Node::children_entries(cs);
        assert(whole == head + tail);
        lemma_node_entries_sound(nth_child(cs, 0), depth + 1, bits, hfn);
        assert(forall|p: int|
            0 <= p < cs.drop_first().len() ==> (#[trigger] cs.drop_first()[p]) == cs[p + 1]);
        lemma_children_entries_sound(cs.drop_first(), depth, bits, hfn);
        assert forall|i: int| 0 <= i < whole.len() implies (#[trigger] whole[i]).key_hash == hfn(
            whole[i].k(),
        ) by {
            if i < head.len() {
                assert(whole[i] == head[i]);
            } else {
                assert(whole[i] == tail[i - head.len()]);
            }
        }
        assert forall|i: int, j: int| 0 <= i < j < whole.len() implies (#[trigger] whole[i]).k()
            != (#[trigger] whole[j]).k() by {
            if j < head.len() {
                assert(whole[i] == head[i] && whole[j] == head[j]);
            } else if i >= head.len() {
                assert(whole[i] == tail[i - head.len()] && whole[j] == tail[j - head.len()]);
            } else {
                let a = whole[i];
                let b = whole[j];
                assert(a == head[i]);
                assert(b == tail[j - head.len()]);
                assert(digit_of(a.key_hash, depth, bits) == cs[0].0);
                let q = choose|q: int|
                    0 <= q < cs.drop_first().len() && digit_of(
                        (#[trigger] tail[j - head.len()]).key_hash,
                        depth,
                        bits,
                    ) == cs.drop_first()[q].0;
                assert(cs.drop_first()[q] == cs[q + 1]);
                assert(cs[q + 1].0 != cs[0].0);
                if a.k() == b.k() {
                    assert(a.key_hash == hfn(a.k()));
                    assert(b.key_hash == hfn(b.k()));
                    assert(false);
                }
            }
        }
        assert forall|i: int| 0 <= i < whole.len() implies exists|p: int|
            0 <= p < cs.len() && digit_of((#[trigger] whole[i]).key_hash, depth, bits)
                == cs[p].0 by {
            if i < head.len() {
                assert(whole[i] == head[i]);
                assert(digit_of(whole[i].key_hash, depth, bits) == cs[0].0);
            } else {
                assert(whole[i] == tail[i - head.len()]);
                let q = choose|q: int|
                    0 <= q < cs.drop_first().len() && digit_of(
                        (#[trigger] tail[i - head.len()]).key_hash,
                        depth,
                        bits,
                    ) == cs.drop_first()[q].0;
                assert(cs.drop_first()[q] == cs[q + 1]);
                assert(digit_of(whole[i].key_hash, depth, bits) == cs[q + 1].0);
            }
        }
    } else {
        assert(Node::children_entries(cs) =~= Seq::<EntryWithHash<K, V>>::empty());
    }
}

/// A well-formed subtree has consistent cached hashes and pairwise
/// distinct keys.
pub(crate) proof fn lemma_node_entries_sound<K: MapKey, V>(
    n: Node<K, V>,
    depth: nat,
    bits: nat,
    hfn: spec_fn(K::V) -> u64,
)
    requires
        n.node_wf(depth, bits, hfn),
    ensures
        hashes_consistent(n.entries(), hfn),
        distinct_keys(n.entries()),
    decreases n,
{
    match n {
        Node::Leaf(b) => {
            match b {
                Bucket::Single(e) => {},
                Bucket::Collision(l) => {},
            }
        },
        Node::Branch(sa) => {
            lemma_children_entries_sound(sa@, depth, bits, hfn);
        },
    }
}

/// In a well-formed branch, a key can only live under the child whose
/// index is the digit of the key's hash; under any other set of children
/// it is absent.
proof fn lemma_ce_key_absent<K: MapKey, V>(
    cs: Seq<(usize, Arc<Node<K, V>>)>,
    depth: nat,
    bits: nat,
    hfn: spec_fn(K::V) -> u64,
    kv: K::V,
)
    requires
        forall|p: int| 0 <= p < cs.len() ==> (#[trigger] cs[p]).1.node_wf(depth + 1, bits, hfn),
        forall|p: int|
            0 <= p < cs.len() ==> all_digits((#[trigger] cs[p]).1.entries(), cs[p].0, depth, bits),
        forall|p: int| 0 <= p < cs.len() ==> (#[trigger] cs[p]).0 != digit_of(hfn(kv), depth, bits),
    ensures
        !has_key(Node::children_entries(cs), kv),
        !entries_map(Node::children_entries(cs)).contains_key(kv),
    decreases cs.len(),
{
    let whole = Node::children_entries(cs);
    if cs.len() == 0 {
        assert(whole =~= Seq::<EntryWithHash<K, V>>::empty());
    } else {
        let head = nth_child(cs, 0).entries();
        let tail = Node::children_entries(cs.drop_first());
        assert(whole == head + tail);
        lemma_node_entries_sound(nth_child(cs, 0), depth + 1, bits, hfn);
        assert(forall|p: int|
            0 <= p < cs.drop_first().len() ==> (#[trigger] cs.drop_first()[p]) == cs[p + 1]);
        lemma_ce_key_absent(cs.drop_first(), depth, bits, hfn, kv);
        if has_key(whole, kv) {
            let i = choose|i: int| 0 <= i < whole.len() && (#[trigger] whole[i]).k() == kv;
            if i < head.len() {
                assert(whole[i] == head[i]);
                assert(head[i].key_hash == hfn(kv));
                assert(digit_of(head[i].key_hash, depth, bits) == cs[0].0);
                assert(false);
            } else {
                assert(whole[i] == tail[i - head.len()]);
                assert(has_key(tail, kv));
                assert(false);
            }
        }
    }
    lemma_em_dom(whole, kv);
}

impl<K: MapKey, V> Node<K, V> {
    /// Looks a key up, walking the trie by the digits of the key's hash.
    pub(crate) fn get(
        &self,
        key: &K,
        key_hash: u64,
        depth: usize,
        bits: usize,
        Ghost(hfn): Ghost<spec_fn(K::V) -> u64>,
    ) -> (r: Option<&EntryWithHash<K, V>>)
        requires
            1 <= bits <= 6,
            self.node_wf(depth as nat, bits as nat, hfn),
            key_hash == hfn(key@),
        ensures
            match r {
                Option::Some(e) => self.as_map().contains_key(key@) && e.k() == key@ && e.val()
                    == self.as_map()[key@] && e.key_hash == key_hash,
                Option::None => !self.as_map().contains_key(key@),
            },
        decreases 64 - depth,
    {
        let ghost kv = key@;
        match self {
            Node::Leaf(bucket) => {
                proof {
                    lemma_node_entries_sound(*self, depth as nat, bits as nat, hfn);
                    lemma_em_lookup(bucket.entries(), kv, key_hash);
                }
                match bucket.get(key, key_hash) {
                    Option::Some(e) => Option::Some(e),
                    Option::None => Option::None,
                }
            },
            Node::Branch(sa) => {
                let index = digit_unchecked(key_hash, depth, bits);
                proof {
                    lemma_depth_bound(depth as nat, bits as nat);
                }
                let ghost cs = sa@;
                match sa.get(index) {
                    Option::Some(child_arc) => {
                        let ghost p = choose|p: int|
                            0 <= p < cs.len() && (#[trigger] cs[p]).0 == index && *child_arc
                                == cs[p].1;
                        let child: &Node<K, V> = &*child_arc;
                        proof {
                            lemma_ce_split(cs, p);
                            lemma_ce_concat(cs.take(p), seq![cs[p]]);
                            assert(forall|q: int|
                                0 <= q < cs.take(p).len() ==> (#[trigger] cs.take(p)[q]) == cs[q]);
                            assert(forall|q: int|
                                0 <= q < cs.skip(p + 1).len() ==> (#[trigger] cs.skip(p + 1)[q])
                                    == cs[q + p + 1]);
                            lemma_ce_key_absent(cs.take(p), depth as nat, bits as nat, hfn, kv);
                            lemma_ce_key_absent(cs.skip(p + 1), depth as nat, bits as nat, hfn, kv);
                            let a = Node::children_entries(cs.take(p));
                            let x = nth_child(cs, p).entries();
                            let b = Node::children_entries(cs.skip(p + 1));
                            assert(self.entries() == a + x + b);
                            lemma_em_concat(a + x, b);
                            lemma_em_concat(a, x);
                            assert(a + x + b =~= (a + x) + b);
                            lemma_em_dom(a + x + b, kv);
                            lemma_em_dom(x, kv);
                            assert(entries_map(self.entries()).contains_key(kv)
                                == entries_map(x).contains_key(kv)) by {
                                lemma_em_dom(a, kv);
                                lemma_em_dom(b, kv);
                                if has_key(a + x + b, kv) {
                                    let i = choose|i: int|
                                        0 <= i < (a + x + b).len() && (#[trigger] (a + x + b)[i]).k()
                                            == kv;
                                    if i < a.len() {
                                        assert((a + x + b)[i] == a[i]);
                                        assert(has_key(a, kv));
                                    } else if i < a.len() + x.len() {
                                        assert((a + x + b)[i] == x[i - a.len()]);
                                        assert(has_key(x, kv));
                                    } else {
                                        assert((a + x + b)[i] == b[i - a.len() - x.len()]);
                                        assert(has_key(b, kv));
                                    }
                                }
                                if has_key(x, kv) {
                                    let i = choose|i: int|
                                        0 <= i < x.len() && (#[trigger] x[i]).k() == kv;
                                    assert((a + x + b)[a.len() + i] == x[i]);
                                    assert(has_key(a + x + b, kv));
                                }
                            }
                            if entries_map(x).contains_key(kv) {
                                assert(entries_map(self.entries())[kv] == entries_map(x)[kv]);
                            }
                        }
                        child.get(key, key_hash, depth + 1, bits, Ghost(hfn))
                    },
                    Option::None => {
                        proof {
                            assert(forall|p: int|
                                0 <= p < cs.len() ==> (#[trigger] cs[p]).0 != digit_of(
                                    hfn(kv),
                                    depth as nat,
                                    bits as nat,
                                ));
                            lemma_ce_key_absent(cs, depth as nat, bits as nat, hfn, kv);
                        }
                        Option::None
                    },
                }
            },
        }
    }
}

impl<K: MapKey, V> Bucket<K, V> {
    /// Inserts an entry: the new entry goes to the front; any earlier
    /// entry for the same key leaves, the order of the rest is kept.
    /// Returns the bucket and whether the key is new to it.
    pub(crate) fn insert(self, entry: EntryWithHash<K, V>) -> (r: (Bucket<K, V>, bool))
        ensures
            r.0.entries() == seq![entry] + remove_first_match(
                self.entries(),
                entry.k(),
                entry.key_hash,
            ),
            r.1 == (first_match(self.entries(), entry.k(), entry.key_hash) < 0),
            (r.0 is Single) == (self is Single && first_match(
                self.entries(),
                entry.k(),
                entry.key_hash,
            ) >= 0),
    {
        let ghost kv = entry.k();
        let ghost h = entry.key_hash;
        match self {
            Bucket::Single(e) => {
                let hit = e.matches(entry.key(), entry.key_hash);
                proof {
                    assert(self.entries() == seq![e]);
                    assert(self.entries()[0] == e);
                    assert(self.entries().drop_first() =~= Seq::<EntryWithHash<K, V>>::empty());
                    assert(first_match(self.entries().drop_first(), kv, h) == -1);
                }
                if hit {
                    proof {
                        assert(first_match(self.entries(), kv, h) == 0);
                        assert(remove_first_match(self.entries(), kv, h) =~= Seq::<
                            EntryWithHash<K, V>,
                        >::empty());
                        assert(Bucket::Single(entry).entries() =~= seq![entry]
                            + remove_first_match(self.entries(), kv, h));
                    }
                    (Bucket::Single(entry), false)
                } else {
                    let l = List::new().push_front(e).push_front(entry);
                    proof {
                        assert(first_match(self.entries(), kv, h) == -1);
                        assert(l@ =~= seq![entry] + self.entries());
                    }
                    (Bucket::Collision(l), true)
                }
            },
            Bucket::Collision(mut l) => {
                let removed = list_remove_first(&mut l, entry.key(), entry.key_hash);
                let l2 = l.push_front(entry);
                (Bucket::Collision(l2), !removed)
            },
        }
    }
}

/// The node held by a shared handle.
pub(crate) open spec fn node_of<K: MapKey, V>(a: Arc<Node<K, V>>) -> Node<K, V> {
    *a
}

impl<K: MapKey, V> Node<K, V> {
    /// A node with the same entries: a branch shares its children, a leaf
    /// shares its entry or chain.
    #[verifier::loop_isolation(false)]
    pub(crate) fn dup_node(
        &self,
        Ghost(depth): Ghost<nat>,
        Ghost(bits): Ghost<nat>,
        Ghost(hfn): Ghost<spec_fn(K::V) -> u64>,
    ) -> (r: Node<K, V>)
        requires
            self.node_wf(depth, bits, hfn),
        ensures
            r.entries() == self.entries(),
            r.node_wf(depth, bits, hfn),
            (r is Branch) == (*self is Branch),
    {
        match self {
            Node::Leaf(b) => {
                let b2 = match b {
                    Bucket::Single(e) => Bucket::Single(e.dup()),
                    Bucket::Collision(l) => Bucket::Collision(l.dup()),
                };
                proof {
                    assert(b2 == *b);
                }
                Node::Leaf(b2)
            },
            Node::Branch(sa) => {
                let n = sa.size();
                let mut out: SparseArrayUsize<Arc<Node<K, V>>> = SparseArrayUsize::new();
                let mut i: usize = 0;
                proof {
                    assert(out@ =~= sa@.take(0));
                }
                while i < n
                    invariant
                        i <= n,
                        out.inv(),
                        out@ == sa@.take(i as int),
                    decreases n - i,
                {
                    let ent = sa.entry_at(i);
                    let idx = ent.0;
                    let carc = arc_dup(&ent.1);
                    proof {
                        assert(forall|j: int| 0 <= j < i ==> (#[trigger] out@[j]) == sa@[j]);
                    }
                    out.append_entry(idx, carc);
                    i = i + 1;
                    proof {
                        assert(out@ =~= sa@.take(i as int));
                    }
                }
                proof {
                    assert(out@ =~= sa@);
                }
                Node::Branch(out)
            },
        }
    }

    /// Takes the node out of a shared handle: without a copy when the
    /// handle is unique, otherwise as a duplicate sharing the children.
    pub(crate) fn take_node(
        a: Arc<Node<K, V>>,
        Ghost(depth): Ghost<nat>,
        Ghost(bits): Ghost<nat>,
        Ghost(hfn): Ghost<spec_fn(K::V) -> u64>,
    ) -> (r: Node<K, V>)
        requires
            node_of(a).node_wf(depth, bits, hfn),
        ensures
            r.entries() == node_of(a).entries(),
            r.node_wf(depth, bits, hfn),
            (r is Branch) == (node_of(a) is Branch),
    {
        match arc_unwrap_or_keep(a) {
            Result::Ok(n) => n,
            Result::Err(keep) => {
                let nref: &Node<K, V> = &keep;
                nref.dup_node(Ghost(depth), Ghost(bits), Ghost(hfn))
            },
        }
    }

    /// Builds the smallest subtree holding two entries whose keys differ:
    /// branches chain for as long as the two hashes share their digits,
    /// and a collision chain forms where the hash is exhausted.
    fn join(
        a: EntryWithHash<K, V>,
        b: EntryWithHash<K, V>,
        depth: usize,
        bits: usize,
        Ghost(hfn): Ghost<spec_fn(K::V) -> u64>,
    ) -> (r: Node<K, V>)
        requires
            1 <= bits <= 6,
            a.k() != b.k(),
            a.key_hash == hfn(a.k()),
            b.key_hash == hfn(b.k()),
        ensures
            r.node_wf(depth as nat, bits as nat, hfn),
            r.entries() == seq![a, b] || r.entries() == seq![b, a],
            r.entries().len() == 2,
            r.as_map() == Map::<K::V, V>::empty().insert(a.k(), a.val()).insert(b.k(), b.val()),
            r.child_ok(),
        decreases 64 - depth,
    {
        let ghost akv = a.k();
        let ghost bkv = b.k();
        if has_digit_exec(depth, bits) {
            proof {
                lemma_depth_bound(depth as nat, bits as nat);
            }
            let ia = digit_unchecked(a.key_hash, depth, bits);
            let ib = digit_unchecked(b.key_hash, depth, bits);
            let mut sa: SparseArrayUsize<Arc<Node<K, V>>> = SparseArrayUsize::new();
            if ia == ib {
                let child = Node::join(a, b, depth + 1, bits, Ghost(hfn));
                let carc = Arc::new(child);
                sa.set(ia, carc);
                let r = Node::Branch(sa);
                proof {
                    reveal_with_fuel(Node::children_entries, 3);
                    assert(sa@ =~= seq![(ia, carc)]);
                    assert(Node::children_entries(sa@.drop_first()) =~= Seq::<
                        EntryWithHash<K, V>,
                    >::empty());
                    assert(r.entries() =~= node_of(carc).entries());
                    assert(forall|e: int|
                        0 <= e < node_of(carc).entries().len() ==> digit_of(
                            (#[trigger] node_of(carc).entries()[e]).key_hash,
                            depth as nat,
                            bits as nat,
                        ) == ia);
                }
                r
            } else {
                let la = Arc::new(Node::Leaf(Bucket::Single(a)));
                let lb = Arc::new(Node::Leaf(Bucket::Single(b)));
                sa.set(ia, la);
                let ghost sa1 = sa@;
                proof {
                    assert(sa1 =~= seq![(ia, la)]);
                }
                sa.set(ib, lb);
                let r = Node::Branch(sa);
                proof {
                    reveal_with_fuel(Node::children_entries, 3);
                    reveal_with_fuel(entries_map, 3);
                    let p2 = choose|p2: int|
                        0 <= p2 <= sa1.len() && sa@ == sa1.insert(p2, (ib, lb)) && (forall|j: int|
                            0 <= j < p2 ==> (#[trigger] sa1[j]).0 < ib) && (forall|j: int|
                            p2 <= j < sa1.len() ==> (#[trigger] sa1[j]).0 > ib);
                    if ia < ib {
                        assert(p2 == 1) by {
                            if p2 == 0 {
                                assert(sa1[0].0 > ib);
                            }
                        }
                        assert(sa@ =~= seq![(ia, la), (ib, lb)]);
                    } else {
                        assert(p2 == 0) by {
                            if p2 == 1 {
                                assert(sa1[0].0 < ib);
                            }
                        }
                        assert(sa@ =~= seq![(ib, lb), (ia, la)]);
                    }
                    assert(node_of(la).entries() =~= seq![a]);
                    assert(node_of(lb).entries() =~= seq![b]);
                    assert(node_of(la).node_wf((depth + 1) as nat, bits as nat, hfn));
                    assert(node_of(lb).node_wf((depth + 1) as nat, bits as nat, hfn));
                    assert(Node::children_entries(sa@.drop_first().drop_first()) =~= Seq::<
                        EntryWithHash<K, V>,
                    >::empty());
                    assert(Node::children_entries(sa@) == sa@[0].1.entries() + (
                    sa@.drop_first()[0].1.entries() + Node::children_entries(
                        sa@.drop_first().drop_first(),
                    )));
                    if ia < ib {
                        assert(r.entries() =~= seq![a, b]);
                    } else {
                        assert(r.entries() =~= seq![b, a]);
                    }
                    assert(seq![a, b].drop_first() =~= seq![b]);
                    assert(seq![b, a].drop_first() =~= seq![a]);
                    assert(seq![a].drop_first() =~= Seq::<EntryWithHash<K, V>>::empty());
                    assert(seq![b].drop_first() =~= Seq::<EntryWithHash<K, V>>::empty());
                    assert(entries_map(seq![a].drop_first()) =~= Map::<K::V, V>::empty());
                    assert(entries_map(seq![b].drop_first()) =~= Map::<K::V, V>::empty());
                    assert(r.as_map() =~= Map::<K::V, V>::empty().insert(akv, a.val()).insert(
                        bkv,
                        b.val(),
                    ));
                }
                r
            }
        } else {
            let l = List::new().push_front(a).push_front(b);
            let r = Node::Leaf(Bucket::Collision(l));
            proof {
                reveal_with_fuel(entries_map, 3);
                assert(l@ =~= seq![b, a]);
                assert(r.entries() == seq![b, a]);
                assert(seq![b, a].drop_first() =~= seq![a]);
                assert(seq![a].drop_first() =~= Seq::<EntryWithHash<K, V>>::empty());
                assert(entries_map(seq![a].drop_first()) =~= Map::<K::V, V>::empty());
                assert(r.as_map() =~= Map::<K::V, V>::empty().insert(akv, a.val()).insert(
                    bkv,
                    b.val(),
                ));
            }
            r
        }
    }
}

/// Replacing the child at position `p` leaves the other children's
/// entries in place; a key whose digit is the replaced child's index is
/// absent from all of them.
proof fn lemma_branch_replace<K: MapKey, V>(
    cs0: Seq<(usize, Arc<Node<K, V>>)>,
    cs2: Seq<(usize, Arc<Node<K, V>>)>,
    p: int,
    depth: nat,
    bits: nat,
    hfn: spec_fn(K::V) -> u64,
    kv: K::V,
)
    requires
        0 <= p < cs0.len(),
        cs2.len() == cs0.len(),
        forall|q: int| 0 <= q < cs0.len() && q != p ==> (#[trigger] cs2[q]) == cs0[q],
        cs2[p].0 == cs0[p].0,
        forall|q: int| 0 <= q < cs0.len() ==> (#[trigger] cs0[q]).1.node_wf(depth + 1, bits, hfn),
        forall|q: int|
            0 <= q < cs0.len() ==> all_digits(
                (#[trigger] cs0[q]).1.entries(),
                cs0[q].0,
                depth,
                bits,
            ),
        forall|q: int|
            0 <= q < cs0.len() && q != p ==> (#[trigger] cs0[q]).0 != digit_of(
                hfn(kv),
                depth,
                bits,
            ),
    ensures
        Node::children_entries(cs0) == Node::children_entries(cs0.take(p)) + nth_child(
            cs0,
            p,
        ).entries() + Node::children_entries(cs0.skip(p + 1)),
        Node::children_entries(cs2) == Node::children_entries(cs0.take(p)) + nth_child(
            cs2,
            p,
        ).entries() + Node::children_entries(cs0.skip(p + 1)),
        !entries_map(Node::children_entries(cs0.take(p))).contains_key(kv),
        !entries_map(Node::children_entries(cs0.skip(p + 1))).contains_key(kv),
        !has_key(Node::children_entries(cs0.take(p)), kv),
        !has_key(Node::children_entries(cs0.skip(p + 1)), kv),
        entries_map(Node::children_entries(cs0)) == entries_map(
            Node::children_entries(cs0.skip(p + 1)),
        ).union_prefer_right(entries_map(nth_child(cs0, p).entries())).union_prefer_right(
            entries_map(Node::children_entries(cs0.take(p))),
        ),
        entries_map(Node::children_entries(cs2)) == entries_map(
            Node::children_entries(cs0.skip(p + 1)),
        ).union_prefer_right(entries_map(nth_child(cs2, p).entries())).union_prefer_right(
            entries_map(Node::children_entries(cs0.take(p))),
        ),
{
    lemma_ce_split(cs0, p);
    lemma_ce_split(cs2, p);
    assert(cs2.take(p) =~= cs0.take(p));
    assert(cs2.skip(p + 1) =~= cs0.skip(p + 1));
    let a = Node::children_entries(cs0.take(p));
    let x0 = nth_child(cs0, p).entries();
    let x2 = nth_child(cs2, p).entries();
    let b = Node::children_entries(cs0.skip(p + 1));
    assert(forall|q: int| 0 <= q < cs0.take(p).len() ==> (#[trigger] cs0.take(p)[q]) == cs0[q]);
    assert(forall|q: int|
        0 <= q < cs0.skip(p + 1).len() ==> (#[trigger] cs0.skip(p + 1)[q]) == cs0[q + p + 1]);
    lemma_ce_key_absent(cs0.take(p), depth, bits, hfn, kv);
    lemma_ce_key_absent(cs0.skip(p + 1), depth, bits, hfn, kv);
    lemma_em_concat(a + x0, b);
    lemma_em_concat(a, x0);
    assert(a + x0 + b =~= (a + x0) + b);
    assert(entries_map((a + x0) + b) == entries_map(b).union_prefer_right(
        entries_map(a + x0),
    ));
    assert(entries_map(b).union_prefer_right(entries_map(x0).union_prefer_right(entries_map(a)))
        =~= entries_map(b).union_prefer_right(entries_map(x0)).union_prefer_right(
        entries_map(a),
    ));
    lemma_em_concat(a + x2, b);
    lemma_em_concat(a, x2);
    assert(a + x2 + b =~= (a + x2) + b);
    assert(entries_map(b).union_prefer_right(entries_map(x2).union_prefer_right(entries_map(a)))
        =~= entries_map(b).union_prefer_right(entries_map(x2)).union_prefer_right(
        entries_map(a),
    ));
}

/// Installing a new child at position `p` adds exactly its entries; a key
/// whose digit is absent from the indices is absent from all old children.
proof fn lemma_branch_install<K: MapKey, V>(
    cs0: Seq<(usize, Arc<Node<K, V>>)>,
    cs2: Seq<(usize, Arc<Node<K, V>>)>,
    p: int,
    depth: nat,
    bits: nat,
    hfn: spec_fn(K::V) -> u64,
    kv: K::V,
)
    requires
        0 <= p <= cs0.len(),
        cs2 == cs0.insert(p, cs2[p]),
        forall|q: int| 0 <= q < cs0.len() ==> (#[trigger] cs0[q]).1.node_wf(depth + 1, bits, hfn),
        forall|q: int|
            0 <= q < cs0.len() ==> all_digits(
                (#[trigger] cs0[q]).1.entries(),
                cs0[q].0,
                depth,
                bits,
            ),
        forall|q: int|
            0 <= q < cs0.len() ==> (#[trigger] cs0[q]).0 != digit_of(hfn(kv), depth, bits),
    ensures
        Node::children_entries(cs0) == Node::children_entries(cs0.take(p))
            + Node::children_entries(cs0.skip(p)),
        Node::children_entries(cs2) == Node::children_entries(cs0.take(p)) + nth_child(
            cs2,
            p,
        ).entries() + Node::children_entries(cs0.skip(p)),
        !entries_map(Node::children_entries(cs0.take(p))).contains_key(kv),
        !entries_map(Node::children_entries(cs0.skip(p))).contains_key(kv),
        !has_key(Node::children_entries(cs0.take(p)), kv),
        !has_key(Node::children_entries(cs0.skip(p)), kv),
        entries_map(Node::children_entries(cs0)) == entries_map(
            Node::children_entries(cs0.skip(p)),
        ).union_prefer_right(entries_map(Node::children_entries(cs0.take(p)))),
        entries_map(Node::children_entries(cs2)) == entries_map(
            Node::children_entries(cs0.skip(p)),
        ).union_prefer_right(entries_map(nth_child(cs2, p).entries())).union_prefer_right(
            entries_map(Node::children_entries(cs0.take(p))),
        ),
{
    assert(cs0 =~= cs0.take(p) + cs0.skip(p));
    lemma_ce_concat(cs0.take(p), cs0.skip(p));
    lemma_ce_split(cs2, p);
    assert(cs2.take(p) =~= cs0.take(p));
    assert(cs2.skip(p + 1) =~= cs0.skip(p));
    let a = Node::children_entries(cs0.take(p));
    let x2 = nth_child(cs2, p).entries();
    let b = Node::children_entries(cs0.skip(p));
    assert(forall|q: int| 0 <= q < cs0.take(p).len() ==> (#[trigger] cs0.take(p)[q]) == cs0[q]);
    assert(forall|q: int|
        0 <= q < cs0.skip(p).len() ==> (#[trigger] cs0.skip(p)[q]) == cs0[q + p]);
    lemma_ce_key_absent(cs0.take(p), depth, bits, hfn, kv);
    lemma_ce_key_absent(cs0.skip(p), depth, bits, hfn, kv);
    lemma_em_concat(a, b);
    lemma_em_concat(a + x2, b);
    lemma_em_concat(a, x2);
    assert(a + x2 + b =~= (a + x2) + b);
    assert(entries_map(b).union_prefer_right(entries_map(x2).union_prefer_right(entries_map(a)))
        =~= entries_map(b).union_prefer_right(entries_map(x2)).union_prefer_right(
        entries_map(a),
    ));
}

impl<K: MapKey, V> Node<K, V> {
    /// Inserts an entry into the subtree, returning the new subtree and
    /// whether the key is new beneath it.
    #[verifier::rlimit(100)]
    pub(crate) fn insert(
        self,
        entry: EntryWithHash<K, V>,
        depth: usize,
        bits: usize,
        Ghost(hfn): Ghost<spec_fn(K::V) -> u64>,
    ) -> (r: (Node<K, V>, bool))
        requires
            1 <= bits <= 6,
            self.node_wf(depth as nat, bits as nat, hfn),
            entry.key_hash == hfn(entry.k()),
        ensures
            r.0.node_wf(depth as nat, bits as nat, hfn),
            r.0.as_map() == self.as_map().insert(entry.k(), entry.val()),
            r.1 == !self.as_map().contains_key(entry.k()),
            r.0.entries().len() == self.entries().len() + (if r.1 {
                1int
            } else {
                0int
            }),
            drawn_from_plus(r.0.entries(), self.entries(), entry),
            r.0 is Branch ==> (self is Branch || r.0.entries().len() >= 2),
            r.0.entries().len() >= 1,
        decreases 64 - depth,
    {
        let ghost orig = self;
        let ghost kv = entry.k();
        let ghost h = entry.key_hash;
        match self {
            Node::Leaf(bucket) => {
                let ghost bs = bucket.entries();
                proof {
                    lemma_node_entries_sound(orig, depth as nat, bits as nat, hfn);
                    assert(consistent(bs, kv, h));
                    lemma_em_lookup(bs, kv, h);
                    lemma_em_dom(bs, kv);
                }
                let ghost fm = first_match(bs, kv, h);
                let maxd = !has_digit_exec(depth, bits);
                let hit = match &bucket {
                    Bucket::Single(e) => e.matches(entry.key(), entry.key_hash),
                    Bucket::Collision(_) => false,
                };
                if maxd || hit {
                    proof {
                        if !maxd {
                            assert(bucket is Single);
                            assert(bs == seq![bucket->Single_0]);
                            assert(fm == 0);
                        }
                    }
                    let (b2, is_new) = bucket.insert(entry);
                    let r0 = Node::Leaf(b2);
                    proof {
                        let rest = remove_first_match(bs, kv, h);
                        assert(r0.entries() == seq![entry] + rest);
                        // the denoted map gains exactly this binding
                        if fm >= 0 {
                            lemma_em_remove_at(bs, fm, kv);
                            assert(entries_map(rest) == entries_map(bs).remove(kv));
                        }
                        lemma_em_concat(seq![entry], rest);
                        assert(entries_map(seq![entry]) =~= Map::<K::V, V>::empty().insert(
                            kv,
                            entry.val(),
                        )) by {
                            assert(entries_map(seq![entry].drop_first()) =~= Map::<
                                K::V,
                                V,
                            >::empty());
                        }
                        assert(r0.as_map() =~= orig.as_map().insert(kv, entry.val()));
                        // the entry count
                        assert(r0.entries().len() == bs.len() + (if is_new {
                            1int
                        } else {
                            0int
                        }));
                        // every entry of the result was present or is the new one
                        assert forall|i: int| 0 <= i < r0.entries().len() implies (exists|j: int|
                            0 <= j < bs.len() && (#[trigger] r0.entries()[i]) == bs[j])
                            || r0.entries()[i] == entry by {
                            if i > 0 {
                                if fm >= 0 {
                                    let j = if i - 1 < fm {
                                        i - 1
                                    } else {
                                        i
                                    };
                                    assert(r0.entries()[i] == rest[i - 1]);
                                    assert(rest[i - 1] == bs[j]);
                                } else {
                                    assert(r0.entries()[i] == bs[i - 1]);
                                }
                            }
                        }
                        // well-formedness of the new bucket
                        assert(forall|i: int|
                            0 <= i < rest.len() ==> exists|j: int|
                                0 <= j < bs.len() && (#[trigger] rest[i]) == bs[j]) by {
                            assert forall|i: int| 0 <= i < rest.len() implies exists|j: int|
                                0 <= j < bs.len() && (#[trigger] rest[i]) == bs[j] by {
                                if fm >= 0 {
                                    let j = if i < fm {
                                        i
                                    } else {
                                        i + 1
                                    };
                                    assert(rest[i] == bs[j]);
                                } else {
                                    assert(rest[i] == bs[i]);
                                }
                            }
                        }
                        assert(!has_key(rest, kv)) by {
                            if has_key(rest, kv) {
                                let i = choose|i: int|
                                    0 <= i < rest.len() && (#[trigger] rest[i]).k() == kv;
                                if fm >= 0 {
                                    let j = if i < fm {
                                        i
                                    } else {
                                        i + 1
                                    };
                                    assert(bs[j].k() == kv && bs[fm].k() == kv && j != fm);
                                } else {
                                    assert(has_key(bs, kv));
                                }
                            }
                        }
                        if b2 is Single {
                            assert(b2.entries() == seq![b2->Single_0]);
                            assert(b2->Single_0 == entry);
                        } else {
                            let l2 = b2->Collision_0;
                            assert(l2@ == seq![entry] + rest);
                            assert(l2@.len() >= 2) by {
                                if bucket is Single {
                                    assert(fm < 0);
                                    assert(rest == bs);
                                }
                            }
                            assert(hashes_consistent(l2@, hfn));
                            assert(distinct_keys(l2@));
                            assert(!has_digit(depth as nat, bits as nat)) by {
                                if !maxd {
                                    assert(b2 is Single);
                                }
                            }
                        }
                    }
                    (r0, is_new)
                } else {
                    match bucket {
                        Bucket::Single(e_old) => {
                            proof {
                                assert(!ewh_matches(e_old, kv, h));
                                assert(e_old.k() != kv) by {
                                    if e_old.k() == kv {
                                        assert(e_old.key_hash == hfn(kv));
                                    }
                                }
                            }
                            let n = Node::join(e_old, entry, depth, bits, Ghost(hfn));
                            proof {
                                assert(bs == seq![e_old]);
                                assert(entries_map(bs.drop_first()) =~= Map::<K::V, V>::empty());
                                assert(orig.as_map() =~= Map::<K::V, V>::empty().insert(
                                    e_old.k(),
                                    e_old.val(),
                                ));
                                assert(n.as_map() =~= orig.as_map().insert(kv, entry.val()));
                                assert(!orig.as_map().contains_key(kv));
                                assert forall|i: int| 0 <= i < n.entries().len() implies (exists|
                                    j: int,
                                |
                                    0 <= j < bs.len() && (#[trigger] n.entries()[i]) == bs[j])
                                    || n.entries()[i] == entry by {
                                    if n.entries()[i] == e_old {
                                        assert(bs[0] == e_old);
                                    }
                                }
                            }
                            (n, true)
                        },
                        Bucket::Collision(l) => {
                            proof {
                                assert(false);
                            }
                            (Node::Leaf(Bucket::Collision(l)), true)
                        },
                    }
                }
            },
            Node::Branch(mut sa) => {
                let ghost cs0 = sa@;
                proof {
                    lemma_depth_bound(depth as nat, bits as nat);
                }
                let index = digit_unchecked(entry.key_hash, depth, bits);
                match sa.remove(index) {
                    Option::Some(child_arc) => {
                        let ghost p = choose|p: int|
                            0 <= p < cs0.len() && (#[trigger] cs0[p]).0 == index && child_arc
                                == cs0[p].1 && sa@ == cs0.remove(p);
                        let child = Node::take_node(
                            child_arc,
                            Ghost((depth + 1) as nat),
                            Ghost(bits as nat),
                            Ghost(hfn),
                        );
                        let (child2, is_new) = child.insert(entry, depth + 1, bits, Ghost(hfn));
                        let carc2 = Arc::new(child2);
                        sa.set(index, carc2);
                        let ghost cs2 = sa@;
                        proof {
                            // the child went back exactly where it was taken from
                            assert(forall|q: int|
                                0 <= q < cs0.len() && q != p ==> (#[trigger] cs0[q]).0 != index);
                            let sa1 = cs0.remove(p);
                            assert(forall|q: int|
                                0 <= q < sa1.len() ==> (#[trigger] sa1[q]) == cs0[if q < p {
                                    q
                                } else {
                                    q + 1
                                }]);
                            assert(forall|q: int|
                                0 <= q < sa1.len() ==> (#[trigger] sa1[q]).0 != index);
                            let p2 = choose|p2: int|
                                0 <= p2 <= sa1.len() && cs2 == sa1.insert(p2, (index, carc2)) && (
                                forall|j: int| 0 <= j < p2 ==> (#[trigger] sa1[j]).0 < index) && (
                                forall|j: int|
                                    p2 <= j < sa1.len() ==> (#[trigger] sa1[j]).0 > index);
                            assert(p2 == p) by {
                                if p2 < p {
                                    assert(sa1[p2].0 == cs0[p2].0);
                                    assert(cs0[p2].0 < cs0[p].0);
                                } else if p2 > p {
                                    assert(sa1[p].0 == cs0[p + 1].0);
                                    assert(cs0[p].0 < cs0[p + 1].0);
                                }
                            }
                            assert(cs2 =~= cs0.update(p, (index, carc2)));
                            assert(nth_child(cs2, p) == child2);
                            assert(nth_child(cs0, p).entries() == child.entries());
                            lemma_branch_replace(cs0, cs2, p, depth as nat, bits as nat, hfn, kv);
                            let a = Node::children_entries(cs0.take(p));
                            let x0 = nth_child(cs0, p).entries();
                            let x2 = child2.entries();
                            let b = Node::children_entries(cs0.skip(p + 1));
                            lemma_em_dom(a, kv);
                            lemma_em_dom(b, kv);
                            lemma_em_dom(x0, kv);
                            // the denoted map changes exactly at this key
                            assert(entries_map(Node::children_entries(cs2))
                                =~= entries_map(Node::children_entries(cs0)).insert(
                                kv,
                                entry.val(),
                            ));
                            assert(orig.as_map().contains_key(kv) == entries_map(x0).contains_key(
                                kv,
                            ));
                            // the entry count
                            assert(Node::children_entries(cs2).len() == a.len() + x2.len()
                                + b.len());
                            assert(Node::children_entries(cs0).len() == a.len() + x0.len()
                                + b.len());
                            // well-formedness of the rebuilt branch
                            assert forall|q: int| 0 <= q < cs2.len() implies (
                            #[trigger] cs2[q]).1.node_wf(depth as nat + 1, bits as nat, hfn)
                                && cs2[q].1.child_ok() && all_digits(
                                cs2[q].1.entries(),
                                cs2[q].0,
                                depth as nat,
                                bits as nat,
                            ) by {
                                if q != p {
                                    assert(cs2[q] == cs0[q]);
                                } else {
                                    assert(nth_child(cs2, p) == child2);
                                    assert(child2.entries().len() >= 1);
                                    if child2 is Branch {
                                        assert(child is Branch || child2.entries().len() >= 2);
                                        if child is Branch {
                                            assert(nth_child(cs0, p).child_ok());
                                            assert(child.entries().len() >= 2);
                                        }
                                    }
                                    assert forall|e: int|
                                        0 <= e < child2.entries().len() implies digit_of(
                                        (#[trigger] child2.entries()[e]).key_hash,
                                        depth as nat,
                                        bits as nat,
                                    ) == index by {
                                        if child2.entries()[e] == entry {
                                        } else {
                                            let j = choose|j: int|
                                                0 <= j < child.entries().len() && (
                                                #[trigger] child2.entries()[e])
                                                    == child.entries()[j];
                                            assert(digit_of(
                                                child.entries()[j].key_hash,
                                                depth as nat,
                                                bits as nat,
                                            ) == index);
                                        }
                                    }
                                }
                            }
                            // every entry of the result was present or is the new one
                            assert forall|i: int|
                                0 <= i < Node::children_entries(cs2).len() implies (exists|j: int|
                                0 <= j < Node::children_entries(cs0).len() && (
                                #[trigger] Node::children_entries(cs2)[i])
                                    == Node::children_entries(cs0)[j]) || Node::children_entries(
                                cs2,
                            )[i] == entry by {
                                let whole2 = Node::children_entries(cs2);
                                let whole0 = Node::children_entries(cs0);
                                if i < a.len() {
                                    assert(whole2[i] == a[i]);
                                    assert(whole0[i] == a[i]);
                                } else if i < a.len() + x2.len() {
                                    assert(whole2[i] == x2[i - a.len()]);
                                    if !(x2[i - a.len()] == entry) {
                                        let j = choose|j: int|
                                            0 <= j < x0.len() && (#[trigger] x2[i - a.len()])
                                                == x0[j];
                                        assert(whole0[a.len() + j] == x0[j]);
                                    }
                                } else {
                                    assert(whole2[i] == b[i - a.len() - x2.len()]);
                                    assert(whole0[a.len() + x0.len() + (i - a.len() - x2.len())]
                                        == b[i - a.len() - x2.len()]);
                                }
                            }
                        }
                        (Node::Branch(sa), is_new)
                    },
                    Option::None => {
                        let leaf = Arc::new(Node::Leaf(Bucket::Single(entry)));
                        sa.set(index, leaf);
                        let ghost cs2 = sa@;
                        proof {
                            assert(forall|q: int|
                                0 <= q < cs0.len() ==> (#[trigger] cs0[q]).0 != index);
                            let p = choose|p: int|
                                0 <= p <= cs0.len() && cs2 == cs0.insert(p, (index, leaf)) && (
                                forall|j: int| 0 <= j < p ==> (#[trigger] cs0[j]).0 < index) && (
                                forall|j: int|
                                    p <= j < cs0.len() ==> (#[trigger] cs0[j]).0 > index);
                            assert(nth_child(cs2, p).entries() =~= seq![entry]) by {
                                assert(nth_child(cs2, p) == Node::Leaf(Bucket::Single(entry)));
                            }
                            lemma_branch_install(cs0, cs2, p, depth as nat, bits as nat, hfn, kv);
                            let a = Node::children_entries(cs0.take(p));
                            let b = Node::children_entries(cs0.skip(p));
                            let x2 = nth_child(cs2, p).entries();
                            lemma_em_dom(a, kv);
                            lemma_em_dom(b, kv);
                            assert(entries_map(x2) =~= Map::<K::V, V>::empty().insert(
                                kv,
                                entry.val(),
                            )) by {
                                assert(entries_map(x2.drop_first()) =~= Map::<K::V, V>::empty());
                            }
                            assert(entries_map(Node::children_entries(cs2))
                                =~= entries_map(Node::children_entries(cs0)).insert(
                                kv,
                                entry.val(),
                            ));
                            assert(!orig.as_map().contains_key(kv));
                            assert(Node::children_entries(cs2).len() == a.len() + 1 + b.len());
                            assert(Node::children_entries(cs0).len() == a.len() + b.len());
                            // well-formedness of the rebuilt branch
                            assert forall|q: int| 0 <= q < cs2.len() implies (
                            #[trigger] cs2[q]).1.node_wf(depth as nat + 1, bits as nat, hfn)
                                && cs2[q].1.child_ok() && all_digits(
                                cs2[q].1.entries(),
                                cs2[q].0,
                                depth as nat,
                                bits as nat,
                            ) by {
                                if q < p {
                                    assert(cs2[q] == cs0[q]);
                                } else if q > p {
                                    assert(cs2[q] == cs0[q - 1]);
                                } else {
                                    assert(nth_child(cs2, p).entries() == seq![entry]);
                                    assert(nth_child(cs2, p).entries()[0] == entry);
                                }
                            }
                            // every entry of the result was present or is the new one
                            assert forall|i: int|
                                0 <= i < Node::children_entries(cs2).len() implies (exists|j: int|
                                0 <= j < Node::children_entries(cs0).len() && (
                                #[trigger] Node::children_entries(cs2)[i])
                                    == Node::children_entries(cs0)[j]) || Node::children_entries(
                                cs2,
                            )[i] == entry by {
                                let whole2 = Node::children_entries(cs2);
                                let whole0 = Node::children_entries(cs0);
                                if i < a.len() {
                                    assert(whole2[i] == a[i]);
                                    assert(whole0[i] == a[i]);
                                } else if i == a.len() {
                                    assert(whole2[i] == x2[0]);
                                } else {
                                    assert(whole2[i] == b[i - a.len() - 1]);
                                    assert(whole0[a.len() + (i - a.len() - 1)] == b[i - a.len()
                                        - 1]);
                                }
                            }
                        }
                        (Node::Branch(sa), true)
                    },
                }
            },
        }
    }
}

/// Every entry of `s` occurs in `t`.
pub(crate) open spec fn drawn_from<K: MapKey, V>(
    s: Seq<EntryWithHash<K, V>>,
    t: Seq<EntryWithHash<K, V>>,
) -> bool {
    forall|i: int|
        0 <= i < s.len() ==> exists|j: int| 0 <= j < t.len() && (#[trigger] s[i]) == t[j]
}

/// Dropping the child at position `p` drops exactly its entries; a key
/// whose digit is the dropped child's index is absent from the others.
proof fn lemma_branch_drop<K: MapKey, V>(
    cs0: Seq<(usize, Arc<Node<K, V>>)>,
    p: int,
    depth: nat,
    bits: nat,
    hfn: spec_fn(K::V) -> u64,
    kv: K::V,
)
    requires
        0 <= p < cs0.len(),
        forall|q: int| 0 <= q < cs0.len() ==> (#[trigger] cs0[q]).1.node_wf(depth + 1, bits, hfn),
        forall|q: int|
            0 <= q < cs0.len() ==> all_digits(
                (#[trigger] cs0[q]).1.entries(),
                cs0[q].0,
                depth,
                bits,
            ),
        forall|q: int|
            0 <= q < cs0.len() && q != p ==> (#[trigger] cs0[q]).0 != digit_of(
                hfn(kv),
                depth,
                bits,
            ),
    ensures
        Node::children_entries(cs0) == Node::children_entries(cs0.take(p)) + nth_child(
            cs0,
            p,
        ).entries() + Node::children_entries(cs0.skip(p + 1)),
        Node::children_entries(cs0.remove(p)) == Node::children_entries(cs0.take(p))
            + Node::children_entries(cs0.skip(p + 1)),
        !entries_map(Node::children_entries(cs0.take(p))).contains_key(kv),
        !entries_map(Node::children_entries(cs0.skip(p + 1))).contains_key(kv),
        !has_key(Node::children_entries(cs0.take(p)), kv),
        !has_key(Node::children_entries(cs0.skip(p + 1)), kv),
        entries_map(Node::children_entries(cs0)) == entries_map(
            Node::children_entries(cs0.skip(p + 1)),
        ).union_prefer_right(entries_map(nth_child(cs0, p).entries())).union_prefer_right(
            entries_map(Node::children_entries(cs0.take(p))),
        ),
        entries_map(Node::children_entries(cs0.remove(p))) == entries_map(
            Node::children_entries(cs0.skip(p + 1)),
        ).union_prefer_right(entries_map(Node::children_entries(cs0.take(p)))),
{
    lemma_ce_split(cs0, p);
    assert(cs0.remove(p) =~= cs0.take(p) + cs0.skip(p + 1));
    lemma_ce_concat(cs0.take(p), cs0.skip(p + 1));
    let a = Node::children_entries(cs0.take(p));
    let x0 = nth_child(cs0, p).entries();
    let b = Node::children_entries(cs0.skip(p + 1));
    assert(forall|q: int| 0 <= q < cs0.take(p).len() ==> (#[trigger] cs0.take(p)[q]) == cs0[q]);
    assert(forall|q: int|
        0 <= q < cs0.skip(p + 1).len() ==> (#[trigger] cs0.skip(p + 1)[q]) == cs0[q + p + 1]);
    lemma_ce_key_absent(cs0.take(p), depth, bits, hfn, kv);
    lemma_ce_key_absent(cs0.skip(p + 1), depth, bits, hfn, kv);
    lemma_em_concat(a + x0, b);
    lemma_em_concat(a, x0);
    assert(a + x0 + b =~= (a + x0) + b);
    assert(entries_map(b).union_prefer_right(entries_map(x0).union_prefer_right(entries_map(a)))
        =~= entries_map(b).union_prefer_right(entries_map(x0)).union_prefer_right(
        entries_map(a),
    ));
    lemma_em_concat(a, b);
}

impl<K: MapKey, V> Node<K, V> {
    /// The shape that stands for "no entries": a branch without children.
    pub(crate) open spec fn empty_shape(self) -> bool {
        match self {
            Node::Branch(sa) => sa@.len() == 0,
            Node::Leaf(_) => false,
        }
    }

    /// Whether the subtree holds no entries.
    pub(crate) fn is_empty(
        &self,
        Ghost(depth): Ghost<nat>,
        Ghost(bits): Ghost<nat>,
        Ghost(hfn): Ghost<spec_fn(K::V) -> u64>,
    ) -> (r: bool)
        requires
            self.entries().len() == 0 ==> self.empty_shape(),
            self.entries().len() >= 1 ==> self.node_wf(depth, bits, hfn),
        ensures
            r == (self.entries().len() == 0),
    {
        match self {
            Node::Branch(sa) => {
                let n = sa.size();
                proof {
                    if n == 0 {
                        assert(Node::children_entries(sa@) =~= Seq::<
                            EntryWithHash<K, V>,
                        >::empty());
                    } else {
                        if self.entries().len() == 0 {
                            assert(self.empty_shape());
                        }
                    }
                }
                n == 0
            },
            Node::Leaf(b) => {
                proof {
                    if self.entries().len() == 0 {
                        assert(self.empty_shape());
                    }
                }
                false
            },
        }
    }

    /// Compresses the node: a branch whose only child is a leaf with a
    /// single entry becomes that leaf.  A branch over a collision leaf is
    /// left alone, since collision chains must stay at maximum depth.
    pub(crate) fn compress_node(
        self,
        Ghost(depth): Ghost<nat>,
        Ghost(bits): Ghost<nat>,
        Ghost(hfn): Ghost<spec_fn(K::V) -> u64>,
    ) -> (r: Node<K, V>)
        requires
            self.node_wf(depth, bits, hfn),
        ensures
            r.node_wf(depth, bits, hfn),
            r.entries() == self.entries(),
            r.entries().len() >= 1 ==> r.child_ok(),
            r.entries().len() == 0 ==> r.empty_shape(),
    {
        let ghost orig = self;
        match self {
            Node::Leaf(b) => {
                proof {
                    assert(orig.child_ok()) by {
                        match b {
                            Bucket::Single(_) => {},
                            Bucket::Collision(_) => {},
                        }
                    }
                }
                Node::Leaf(b)
            },
            Node::Branch(mut sa) => {
                let ghost cs = sa@;
                let n = sa.size();
                if n == 1 {
                    proof {
                        lemma_ce_split(cs, 0);
                        assert(cs.take(0) =~= Seq::<(usize, Arc<Node<K, V>>)>::empty());
                        assert(cs.skip(1) =~= Seq::<(usize, Arc<Node<K, V>>)>::empty());
                        assert(Node::children_entries(cs.take(0)) =~= Seq::<
                            EntryWithHash<K, V>,
                        >::empty());
                        assert(Node::children_entries(cs.skip(1)) =~= Seq::<
                            EntryWithHash<K, V>,
                        >::empty());
                        assert(orig.entries() =~= nth_child(cs, 0).entries());
                    }
                    let collapse = {
                        let first = sa.first();
                        match first {
                            Option::Some(arcref) => {
                                let node: &Node<K, V> = &*arcref;
                                match node {
                                    Node::Leaf(Bucket::Single(_)) => true,
                                    _ => false,
                                }
                            },
                            Option::None => false,
                        }
                    };
                    if collapse {
                        match sa.pop() {
                            Option::Some(arc) => {
                                let child = Node::take_node(
                                    arc,
                                    Ghost(depth + 1),
                                    Ghost(bits),
                                    Ghost(hfn),
                                );
                                proof {
                                    assert(node_of(arc) == nth_child(cs, 0));
                                    assert(child is Leaf);
                                    let b = child->Leaf_0;
                                    if b is Collision {
                                        assert(b.entries().len() >= 2);
                                        assert(child.entries().len() == 1);
                                        assert(false);
                                    }
                                    assert(b is Single);
                                    assert(child.node_wf(depth, bits, hfn));
                                }
                                child
                            },
                            Option::None => {
                                proof {
                                    assert(false);
                                }
                                Node::Branch(sa)
                            },
                        }
                    } else {
                        proof {
                            let c = nth_child(cs, 0);
                            assert(c.child_ok());
                            assert(c.entries().len() >= 2) by {
                                match c {
                                    Node::Branch(_) => {},
                                    Node::Leaf(b) => {
                                        match b {
                                            Bucket::Single(_) => {
                                                assert(false);
                                            },
                                            Bucket::Collision(l) => {
                                                assert(c.node_wf(depth + 1, bits, hfn));
                                            },
                                        }
                                    },
                                }
                            }
                        }
                        Node::Branch(sa)
                    }
                } else {
                    proof {
                        if n >= 2 {
                            lemma_ce_len_lower(cs);
                        } else {
                            assert(n == 0);
                            assert(Node::children_entries(cs) =~= Seq::<
                                EntryWithHash<K, V>,
                            >::empty());
                        }
                    }
                    Node::Branch(sa)
                }
            },
        }
    }
}

impl<K: MapKey, V> Node<K, V> {
    /// Removes a key from the subtree, returning the new subtree and
    /// whether the key was present.  A subtree left without entries comes
    /// back as an empty branch, the signal its parent reads.
    #[verifier::rlimit(100)]
    pub(crate) fn remove(
        self,
        key: &K,
        key_hash: u64,
        depth: usize,
        bits: usize,
        Ghost(hfn): Ghost<spec_fn(K::V) -> u64>,
    ) -> (r: (Node<K, V>, bool))
        requires
            1 <= bits <= 6,
            self.node_wf(depth as nat, bits as nat, hfn),
            key_hash == hfn(key@),
        ensures
            r.0.entries().len() >= 1 ==> r.0.node_wf(depth as nat, bits as nat, hfn),
            r.0.entries().len() == 0 ==> r.0.empty_shape(),
            r.0.as_map() == self.as_map().remove(key@),
            r.1 == self.as_map().contains_key(key@),
            r.0.entries().len() == self.entries().len() - (if r.1 {
                1int
            } else {
                0int
            }),
            drawn_from(r.0.entries(), self.entries()),
            (self.child_ok() && r.0.entries().len() >= 1) ==> r.0.child_ok(),
        decreases 64 - depth,
    {
        let ghost orig = self;
        let ghost kv = key@;
        match self {
            Node::Leaf(bucket) => {
                let ghost bs = bucket.entries();
                proof {
                    lemma_node_entries_sound(orig, depth as nat, bits as nat, hfn);
                    assert(consistent(bs, kv, key_hash));
                    lemma_em_lookup(bs, kv, key_hash);
                    lemma_em_dom(bs, kv);
                }
                let ghost fm = first_match(bs, kv, key_hash);
                match bucket {
                    Bucket::Single(e) => {
                        if e.matches(key, key_hash) {
                            let r0 = Node::new_empty_branch();
                            proof {
                                assert(e.k() == kv);
                                assert(entries_map(bs.drop_first()) =~= Map::<K::V, V>::empty());
                                assert(r0.as_map() =~= orig.as_map().remove(kv));
                            }
                            (r0, true)
                        } else {
                            proof {
                                assert(e.k() != kv) by {
                                    if e.k() == kv {
                                        assert(e.key_hash == hfn(kv));
                                    }
                                }
                                assert(entries_map(bs.drop_first()) =~= Map::<K::V, V>::empty());
                                assert(!orig.as_map().contains_key(kv));
                                assert(orig.as_map().remove(kv) =~= orig.as_map());
                                assert(bs[0] == e);
                            }
                            (Node::Leaf(Bucket::Single(e)), false)
                        }
                    },
                    Bucket::Collision(mut l) => {
                        let removed = list_remove_first(&mut l, key, key_hash);
                        if removed {
                            proof {
                                assert(bs[fm].k() == kv);
                                lemma_em_remove_at(bs, fm, kv);
                                assert(forall|i: int|
                                    0 <= i < l@.len() ==> (#[trigger] l@[i]) == bs[if i < fm {
                                        i
                                    } else {
                                        i + 1
                                    }]);
                            }
                            if l.is_singleton() {
                                let e1 = match l.first() {
                                    Option::Some(er) => er.dup(),
                                    Option::None => {
                                        proof {
                                            assert(false);
                                        }
                                        return (Node::Leaf(Bucket::Collision(l)), true);
                                    },
                                };
                                let r0 = Node::Leaf(Bucket::Single(e1));
                                proof {
                                    assert(r0.entries() =~= l@);
                                }
                                (r0, true)
                            } else {
                                (Node::Leaf(Bucket::Collision(l)), true)
                            }
                        } else {
                            proof {
                                assert(!orig.as_map().contains_key(kv));
                                assert(orig.as_map().remove(kv) =~= orig.as_map());
                            }
                            (Node::Leaf(Bucket::Collision(l)), false)
                        }
                    },
                }
            },
            Node::Branch(mut sa) => {
                let ghost cs0 = sa@;
                proof {
                    lemma_depth_bound(depth as nat, bits as nat);
                }
                let index = digit_unchecked(key_hash, depth, bits);
                match sa.remove(index) {
                    Option::None => {
                        proof {
                            assert(forall|q: int|
                                0 <= q < cs0.len() ==> (#[trigger] cs0[q]).0 != digit_of(
                                    hfn(kv),
                                    depth as nat,
                                    bits as nat,
                                ));
                            lemma_ce_key_absent(cs0, depth as nat, bits as nat, hfn, kv);
                            assert(orig.as_map().remove(kv) =~= orig.as_map());
                            if orig.entries().len() == 0 {
                                if cs0.len() > 0 {
                                    lemma_ce_len_lower(cs0);
                                }
                            }
                        }
                        (Node::Branch(sa), false)
                    },
                    Option::Some(child_arc) => {
                        let ghost p = choose|p: int|
                            0 <= p < cs0.len() && (#[trigger] cs0[p]).0 == index && child_arc
                                == cs0[p].1 && sa@ == cs0.remove(p);
                        let child = Node::take_node(
                            child_arc,
                            Ghost((depth + 1) as nat),
                            Ghost(bits as nat),
                            Ghost(hfn),
                        );
                        let (child2, removed) = child.remove(
                            key,
                            key_hash,
                            depth + 1,
                            bits,
                            Ghost(hfn),
                        );
                        proof {
                            assert(forall|q: int|
                                0 <= q < cs0.len() && q != p ==> (#[trigger] cs0[q]).0 != index);
                        }
                        if child2.is_empty(
                            Ghost((depth + 1) as nat),
                            Ghost(bits as nat),
                            Ghost(hfn),
                        ) {
                            // the child is gone; it stays out of the container
                            proof {
                                assert(removed);
                                assert(child.entries().len() == 1);
                                lemma_branch_drop(cs0, p, depth as nat, bits as nat, hfn, kv);
                                let a = Node::children_entries(cs0.take(p));
                                let x0 = nth_child(cs0, p).entries();
                                let b = Node::children_entries(cs0.skip(p + 1));
                                lemma_em_dom(a, kv);
                                lemma_em_dom(b, kv);
                                lemma_em_dom(x0, kv);
                                assert(entries_map(child2.entries()) =~= Map::<K::V, V>::empty());
                                assert(forall|k2: K::V|
                                    entries_map(x0).contains_key(k2) ==> k2 == kv) by {
                                    assert forall|k2: K::V|
                                        entries_map(x0).contains_key(k2) implies k2 == kv by {
                                        if k2 != kv {
                                            assert(entries_map(child2.entries()).contains_key(
                                                k2,
                                            ));
                                        }
                                    }
                                }
                                assert(entries_map(Node::children_entries(cs0.remove(p)))
                                    =~= entries_map(Node::children_entries(cs0)).remove(kv));
                                assert(orig.as_map().contains_key(kv)) by {
                                    assert(entries_map(x0).contains_key(kv));
                                }
                                // the branch that remains is well-formed
                                assert(forall|q: int|
                                    0 <= q < cs0.remove(p).len() ==> (#[trigger] cs0.remove(p)[q])
                                        == cs0[if q < p {
                                        q
                                    } else {
                                        q + 1
                                    }]);
                                assert(Node::Branch(sa).node_wf(depth as nat, bits as nat, hfn));
                                assert(Node::children_entries(cs0).len() == a.len() + x0.len()
                                    + b.len());
                                // every remaining entry was present before
                                assert forall|i: int|
                                    0 <= i < Node::children_entries(
                                        cs0.remove(p),
                                    ).len() implies exists|j: int|
                                    0 <= j < Node::children_entries(cs0).len() && (
                                    #[trigger] Node::children_entries(cs0.remove(p))[i])
                                        == Node::children_entries(cs0)[j] by {
                                    let whole2 = Node::children_entries(cs0.remove(p));
                                    let whole0 = Node::children_entries(cs0);
                                    if i < a.len() {
                                        assert(whole2[i] == a[i]);
                                        assert(whole0[i] == a[i]);
                                    } else {
                                        assert(whole2[i] == b[i - a.len()]);
                                        assert(whole0[x0.len() + i] == b[i - a.len()]);
                                    }
                                }
                            }
                            let n2 = Node::Branch(sa).compress_node(
                                Ghost(depth as nat),
                                Ghost(bits as nat),
                                Ghost(hfn),
                            );
                            (n2, removed)
                        } else {
                            let carc2 = Arc::new(child2);
                            sa.set(index, carc2);
                            let ghost cs2 = sa@;
                            proof {
                                let sa1 = cs0.remove(p);
                                assert(forall|q: int|
                                    0 <= q < sa1.len() ==> (#[trigger] sa1[q]) == cs0[if q < p {
                                        q
                                    } else {
                                        q + 1
                                    }]);
                                assert(forall|q: int|
                                    0 <= q < sa1.len() ==> (#[trigger] sa1[q]).0 != index);
                                let p2 = choose|p2: int|
                                    0 <= p2 <= sa1.len() && cs2 == sa1.insert(p2, (index, carc2))
                                        && (forall|j: int|
                                        0 <= j < p2 ==> (#[trigger] sa1[j]).0 < index) && (forall|
                                        j: int,
                                    |
                                        p2 <= j < sa1.len() ==> (#[trigger] sa1[j]).0 > index);
                                assert(p2 == p) by {
                                    if p2 < p {
                                        assert(sa1[p2].0 == cs0[p2].0);
                                        assert(cs0[p2].0 < cs0[p].0);
                                    } else if p2 > p {
                                        assert(sa1[p].0 == cs0[p + 1].0);
                                        assert(cs0[p].0 < cs0[p + 1].0);
                                    }
                                }
                                assert(cs2 =~= cs0.update(p, (index, carc2)));
                                assert(nth_child(cs2, p) == child2);
                                lemma_branch_replace(
                                    cs0,
                                    cs2,
                                    p,
                                    depth as nat,
                                    bits as nat,
                                    hfn,
                                    kv,
                                );
                                let a = Node::children_entries(cs0.take(p));
                                let x0 = nth_child(cs0, p).entries();
                                let x2 = child2.entries();
                                let b = Node::children_entries(cs0.skip(p + 1));
                                lemma_em_dom(a, kv);
                                lemma_em_dom(b, kv);
                                lemma_em_dom(x0, kv);
                                assert(entries_map(Node::children_entries(cs2))
                                    =~= entries_map(Node::children_entries(cs0)).remove(kv));
                                assert(orig.as_map().contains_key(kv) == entries_map(
                                    x0,
                                ).contains_key(kv));
                                assert(Node::children_entries(cs2).len() == a.len() + x2.len()
                                    + b.len());
                                assert(Node::children_entries(cs0).len() == a.len() + x0.len()
                                    + b.len());
                                // well-formedness of the rebuilt branch
                                assert forall|q: int| 0 <= q < cs2.len() implies (
                                #[trigger] cs2[q]).1.node_wf(depth as nat + 1, bits as nat, hfn)
                                    && cs2[q].1.child_ok() && all_digits(
                                    cs2[q].1.entries(),
                                    cs2[q].0,
                                    depth as nat,
                                    bits as nat,
                                ) by {
                                    if q != p {
                                        assert(cs2[q] == cs0[q]);
                                    } else {
                                        assert(nth_child(cs2, p) == child2);
                                        assert(nth_child(cs0, p).child_ok());
                                        assert(child2.entries().len() >= 1);
                                        assert(child2.child_ok());
                                        assert forall|e: int|
                                            0 <= e < child2.entries().len() implies digit_of(
                                            (#[trigger] child2.entries()[e]).key_hash,
                                            depth as nat,
                                            bits as nat,
                                        ) == index by {
                                            let j = choose|j: int|
                                                0 <= j < child.entries().len() && (
                                                #[trigger] child2.entries()[e])
                                                    == child.entries()[j];
                                            assert(digit_of(
                                                child.entries()[j].key_hash,
                                                depth as nat,
                                                bits as nat,
                                            ) == index);
                                        }
                                    }
                                }
                                // every remaining entry was present before
                                assert forall|i: int|
                                    0 <= i < Node::children_entries(cs2).len() implies exists|
                                    j: int,
                                |
                                    0 <= j < Node::children_entries(cs0).len() && (
                                    #[trigger] Node::children_entries(cs2)[i])
                                        == Node::children_entries(cs0)[j] by {
                                    let whole2 = Node::children_entries(cs2);
                                    let whole0 = Node::children_entries(cs0);
                                    if i < a.len() {
                                        assert(whole2[i] == a[i]);
                                        assert(whole0[i] == a[i]);
                                    } else if i < a.len() + x2.len() {
                                        assert(whole2[i] == x2[i - a.len()]);
                                        let j = choose|j: int|
                                            0 <= j < x0.len() && (#[trigger] x2[i - a.len()])
                                                == x0[j];
                                        assert(whole0[a.len() + j] == x0[j]);
                                    } else {
                                        assert(whole2[i] == b[i - a.len() - x2.len()]);
                                        assert(whole0[a.len() + x0.len() + (i - a.len()
                                            - x2.len())] == b[i - a.len() - x2.len()]);
                                    }
                                }
                            }
                            let n = Node::Branch(sa);
                            if removed {
                                let n2 = n.compress_node(
                                    Ghost(depth as nat),
                                    Ghost(bits as nat),
                                    Ghost(hfn),
                                );
                                (n2, removed)
                            } else {
                                (n, removed)
                            }
                        }
                    },
                }
            },
        }
    }
}

/// With pairwise distinct keys, the entries and the map they denote are
/// in exact correspondence.
pub(crate) proof fn lemma_em_props<K: MapKey, V>(s: Seq<EntryWithHash<K, V>>)
    requires
        distinct_keys(s),
    ensures
        entries_map(s).dom().finite(),
        entries_map(s).len() == s.len(),
        forall|i: int|
            0 <= i < s.len() ==> entries_map(s).contains_key((#[trigger] s[i]).k())
                && entries_map(s)[s[i].k()] == s[i].val(),
        forall|k: K::V| entries_map(s).contains_key(k) ==> has_key(s, k),
    decreases s.len(),
{
    if s.len() > 0 {
        let tail = s.drop_first();
        assert(forall|i: int| 0 <= i < tail.len() ==> (#[trigger] tail[i]) == s[i + 1]);
        lemma_em_props(tail);
        lemma_em_dom(tail, s[0].k());
        assert(!has_key(tail, s[0].k())) by {
            if has_key(tail, s[0].k()) {
                let i = choose|i: int| 0 <= i < tail.len() && (#[trigger] tail[i]).k() == s[0].k();
                assert(s[i + 1].k() == s[0].k());
            }
        }
        assert(entries_map(s).dom() =~= entries_map(tail).dom().insert(s[0].k()));
        assert forall|i: int| 0 <= i < s.len() implies entries_map(s).contains_key(
            (#[trigger] s[i]).k(),
        ) && entries_map(s)[s[i].k()] == s[i].val() by {
            if i > 0 {
                assert(tail[i - 1] == s[i]);
                assert(s[i].k() != s[0].k());
            }
        }
        assert forall|k: K::V| entries_map(s).contains_key(k) implies has_key(s, k) by {
            lemma_em_dom(s, k);
        }
    }
}

impl<K: MapKey, V> Node<K, V> {
    /// The part of well-formedness that iteration rests on: every child of
    /// a branch has at least one entry beneath it, and a collision chain
    /// is never empty.
    pub(crate) open spec fn node_shape(self) -> bool
        decreases self,
    {
        match self {
            Node::Leaf(b) => match b {
                Bucket::Single(_) => true,
                Bucket::Collision(l) => l@.len() >= 1,
            },
            Node::Branch(sa) => forall|p: int|
                0 <= p < sa@.len() ==> (#[trigger] sa@[p]).1.node_shape() && sa@[p].1.entries().len()
                    >= 1,
        }
    }
}

/// A well-formed subtree has the shape that iteration rests on.
pub(crate) proof fn lemma_wf_shape<K: MapKey, V>(
    n: Node<K, V>,
    depth: nat,
    bits: nat,
    hfn: spec_fn(K::V) -> u64,
)
    requires
        n.node_wf(depth, bits, hfn),
    ensures
        n.node_shape(),
    decreases n,
{
    match n {
        Node::Leaf(b) => {},
        Node::Branch(sa) => {
            assert forall|p: int|
                0 <= p < sa@.len() implies (#[trigger] sa@[p]).1.node_shape()
                && sa@[p].1.entries().len() >= 1 by {
                lemma_wf_shape(nth_child(sa@, p), depth + 1, bits, hfn);
                assert(nth_child(sa@, p).child_ok());
            }
        },
    }
}

/// The entries as (key view, value) pairs, the form the iterator hands
/// out.
pub(crate) open spec fn entry_pairs<K: MapKey, V>(s: Seq<EntryWithHash<K, V>>) -> Seq<(K::V, V)> {
    Seq::new(s.len(), |i: int| (s[i].k(), s[i].val()))
}

} // verus!
