//! The map handle: it owns the root node, the entry count, the branching
//! degree and the hash provider, and exposes the public operations.
//!
//! A handle's view is the finite map it denotes.  Pure operations clone
//! the handle (one reference bump) and mutate the clone; in-place
//! operations rebuild only the path from the root to the touched leaf,
//! taking each node out of its shared pointer without a copy when the
//! handle holds the only reference to it.

use crate::keys::DefaultHashProvider;
use crate::keys::HashProvider;
use crate::keys::MapKey;
use crate::iter::IterPtr;
use crate::keys::MapValue;
use crate::node::Entry;
use crate::node::EntryWithHash;
use crate::node::Node;
use crate::node::bits_of_degree;
use crate::node::degree_bits;
use crate::node::entries_map;
use crate::node::has_digit;
use crate::node::has_key;
use crate::node::lemma_em_props;
use crate::node::entry_pairs;
use crate::node::lemma_node_entries_sound;
use crate::node::lemma_wf_shape;
use crate::node::node_of;
use crate::node::valid_degree;
use crate::shared_ptr::arc_dup;
use std::sync::Arc;
use vstd::pervasive::cloned;
use vstd::prelude::*;

verus! {

/// The branching degree used when none is given: one hash digit per level
/// is as wide as a machine word's bit count.
pub const DEFAULT_DEGREE: u8 = 64;

/// A persistent map with structural sharing, implemented as a hash array
/// mapped trie over the 64-bit hashes that the provider assigns to keys.
pub struct HashTrieMap<K: MapKey, V, H: HashProvider<K> = DefaultHashProvider> {
    root: Arc<Node<K, V>>,
    size: usize,
    degree: u8,
    hasher_builder: H,
}

/// The map handle for sharing across threads.  Nodes are held through
/// atomically reference-counted pointers, so one and the same handle type
/// serves both uses.
pub type HashTrieMapSync<K, V, H = DefaultHashProvider> = HashTrieMap<K, V, H>;

impl<K: MapKey, V, H: HashProvider<K>> View for HashTrieMap<K, V, H> {
    type V = Map<K::V, V>;

    closed spec fn view(&self) -> Map<K::V, V> {
        node_of(self.root).as_map()
    }
}

impl<K: MapKey, V, H: HashProvider<K>> HashTrieMap<K, V, H> {
    /// The hash function of this handle's provider.
    pub(crate) closed spec fn hash_fn(self) -> spec_fn(K::V) -> u64 {
        |k: K::V| self.hasher_builder.hash_spec(k)
    }

    /// The handle's branching degree.
    pub closed spec fn spec_degree(self) -> u8 {
        self.degree
    }

    /// The entries of the map in traversal order, as (key view, value)
    /// pairs.
    pub closed spec fn entries_seq(self) -> Seq<(K::V, V)> {
        Seq::new(
            node_of(self.root).entries().len(),
            |i: int|
                (node_of(self.root).entries()[i].k(), node_of(self.root).entries()[i].val()),
        )
    }

    /// The handle is sound: the degree is accepted, the trie is
    /// well-formed against the provider's hash function, and the counter
    /// holds the number of entries.
    pub closed spec fn well_formed(self) -> bool {
        &&& valid_degree(self.degree)
        &&& node_of(self.root).node_wf(0, degree_bits(self.degree) as nat, self.hash_fn())
        &&& self.size == node_of(self.root).entries().len()
    }

    /// The entries of a well-formed handle enumerate its view exactly:
    /// one entry per binding, keys pairwise distinct, every entry a
    /// binding of the view and every binding of the view among the
    /// entries.
    pub proof fn lemma_entries_complete(self)
        requires
            self.well_formed(),
        ensures
            self.entries_seq().len() == self@.len(),
            self@.dom().finite(),
            forall|i: int, j: int|
                0 <= i < j < self.entries_seq().len() ==> (#[trigger] self.entries_seq()[i]).0 != (
                #[trigger] self.entries_seq()[j]).0,
            forall|i: int|
                0 <= i < self.entries_seq().len() ==> self@.contains_key(
                    (#[trigger] self.entries_seq()[i]).0,
                ) && self@[self.entries_seq()[i].0] == self.entries_seq()[i].1,
            forall|k: K::V|
                self@.contains_key(k) ==> exists|i: int|
                    0 <= i < self.entries_seq().len() && (#[trigger] self.entries_seq()[i]) == (
                    k,
                    self@[k],
                ),
    {
        let s = node_of(self.root).entries();
        lemma_node_entries_sound(
            node_of(self.root),
            0,
            degree_bits(self.degree) as nat,
            self.hash_fn(),
        );
        lemma_em_props(s);
        assert forall|k: K::V| self@.contains_key(k) implies exists|i: int|
            0 <= i < self.entries_seq().len() && (#[trigger] self.entries_seq()[i]) == (
            k,
            self@[k],
        ) by {
            assert(has_key(s, k));
            let i = choose|i: int| 0 <= i < s.len() && (#[trigger] s[i]).k() == k;
            assert(0 <= i < s.len() && s[i].k() == k);
            assert(self.entries_seq()[i] == (s[i].k(), s[i].val()));
            assert(entries_map(s)[s[i].k()] == s[i].val());
            assert(self.entries_seq()[i] == (k, self@[k]));
        }
    }

    /// The number of entries equals the size of the view.
    proof fn lemma_size_is_view_len(self)
        requires
            self.well_formed(),
        ensures
            node_of(self.root).entries().len() == self@.len(),
            self@.dom().finite(),
    {
        lemma_node_entries_sound(
            node_of(self.root),
            0,
            degree_bits(self.degree) as nat,
            self.hash_fn(),
        );
        lemma_em_props(node_of(self.root).entries());
    }

    /// Builds an empty map from a hash provider and a branching degree.
    /// The pointer-kind slot the name speaks of is fixed here: nodes are
    /// always held through atomically reference-counted pointers.
    pub fn new_with_hasher_and_degree_and_ptr_kind(hasher_builder: H, degree: u8) -> (r: Self)
        requires
            valid_degree(degree),
        ensures
            r.well_formed(),
            r@ == Map::<K::V, V>::empty(),
            r.spec_degree() == degree,
    {
        let root = Arc::new(Node::new_empty_branch());
        let r = HashTrieMap { root, size: 0, degree, hasher_builder };
        proof {
            assert(has_digit(0, degree_bits(degree) as nat));
            assert(node_of(r.root).node_wf(0, degree_bits(degree) as nat, r.hash_fn()));
            assert(r@ =~= Map::<K::V, V>::empty());
        }
        r
    }

    /// Builds an empty map from a hash provider, with the default degree.
    pub fn new_with_hasher_and_ptr_kind(hasher_builder: H) -> (r: Self)
        ensures
            r.well_formed(),
            r@ == Map::<K::V, V>::empty(),
            r.spec_degree() == DEFAULT_DEGREE,
    {
        Self::new_with_hasher_and_degree_and_ptr_kind(hasher_builder, DEFAULT_DEGREE)
    }

    /// Looks a key up.
    pub fn get<'a>(&'a self, key: &K) -> (r: Option<&'a V>)
        requires
            self.well_formed(),
        ensures
            match r {
                Option::Some(v) => self@.contains_key(key@) && *v == self@[key@],
                Option::None => !self@.contains_key(key@),
            },
    {
        let key_hash = self.hasher_builder.hash(key);
        let bits = bits_of_degree(self.degree);
        let node: &Node<K, V> = &self.root;
        match node.get(key, key_hash, 0, bits, Ghost(self.hash_fn())) {
            Option::Some(e) => Option::Some(e.value()),
            Option::None => Option::None,
        }
    }

    /// Whether the map holds the key.
    pub fn contains_key(&self, key: &K) -> (r: bool)
        requires
            self.well_formed(),
        ensures
            r == self@.contains_key(key@),
    {
        self.get(key).is_some()
    }

    /// The number of entries.
    pub fn size(&self) -> (r: usize)
        requires
            self.well_formed(),
        ensures
            r == self@.len(),
    {
        proof {
            self.lemma_size_is_view_len();
        }
        self.size
    }

    /// Whether the map has no entries.
    pub fn is_empty(&self) -> (r: bool)
        requires
            self.well_formed(),
        ensures
            r == (self@.len() == 0),
    {
        self.size() == 0
    }

    /// Inserts a binding in place, replacing any binding the key had.
    /// Nodes along the path are reused when this handle holds their only
    /// reference and copied otherwise, so other handles are unaffected.
    pub fn insert_mut(&mut self, key: K, value: V)
        requires
            old(self).well_formed(),
            old(self)@.contains_key(key@) || old(self)@.len() < usize::MAX,
        ensures
            final(self).well_formed(),
            final(self)@ == old(self)@.insert(key@, value),
            final(self).spec_degree() == old(self).spec_degree(),
    {
        proof {
            old(self).lemma_size_is_view_len();
        }
        let key_hash = self.hasher_builder.hash(&key);
        let bits = bits_of_degree(self.degree);
        let entry = EntryWithHash::new(key, value, key_hash);
        let mut root_arc = Arc::new(Node::new_empty_branch());
        core::mem::swap(&mut self.root, &mut root_arc);
        let node = Node::take_node(root_arc, Ghost(0nat), Ghost(bits as nat), Ghost(self.hash_fn()));
        let (node2, is_new) = node.insert(entry, 0, bits, Ghost(self.hash_fn()));
        self.root = Arc::new(node2);
        if is_new {
            self.size = self.size + 1;
        }
    }

    /// Removes a key in place, with the same copy-on-write discipline as
    /// `insert_mut`.  Returns whether the key was present.
    pub fn remove_mut(&mut self, key: &K) -> (removed: bool)
        requires
            old(self).well_formed(),
        ensures
            final(self).well_formed(),
            final(self)@ == old(self)@.remove(key@),
            removed == old(self)@.contains_key(key@),
            final(self).spec_degree() == old(self).spec_degree(),
    {
        proof {
            old(self).lemma_size_is_view_len();
        }
        let key_hash = self.hasher_builder.hash(key);
        let bits = bits_of_degree(self.degree);
        let mut root_arc = Arc::new(Node::new_empty_branch());
        core::mem::swap(&mut self.root, &mut root_arc);
        let node = Node::take_node(root_arc, Ghost(0nat), Ghost(bits as nat), Ghost(self.hash_fn()));
        let (node2, removed) = node.remove(key, key_hash, 0, bits, Ghost(self.hash_fn()));
        proof {
            if node2.entries().len() == 0 {
                assert(node2.empty_shape());
                let sa = node2->Branch_0;
                assert(node2.node_wf(0, degree_bits(self.degree) as nat, self.hash_fn()));
            }
        }
        self.root = Arc::new(node2);
        if removed {
            self.size = self.size - 1;
        }
        removed
    }

    /// A new map with the binding added; this handle is left unchanged
    /// and shares all untouched nodes with the result.
    pub fn insert(&self, key: K, value: V) -> (r: Self)
        requires
            self.well_formed(),
            self@.contains_key(key@) || self@.len() < usize::MAX,
        ensures
            r.well_formed(),
            r@ == self@.insert(key@, value),
            r.spec_degree() == self.spec_degree(),
    {
        let mut new_map = self.clone();
        new_map.insert_mut(key, value);
        new_map
    }

    /// A new map with the key removed; this handle is left unchanged.  On
    /// a map without the key the result is a plain clone of this handle,
    /// which keeps sharing maximal.
    pub fn remove(&self, key: &K) -> (r: Self)
        requires
            self.well_formed(),
        ensures
            r.well_formed(),
            r@ == self@.remove(key@),
            r.spec_degree() == self.spec_degree(),
    {
        let mut new_map = self.clone();
        if new_map.remove_mut(key) {
            new_map
        } else {
            proof {
                assert(self@.remove(key@) =~= self@);
            }
            self.clone()
        }
    }

    /// The value of a key the map is known to hold.
    pub fn index<'a>(&'a self, key: &K) -> (r: &'a V)
        requires
            self.well_formed(),
            self@.contains_key(key@),
        ensures
            *r == self@[key@],
    {
        let got = self.get(key);
        got.unwrap()
    }
}

impl<K: MapKey, V, H: HashProvider<K>> Clone for HashTrieMap<K, V, H> {
    /// An independent handle of the same map: the root is shared, so the
    /// clone costs one reference bump, and mutating either handle leaves
    /// the other's view unchanged.
    fn clone(&self) -> (res: Self)
        ensures
            res@ == self@,
            self.well_formed() ==> res.well_formed(),
            res.spec_degree() == self.spec_degree(),
            res.entries_seq() == self.entries_seq(),
    {
        let res = HashTrieMap {
            root: arc_dup(&self.root),
            size: self.size,
            degree: self.degree,
            hasher_builder: self.hasher_builder.duplicate(),
        };
        proof {
            assert(res.hash_fn() =~= self.hash_fn());
        }
        res
    }
}

impl<K: MapKey, V> HashTrieMap<K, V, DefaultHashProvider> where
    DefaultHashProvider: HashProvider<K>,
 {
    /// An empty map with the default hash provider and degree.
    pub fn new() -> (r: Self)
        ensures
            r.well_formed(),
            r@ == Map::<K::V, V>::empty(),
            r.spec_degree() == DEFAULT_DEGREE,
    {
        Self::new_with_hasher_and_degree_and_ptr_kind(DefaultHashProvider, DEFAULT_DEGREE)
    }

    /// An empty map with the default hash provider and the given degree,
    /// which must be a power of two no wider than the 64-bit hash.
    pub fn new_with_degree(degree: u8) -> (r: Self)
        requires
            valid_degree(degree),
        ensures
            r.well_formed(),
            r@ == Map::<K::V, V>::empty(),
            r.spec_degree() == degree,
    {
        Self::new_with_hasher_and_degree_and_ptr_kind(DefaultHashProvider, degree)
    }

    /// An empty thread-shareable map; the same representation, under the
    /// name the original API offers for it.
    pub fn new_sync() -> (r: HashTrieMapSync<K, V>)
        ensures
            r.well_formed(),
            r@ == Map::<K::V, V>::empty(),
            r.spec_degree() == DEFAULT_DEGREE,
    {
        Self::new()
    }

    /// An empty thread-shareable map with the given degree.
    pub fn new_sync_with_degree(degree: u8) -> (r: HashTrieMapSync<K, V>)
        requires
            valid_degree(degree),
        ensures
            r.well_formed(),
            r@ == Map::<K::V, V>::empty(),
            r.spec_degree() == degree,
    {
        Self::new_with_degree(degree)
    }
}

/// Whether a degree is accepted by the constructors: a power of two
/// between 2 and 64.
pub fn is_valid_degree(degree: u8) -> (r: bool)
    ensures
        r == valid_degree(degree),
{
    degree == 2 || degree == 4 || degree == 8 || degree == 16 || degree == 32 || degree == 64
}

impl<K: MapKey, V, H: HashProvider<K>> HashTrieMap<K, V, H> {
    /// A fresh iterator over the entries.  It shares the trie with this
    /// handle, which stays usable; the entries come in traversal order.
    pub fn iter(&self) -> (it: IterPtr<K, V>)
        requires
            self.well_formed(),
        ensures
            it.inv(),
            it.remaining() == self.entries_seq(),
    {
        proof {
            lemma_wf_shape(
                node_of(self.root),
                0,
                degree_bits(self.degree) as nat,
                self.hash_fn(),
            );
            assert(self.entries_seq() =~= entry_pairs(node_of(self.root).entries()));
        }
        IterPtr::new_from_root(&self.root, self.size)
    }

    /// The keys of the map, in traversal order.
    #[verifier::loop_isolation(false)]
    pub fn keys(&self) -> (r: Vec<K>)
        requires
            self.well_formed(),
        ensures
            r@.len() == self@.len(),
            forall|i: int| 0 <= i < r@.len() ==> (#[trigger] r@[i])@ == self.entries_seq()[i].0,
    {
        proof {
            self.lemma_entries_complete();
        }
        let ghost es = self.entries_seq();
        let mut it = self.iter();
        let mut out: Vec<K> = Vec::new();
        let mut done = false;
        while !done
            invariant
                it.inv(),
                out@.len() <= es.len(),
                it.remaining() == es.skip(out@.len() as int),
                forall|i: int| 0 <= i < out@.len() ==> (#[trigger] out@[i])@ == es[i].0,
                done ==> out@.len() == es.len(),
            decreases es.len() - out@.len() + (if done {
                0int
            } else {
                1int
            }),
        {
            match it.next() {
                Option::None => {
                    done = true;
                },
                Option::Some(ent) => {
                    proof {
                        assert(es.skip(out@.len() as int)[0] == es[out@.len() as int]);
                        assert(es.skip(out@.len() as int).drop_first() =~= es.skip(
                            out@.len() as int + 1,
                        ));
                    }
                    let e: &Entry<K, V> = &ent;
                    out.push(e.key.key_dup());
                },
            }
        }
        out
    }

}

impl<K: MapKey, V: Clone, H: HashProvider<K>> HashTrieMap<K, V, H> {
    /// The values of the map, in traversal order, produced by cloning.
    #[verifier::loop_isolation(false)]
    pub fn values(&self) -> (r: Vec<V>)
        requires
            self.well_formed(),
        ensures
            r@.len() == self@.len(),
            forall|i: int|
                0 <= i < r@.len() ==> cloned::<V>(self.entries_seq()[i].1, #[trigger] r@[i]),
    {
        proof {
            self.lemma_entries_complete();
        }
        let ghost es = self.entries_seq();
        let mut it = self.iter();
        let mut out: Vec<V> = Vec::new();
        let mut done = false;
        while !done
            invariant
                it.inv(),
                out@.len() <= es.len(),
                it.remaining() == es.skip(out@.len() as int),
                forall|i: int| 0 <= i < out@.len() ==> cloned::<V>(es[i].1, #[trigger] out@[i]),
                done ==> out@.len() == es.len(),
            decreases es.len() - out@.len() + (if done {
                0int
            } else {
                1int
            }),
        {
            match it.next() {
                Option::None => {
                    done = true;
                },
                Option::Some(ent) => {
                    proof {
                        assert(es.skip(out@.len() as int)[0] == es[out@.len() as int]);
                        assert(es.skip(out@.len() as int).drop_first() =~= es.skip(
                            out@.len() as int + 1,
                        ));
                    }
                    let e: &Entry<K, V> = &ent;
                    out.push(e.value.clone());
                },
            }
        }
        out
    }
}

impl<K: MapKey, V: MapValue, H: HashProvider<K>> HashTrieMap<K, V, H> {
    /// Whether the two maps hold the same bindings, whatever the shapes
    /// of their tries and whatever providers built them.
    #[verifier::loop_isolation(false)]
    pub fn equals<H2: HashProvider<K>>(&self, other: &HashTrieMap<K, V, H2>) -> (r: bool)
        requires
            self.well_formed(),
            other.well_formed(),
        ensures
            r == (self@ == other@),
    {
        proof {
            self.lemma_entries_complete();
            other.lemma_entries_complete();
        }
        let n1 = self.size();
        let n2 = other.size();
        if n1 != n2 {
            proof {
                if self@ == other@ {
                    assert(self@.len() == other@.len());
                }
            }
            return false;
        }
        let ghost es = self.entries_seq();
        let mut it = self.iter();
        let mut i: usize = 0;
        let mut ok = true;
        while ok && i < n1
            invariant
                it.inv(),
                i <= n1,
                ok ==> it.remaining() == es.skip(i as int),
                ok ==> forall|j: int|
                    0 <= j < i ==> other@.contains_key((#[trigger] es[j]).0) && other@[es[j].0]
                        == es[j].1,
                !ok ==> self@ != other@,
            decreases n1 - i, (if ok {
                1int
            } else {
                0int
            }),
        {
            match it.next() {
                Option::None => {
                    proof {
                        assert(false);
                    }
                    ok = false;
                },
                Option::Some(ent) => {
                    proof {
                        assert(es.skip(i as int)[0] == es[i as int]);
                        assert(es.skip(i as int).drop_first() =~= es.skip(i as int + 1));
                        assert((ent.key@, ent.value) == es[i as int]);
                    }
                    let e: &Entry<K, V> = &ent;
                    match other.get(&e.key) {
                        Option::Some(v2) => {
                            if e.value.val_eq(v2) {
                                i = i + 1;
                            } else {
                                proof {
                                    assert(self@.contains_key(es[i as int].0));
                                    assert(self@[es[i as int].0] == es[i as int].1);
                                    assert(other@[es[i as int].0] == *v2);
                                    assert(self@ != other@);
                                }
                                ok = false;
                            }
                        },
                        Option::None => {
                            proof {
                                assert(self@.contains_key(es[i as int].0));
                                assert(self@ != other@);
                            }
                            ok = false;
                        },
                    }
                },
            }
        }
        proof {
            if ok {
                assert(i == n1);
                assert(self@.dom().subset_of(other@.dom())) by {
                    assert forall|k: K::V| self@.dom().contains(k) implies other@.dom().contains(
                        k,
                    ) by {
                        let j = choose|j: int|
                            0 <= j < es.len() && (#[trigger] es[j]) == (k, self@[k]);
                        assert(other@.contains_key(es[j].0));
                    }
                }
                vstd::set_lib::lemma_subset_equality(self@.dom(), other@.dom());
                assert(self@ =~= other@) by {
                    assert forall|k: K::V| self@.dom().contains(k) implies self@[k]
                        == other@[k] by {
                        let j = choose|j: int|
                            0 <= j < es.len() && (#[trigger] es[j]) == (k, self@[k]);
                        assert(other@[es[j].0] == es[j].1);
                    }
                }
            }
        }
        ok
    }
}

/// The map a sequence of pairs denotes: a later pair for a key
/// overwrites an earlier one.
pub open spec fn map_of_pairs<K: MapKey, V>(s: Seq<(K, V)>) -> Map<K::V, V>
    decreases s.len(),
{
    if s.len() == 0 {
        Map::empty()
    } else {
        map_of_pairs(s.drop_last()).insert(s.last().0@, s.last().1)
    }
}

/// The key views of the pairs are pairwise distinct.
pub open spec fn distinct_pair_keys<K: MapKey, V>(s: Seq<(K, V)>) -> bool {
    forall|i: int, j: int| 0 <= i < j < s.len() ==> (#[trigger] s[i]).0@ != (#[trigger] s[j]).0@
}

impl<K: MapKey, V, H: HashProvider<K>> HashTrieMap<K, V, H> {
    /// Builds a map from a sequence of pairs, front to back, so a later
    /// pair for a key overwrites an earlier one.
    #[verifier::loop_isolation(false)]
    pub fn from_entries(hasher_builder: H, entries: Vec<(K, V)>) -> (r: Self)
        requires
            entries@.len() < usize::MAX,
        ensures
            r.well_formed(),
            r@ == map_of_pairs(entries@),
            r.spec_degree() == DEFAULT_DEGREE,
    {
        let ghost all = entries@;
        let mut rest = entries;
        let mut m = Self::new_with_hasher_and_ptr_kind(hasher_builder);
        let ghost j: int = 0;
        proof {
            assert(all.take(0) =~= Seq::<(K, V)>::empty());
        }
        while rest.len() > 0
            invariant
                0 <= j <= all.len(),
                rest@ == all.skip(j),
                m.well_formed(),
                m@ == map_of_pairs(all.take(j)),
                m@.len() <= j,
                m.spec_degree() == DEFAULT_DEGREE,
            decreases rest@.len(),
        {
            let (k, v) = rest.remove(0);
            proof {
                assert((k, v) == all[j]);
                crate::laws::lemma_insert_size(m, k, v);
                assert(all.take(j + 1).drop_last() =~= all.take(j));
                assert(all.take(j + 1).last() == all[j]);
                assert(rest@ =~= all.skip(j + 1));
            }
            m.insert_mut(k, v);
            proof {
                j = j + 1;
            }
        }
        proof {
            assert(all.take(j) =~= all);
        }
        m
    }
}

} // verus!
