//! The external iterator over a map's entries: an explicit stack of
//! per-level frames walks the trie in ascending-index pre-order without
//! recursion.  `dig` descends until an entry is exposed on top, `advance`
//! consumes it and backtracks; the sequence is produced lazily, one entry
//! per `next` call.

use crate::keys::MapKey;
use crate::list::List;
use crate::node::Bucket;
use crate::node::Entry;
use crate::node::EntryWithHash;
use crate::node::Node;
use crate::node::entry_pairs;
use crate::node::lemma_ce_concat;
use crate::node::node_of;
use crate::shared_ptr::arc_dup;
use std::sync::Arc;
use vstd::prelude::*;

verus! {

broadcast use vstd::std_specs::vec::group_vec_axioms,
    crate::sparse_array_usize::SparseArrayUsize::lemma_view_decreases;

/// One level of the traversal: a branch with the position of the child
/// being walked, a single-entry leaf, or the not-yet-consumed suffix of a
/// collision chain.
enum IterStackElement<K: MapKey, V> {
    Branch(Arc<Node<K, V>>, usize),
    LeafSingle(EntryWithHash<K, V>),
    LeafCollision(List<EntryWithHash<K, V>>),
}

/// The children of a branch node.
spec fn branch_cs<K: MapKey, V>(n: Node<K, V>) -> Seq<(usize, Arc<Node<K, V>>)> {
    n->Branch_0@
}

/// The entries a frame has not yet produced, its own subtree only.
spec fn frame_rest<K: MapKey, V>(f: IterStackElement<K, V>) -> Seq<EntryWithHash<K, V>> {
    match f {
        IterStackElement::Branch(n, pos) => Node::children_entries(
            branch_cs(node_of(n)).skip(pos as int),
        ),
        IterStackElement::LeafSingle(e) => seq![e],
        IterStackElement::LeafCollision(l) => l@,
    }
}

/// The entries a frame still owes once its current child is done.
spec fn frame_leftover<K: MapKey, V>(f: IterStackElement<K, V>) -> Seq<EntryWithHash<K, V>> {
    match f {
        IterStackElement::Branch(n, pos) => Node::children_entries(
            branch_cs(node_of(n)).skip(pos as int + 1),
        ),
        IterStackElement::LeafSingle(_) => Seq::empty(),
        IterStackElement::LeafCollision(_) => Seq::empty(),
    }
}

/// Soundness of one frame.
spec fn frame_inv<K: MapKey, V>(f: IterStackElement<K, V>) -> bool {
    match f {
        IterStackElement::Branch(n, pos) => {
            &&& node_of(n) is Branch
            &&& (pos as int) < branch_cs(node_of(n)).len()
            &&& node_of(n).node_shape()
        },
        IterStackElement::LeafSingle(_) => true,
        IterStackElement::LeafCollision(l) => l@.len() >= 1,
    }
}

/// What the frames above the top still owe, nearest parent first.
spec fn parents_leftover<K: MapKey, V>(s: Seq<IterStackElement<K, V>>) -> Seq<
    EntryWithHash<K, V>,
>
    decreases s.len(),
{
    if s.len() == 0 {
        Seq::empty()
    } else {
        frame_leftover(s.last()) + parents_leftover(s.drop_last())
    }
}

/// All entries the stack has not yet produced, in traversal order.
spec fn stack_rest<K: MapKey, V>(s: Seq<IterStackElement<K, V>>) -> Seq<EntryWithHash<K, V>> {
    if s.len() == 0 {
        Seq::empty()
    } else {
        frame_rest(s.last()) + parents_leftover(s.drop_last())
    }
}

/// The subtree a frame covers or walks.
spec fn frame_node<K: MapKey, V>(f: IterStackElement<K, V>) -> Node<K, V> {
    match f {
        IterStackElement::Branch(n, _) => node_of(n),
        IterStackElement::LeafSingle(e) => Node::Leaf(Bucket::Single(e)),
        IterStackElement::LeafCollision(l) => Node::Leaf(Bucket::Collision(l)),
    }
}

/// The node a digging step descends from.
spec fn top_node<K: MapKey, V>(s: Seq<IterStackElement<K, V>>) -> Node<K, V> {
    frame_node(s.last())
}

/// The stack-based iterator over a map's entries.  It owns cheap shared
/// handles into the trie, so the map handle stays free for further use;
/// the iterator is single-pass and not restartable.
pub struct IterPtr<K: MapKey, V> {
    stack: Vec<IterStackElement<K, V>>,
    size: usize,
}

impl<K: MapKey, V> IterPtr<K, V> {
    /// Frame soundness for the whole stack: every frame below the top is
    /// a branch frame.
    spec fn frames_ok(self) -> bool {
        &&& forall|i: int| 0 <= i < self.stack@.len() ==> frame_inv(#[trigger] self.stack@[i])
        &&& forall|i: int|
            0 <= i < self.stack@.len() - 1 ==> (#[trigger] self.stack@[i]) is Branch
    }

    /// The iterator is sound: frames are sound, an entry is exposed on
    /// top whenever entries remain, and the counter is exact.
    pub closed spec fn inv(self) -> bool {
        &&& self.frames_ok()
        &&& self.stack@.len() > 0 ==> !(self.stack@.last() is Branch)
        &&& self.size == stack_rest(self.stack@).len()
    }

    /// The entries the iterator has not yet produced, as (key view,
    /// value) pairs in the order they will come.
    pub closed spec fn remaining(self) -> Seq<(K::V, V)> {
        entry_pairs(stack_rest(self.stack@))
    }

    /// A fresh frame covering a whole subtree.
    fn new_frame(n: &Arc<Node<K, V>>) -> (f: IterStackElement<K, V>)
        requires
            node_of(*n).node_shape(),
            node_of(*n).entries().len() >= 1,
        ensures
            frame_inv(f),
            frame_rest(f) == node_of(*n).entries(),
            (f is Branch) == (node_of(*n) is Branch),
            frame_node(f) == node_of(*n),
    {
        let node: &Node<K, V> = &*n;
        match node {
            Node::Branch(sa) => {
                proof {
                    if sa@.len() == 0 {
                        assert(Node::children_entries(sa@) =~= Seq::<
                            EntryWithHash<K, V>,
                        >::empty());
                    }
                    assert(sa@.skip(0) =~= sa@);
                }
                IterStackElement::Branch(arc_dup(n), 0)
            },
            Node::Leaf(Bucket::Single(e)) => IterStackElement::LeafSingle(e.dup()),
            Node::Leaf(Bucket::Collision(l)) => IterStackElement::LeafCollision(l.dup()),
        }
    }

    /// Descends from the top frame until an entry is exposed: while the
    /// top frame is a branch, a frame for its current child is pushed.
    fn dig(&mut self)
        requires
            old(self).frames_ok(),
        ensures
            final(self).frames_ok(),
            final(self).stack@.len() > 0 ==> !(final(self).stack@.last() is Branch),
            (final(self).stack@.len() > 0) <==> (old(self).stack@.len() > 0),
            stack_rest(final(self).stack@) == stack_rest(old(self).stack@),
            final(self).size == old(self).size,
    {
        loop
            invariant
                self.frames_ok(),
                (self.stack@.len() > 0) <==> (old(self).stack@.len() > 0),
                stack_rest(self.stack@) == stack_rest(old(self).stack@),
                self.size == old(self).size,
            decreases top_node(self.stack@),
        {
            let len = self.stack.len();
            if len == 0 {
                return ;
            }
            let ghost s0 = self.stack@;
            let next: Option<IterStackElement<K, V>> = {
                let top = &self.stack[len - 1];
                match top {
                    IterStackElement::Branch(n, pos) => {
                        let node: &Node<K, V> = &*n;
                        match node {
                            Node::Branch(sa) => {
                                let ent = sa.entry_at(*pos);
                                let child: &Arc<Node<K, V>> = &ent.1;
                                proof {
                                    assert(node_of(*n).node_shape());
                                    assert(branch_cs(node_of(*n))[*pos as int].1
                                        == sa@[*pos as int].1);
                                }
                                Option::Some(Self::new_frame(child))
                            },
                            Node::Leaf(_) => {
                                proof {
                                    assert(false);
                                }
                                Option::None
                            },
                        }
                    },
                    IterStackElement::LeafSingle(_) => Option::None,
                    IterStackElement::LeafCollision(_) => Option::None,
                }
            };
            match next {
                Option::None => {
                    return ;
                },
                Option::Some(f) => {
                    proof {
                        let top = s0.last();
                        let n = top->Branch_0;
                        let pos = top->Branch_1 as int;
                        let cs = branch_cs(node_of(n));
                        let nn = top_node(s0);
                        assert(decreases_to!(nn => nn->Branch_0));
                        assert(decreases_to!(nn->Branch_0 => cs));
                        assert(decreases_to!(cs => cs[pos]));
                        assert(decreases_to!(cs[pos] => cs[pos].1));
                        assert(frame_node(f) == node_of(cs[pos].1));
                        assert(cs.skip(pos) =~= seq![cs[pos]] + cs.skip(pos + 1));
                        lemma_ce_concat(seq![cs[pos]], cs.skip(pos + 1));
                        assert(Node::children_entries(seq![cs[pos]]) =~= cs[pos].1.entries()) by {
                            assert(seq![cs[pos]].drop_first() =~= Seq::<
                                (usize, Arc<Node<K, V>>),
                            >::empty());
                            assert(Node::children_entries(seq![cs[pos]].drop_first()) =~= Seq::<
                                EntryWithHash<K, V>,
                            >::empty());
                        }
                        assert(frame_rest(top) == cs[pos].1.entries() + frame_leftover(top));
                    }
                    self.stack.push(f);
                    proof {
                        let s2 = self.stack@;
                        assert(s2.last() == f);
                        assert(s2.drop_last() =~= s0);
                        assert(parents_leftover(s0) == frame_leftover(s0.last())
                            + parents_leftover(s0.drop_last()));
                        assert(stack_rest(s2) =~= stack_rest(s0));
                        assert(decreases_to!(top_node(s0) => top_node(s2)));
                    }
                },
            }
        }
    }

    /// Consumes the entry exposed on top and backtracks to expose the
    /// next one, popping finished frames and stepping the nearest branch
    /// frame that still has children left.
    #[verifier::loop_isolation(false)]
    fn advance(&mut self)
        requires
            old(self).frames_ok(),
            old(self).stack@.len() > 0,
            !(old(self).stack@.last() is Branch),
        ensures
            final(self).frames_ok(),
            final(self).stack@.len() > 0 ==> !(final(self).stack@.last() is Branch),
            stack_rest(final(self).stack@) == stack_rest(old(self).stack@).drop_first(),
            final(self).size == old(self).size,
    {
        let ghost target = stack_rest(old(self).stack@).drop_first();
        let ghost s0 = self.stack@;
        let top = match self.stack.pop() {
            Option::Some(t) => t,
            Option::None => {
                proof {
                    assert(false);
                }
                return ;
            },
        };
        match top {
            IterStackElement::LeafCollision(l) => {
                proof {
                    assert(frame_rest(s0.last()) == l@);
                    assert(self.stack@ =~= s0.drop_last());
                }
                let l2 = l.drop_first();
                if !l2.is_empty() {
                    let f = IterStackElement::LeafCollision(l2);
                    proof {
                        assert(frame_rest(f) == l@.drop_first());
                    }
                    self.stack.push(f);
                    proof {
                        assert(self.stack@.drop_last() =~= s0.drop_last());
                        assert(self.stack@.last() == f);
                        assert(stack_rest(self.stack@) =~= target) by {
                            assert(stack_rest(s0) == l@ + parents_leftover(s0.drop_last()));
                            assert((l@ + parents_leftover(s0.drop_last())).drop_first()
                                =~= l@.drop_first() + parents_leftover(s0.drop_last()));
                        }
                        assert(forall|i: int|
                            0 <= i < self.stack@.len() - 1 ==> self.stack@[i] == s0[i]);
                    }
                    return ;
                } else {
                    proof {
                        assert(stack_rest(s0).drop_first() =~= parents_leftover(s0.drop_last()))
                            by {
                            assert(l@.len() == 1);
                            assert(stack_rest(s0) == l@ + parents_leftover(s0.drop_last()));
                        }
                    }
                }
            },
            IterStackElement::LeafSingle(e) => {
                proof {
                    assert(frame_rest(s0.last()) == seq![e]);
                    assert(self.stack@ =~= s0.drop_last());
                    assert(stack_rest(s0).drop_first() =~= parents_leftover(s0.drop_last())) by {
                        assert(stack_rest(s0) == seq![e] + parents_leftover(s0.drop_last()));
                    }
                }
            },
            IterStackElement::Branch(_, _) => {
                proof {
                    assert(false);
                }
            },
        }
        // backtrack: the frames left are all branch frames, and together
        // they owe exactly the entries after the consumed one
        loop
            invariant
                forall|i: int| 0 <= i < self.stack@.len() ==> frame_inv(#[trigger] self.stack@[i]),
                forall|i: int| 0 <= i < self.stack@.len() ==> (#[trigger] self.stack@[i]) is Branch,
                parents_leftover(self.stack@) == target,
                self.size == old(self).size,
            decreases self.stack@.len(),
        {
            let ghost s1 = self.stack@;
            match self.stack.pop() {
                Option::None => {
                    proof {
                        assert(s1.len() == 0);
                        assert(stack_rest(self.stack@) =~= target);
                    }
                    return ;
                },
                Option::Some(f) => {
                    proof {
                        assert(self.stack@ =~= s1.drop_last());
                        assert(parents_leftover(s1) == frame_leftover(s1.last())
                            + parents_leftover(s1.drop_last()));
                    }
                    match f {
                        IterStackElement::Branch(n, pos) => {
                            let node: &Node<K, V> = &n;
                            let cs_len = match node {
                                Node::Branch(sa) => sa.size(),
                                Node::Leaf(_) => {
                                    proof {
                                        assert(false);
                                    }
                                    0
                                },
                            };
                            if pos + 1 < cs_len {
                                let f2 = IterStackElement::Branch(n, pos + 1);
                                proof {
                                    assert(frame_rest(f2) == frame_leftover(
                                        IterStackElement::Branch(n, pos),
                                    ));
                                }
                                self.stack.push(f2);
                                proof {
                                    assert(self.stack@.drop_last() =~= s1.drop_last());
                                    assert(self.stack@.last() == f2);
                                    assert(stack_rest(self.stack@) =~= target);
                                    assert(forall|i: int|
                                        0 <= i < self.stack@.len() - 1 ==> self.stack@[i] == s1[i]);
                                }
                                self.dig();
                                return ;
                            } else {
                                proof {
                                    let csn = branch_cs(node_of(n));
                                    assert(csn.skip(pos + 1) =~= Seq::<
                                        (usize, Arc<Node<K, V>>),
                                    >::empty());
                                    assert(Node::children_entries(csn.skip(pos + 1)) =~= Seq::<
                                        EntryWithHash<K, V>,
                                    >::empty());
                                    assert(frame_leftover(IterStackElement::Branch(n, pos))
                                        =~= Seq::<EntryWithHash<K, V>>::empty());
                                    assert(parents_leftover(self.stack@) =~= target);
                                }
                            }
                        },
                        IterStackElement::LeafSingle(_) => {
                            proof {
                                assert(false);
                            }
                        },
                        IterStackElement::LeafCollision(_) => {
                            proof {
                                assert(false);
                            }
                        },
                    }
                },
            }
        }
    }

    /// Builds an iterator over a subtree with a known entry count.
    pub(crate) fn new_from_root(root: &Arc<Node<K, V>>, size: usize) -> (it: IterPtr<K, V>)
        requires
            node_of(*root).node_shape(),
            size == node_of(*root).entries().len(),
        ensures
            it.inv(),
            it.remaining() == entry_pairs(node_of(*root).entries()),
    {
        let mut it = IterPtr { stack: Vec::new(), size };
        if size > 0 {
            let f = Self::new_frame(root);
            it.stack.push(f);
            proof {
                assert(it.stack@.drop_last() =~= Seq::<IterStackElement<K, V>>::empty());
                assert(it.stack@.last() == f);
                assert(stack_rest(it.stack@) =~= node_of(*root).entries());
            }
            it.dig();
        } else {
            proof {
                assert(stack_rest(it.stack@) =~= Seq::<EntryWithHash<K, V>>::empty());
                assert(it.remaining() =~= entry_pairs(node_of(*root).entries()));
            }
        }
        it
    }

    /// Produces the next entry, or nothing once the iterator is spent.
    pub fn next(&mut self) -> (r: Option<Arc<Entry<K, V>>>)
        requires
            old(self).inv(),
        ensures
            final(self).inv(),
            match r {
                Option::Some(ent) => {
                    &&& old(self).remaining().len() > 0
                    &&& (ent.key@, ent.value) == old(self).remaining()[0]
                    &&& final(self).remaining() == old(self).remaining().drop_first()
                },
                Option::None => {
                    &&& old(self).remaining().len() == 0
                    &&& final(self).remaining() == old(self).remaining()
                },
            },
    {
        let len = self.stack.len();
        if len == 0 {
            proof {
                assert(stack_rest(self.stack@) =~= Seq::<EntryWithHash<K, V>>::empty());
            }
            return Option::None;
        }
        let ghost rest0 = stack_rest(self.stack@);
        let current: Arc<Entry<K, V>> = {
            let top = &self.stack[len - 1];
            match top {
                IterStackElement::LeafSingle(e) => {
                    proof {
                        assert(frame_rest(self.stack@.last())[0] == *e);
                    }
                    arc_dup(&e.entry)
                },
                IterStackElement::LeafCollision(l) => {
                    match l.first() {
                        Option::Some(er) => {
                            proof {
                                assert(frame_rest(self.stack@.last())[0] == *er);
                            }
                            arc_dup(&er.entry)
                        },
                        Option::None => {
                            proof {
                                assert(false);
                            }
                            return Option::None;
                        },
                    }
                },
                IterStackElement::Branch(_, _) => {
                    proof {
                        assert(false);
                    }
                    return Option::None;
                },
            }
        };
        proof {
            assert(rest0[0] == stack_rest(self.stack@)[0]);
            assert((current.key@, current.value) == entry_pairs(rest0)[0]);
        }
        self.advance();
        self.size = self.size - 1;
        proof {
            assert(entry_pairs(rest0.drop_first()) =~= entry_pairs(rest0).drop_first());
        }
        Option::Some(current)
    }

    /// The exact number of entries still to come, as a lower and an upper
    /// bound in the shape iterators use.
    pub fn size_hint(&self) -> (r: (usize, Option<usize>))
        requires
            self.inv(),
        ensures
            r.0 == self.remaining().len(),
            r.1 == Option::Some(r.0),
    {
        (self.size, Option::Some(self.size))
    }
}

/// The height the trie can reach with the given degree: the number of
/// digits a 64-bit hash yields, one level per digit.
pub fn trie_max_height(degree: u8) -> (r: usize)
    requires
        crate::node::valid_degree(degree),
    ensures
        r as int == (64 + crate::node::degree_bits(degree) - 1) as int / (
            crate::node::degree_bits(degree) as int),
{
    let bits = crate::node::bits_of_degree(degree);
    (64 + bits - 1) / bits
}

} // verus!
