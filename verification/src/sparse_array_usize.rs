//! A compact container mapping a small dense integer domain to entries,
//! storing only the present indices.  Entries are kept as a vector of
//! (index, value) pairs with strictly increasing indices, so iteration by
//! position yields entries in ascending index order.

use vstd::prelude::*;

verus! {

/// A sparse array over `usize` indices.  Its view is the sequence of its
/// (index, value) pairs in ascending index order.
pub struct SparseArrayUsize<T> {
    entries: Vec<(usize, T)>,
}

impl<T> View for SparseArrayUsize<T> {
    type V = Seq<(usize, T)>;

    closed spec fn view(&self) -> Seq<(usize, T)> {
        self.entries@
    }
}

impl<T> SparseArrayUsize<T> {
    /// The container is structurally larger than its view, so recursion
    /// that steps from a node to the view of its child container
    /// terminates.
    pub broadcast proof fn lemma_view_decreases(sa: SparseArrayUsize<T>)
        ensures
            #[trigger] (decreases_to!(sa => sa@)),
    {
        assert(decreases_to!(sa => sa.entries));
        assert(decreases_to!(sa.entries => sa.entries@));
        assert(decreases_to!(sa => sa@));
    }

    /// Indices are strictly increasing, so each index occurs at most once.
    pub open spec fn inv(self) -> bool {
        forall|i: int, j: int|
            0 <= i < j < self@.len() ==> (#[trigger] self@[i]).0 < (#[trigger] self@[j]).0
    }

    /// Whether some entry has the given index.
    pub open spec fn spec_contains(self, index: usize) -> bool {
        exists|p: int| 0 <= p < self@.len() && (#[trigger] self@[p]).0 == index
    }

    /// The empty container.
    pub fn new() -> (r: Self)
        ensures
            r@ == Seq::<(usize, T)>::empty(),
            r.inv(),
    {
        SparseArrayUsize { entries: Vec::new() }
    }

    /// The number of present entries.
    pub fn size(&self) -> (r: usize)
        ensures
            r == self@.len(),
    {
        self.entries.len()
    }

    /// The entry at a position (not an index), in ascending index order.
    pub fn entry_at(&self, p: usize) -> (r: &(usize, T))
        requires
            p < self@.len(),
        ensures
            *r == self@[p as int],
    {
        &self.entries[p]
    }

    /// The value at an index, if present.
    pub fn get(&self, index: usize) -> (r: Option<&T>)
        requires
            self.inv(),
        ensures
            match r {
                Option::Some(t) => exists|p: int|
                    0 <= p < self@.len() && (#[trigger] self@[p]).0 == index && *t == self@[p].1,
                Option::None => !self.spec_contains(index),
            },
    {
        let n = self.entries.len();
        let mut i: usize = 0;
        while i < n
            invariant
                n == self@.len(),
                i <= n,
                forall|j: int| 0 <= j < i ==> (#[trigger] self@[j]).0 != index,
            decreases n - i,
        {
            if self.entries[i].0 == index {
                return Option::Some(&self.entries[i].1);
            }
            i = i + 1;
        }
        Option::None
    }

    /// The number of entries whose index is below `index`; with the
    /// invariant this is where `index` sits or would be inserted.
    fn position_of(&self, index: usize) -> (p: usize)
        requires
            self.inv(),
        ensures
            p <= self@.len(),
            forall|j: int| 0 <= j < p ==> (#[trigger] self@[j]).0 < index,
            forall|j: int| p <= j < self@.len() ==> (#[trigger] self@[j]).0 >= index,
    {
        let n = self.entries.len();
        let mut i: usize = 0;
        while i < n
            invariant
                n == self@.len(),
                i <= n,
                self.inv(),
                forall|j: int| 0 <= j < i ==> (#[trigger] self@[j]).0 < index,
            decreases n - i,
        {
            if self.entries[i].0 >= index {
                assert forall|j: int| i <= j < self@.len() implies (#[trigger] self@[j]).0
                    >= index by {
                    if j > i {
                        assert(self@[i as int].0 < self@[j].0);
                    }
                }
                return i;
            }
            i = i + 1;
        }
        i
    }

    /// Binds a value to an index, replacing any entry the index had.
    pub fn set(&mut self, index: usize, value: T)
        requires
            old(self).inv(),
        ensures
            final(self).inv(),
            old(self).spec_contains(index) ==> exists|p: int|
                0 <= p < old(self)@.len() && (#[trigger] old(self)@[p]).0 == index && final(self)@
                    == old(self)@.update(p, (index, value)),
            !old(self).spec_contains(index) ==> exists|p: int|
                0 <= p <= old(self)@.len() && final(self)@ == old(self)@.insert(p, (index, value))
                    && (forall|j: int| 0 <= j < p ==> (#[trigger] old(self)@[j]).0 < index)
                    && (forall|j: int|
                    p <= j < old(self)@.len() ==> (#[trigger] old(self)@[j]).0 > index),
    {
        let p = self.position_of(index);
        let ghost s = self@;
        if p < self.entries.len() && self.entries[p].0 == index {
            self.entries.remove(p);
            self.entries.insert(p, (index, value));
            proof {
                assert(self@ =~= s.update(p as int, (index, value)));
                assert forall|i: int, j: int| 0 <= i < j < self@.len() implies (
                #[trigger] self@[i]).0 < (#[trigger] self@[j]).0 by {
                    assert(s[i].0 < s[j].0);
                }
            }
        } else {
            self.entries.insert(p, (index, value));
            proof {
                assert(self@ =~= s.insert(p as int, (index, value)));
                assert forall|j: int| p <= j < s.len() implies (#[trigger] s[j]).0 > index by {}
                assert(!SparseArrayUsize { entries: old(self).entries }.spec_contains(index));
                assert forall|i: int, j: int| 0 <= i < j < self@.len() implies (
                #[trigger] self@[i]).0 < (#[trigger] self@[j]).0 by {
                    if i < p && j > p {
                        assert(s[i].0 < index);
                        assert(s[j - 1].0 > index);
                    }
                }
            }
        }
    }

    /// Takes the entry at an index out, if present.
    pub fn remove(&mut self, index: usize) -> (r: Option<T>)
        requires
            old(self).inv(),
        ensures
            final(self).inv(),
            match r {
                Option::Some(t) => exists|p: int|
                    0 <= p < old(self)@.len() && (#[trigger] old(self)@[p]).0 == index && t
                        == old(self)@[p].1 && final(self)@ == old(self)@.remove(p),
                Option::None => !old(self).spec_contains(index) && final(self)@ == old(self)@,
            },
    {
        let p = self.position_of(index);
        let ghost s = self@;
        if p < self.entries.len() && self.entries[p].0 == index {
            let (_, t) = self.entries.remove(p);
            proof {
                assert(self@ =~= s.remove(p as int));
                assert forall|i: int, j: int| 0 <= i < j < self@.len() implies (
                #[trigger] self@[i]).0 < (#[trigger] self@[j]).0 by {
                    assert(s[if i < p { i } else { i + 1 }].0 < s[if j < p { j } else { j + 1 }].0);
                }
            }
            Option::Some(t)
        } else {
            proof {
                if old(self).spec_contains(index) {
                    let q = choose|q: int|
                        0 <= q < s.len() && (#[trigger] s[q]).0 == index;
                    if q < p {
                        assert(s[q].0 < index);
                    }
                }
            }
            Option::None
        }
    }

    /// Takes the first entry (the one with the smallest index) out.
    pub fn pop(&mut self) -> (r: Option<T>)
        requires
            old(self).inv(),
        ensures
            final(self).inv(),
            match r {
                Option::Some(t) => old(self)@.len() > 0 && t == old(self)@[0].1 && final(self)@
                    == old(self)@.drop_first(),
                Option::None => old(self)@.len() == 0 && final(self)@ == old(self)@,
            },
    {
        if self.entries.len() > 0 {
            let ghost s = self@;
            let (_, t) = self.entries.remove(0);
            proof {
                assert(self@ =~= s.drop_first());
            }
            Option::Some(t)
        } else {
            Option::None
        }
    }

    /// The value of the first entry, if any.
    pub fn first(&self) -> (r: Option<&T>)
        ensures
            match r {
                Option::Some(t) => self@.len() > 0 && *t == self@[0].1,
                Option::None => self@.len() == 0,
            },
    {
        if self.entries.len() > 0 {
            Option::Some(&self.entries[0].1)
        } else {
            Option::None
        }
    }

    /// Appends an entry whose index is above every present index.
    pub fn append_entry(&mut self, index: usize, value: T)
        requires
            old(self).inv(),
            forall|j: int| 0 <= j < old(self)@.len() ==> (#[trigger] old(self)@[j]).0 < index,
        ensures
            final(self).inv(),
            final(self)@ == old(self)@.push((index, value)),
    {
        self.entries.push((index, value));
    }
}

} // verus!
