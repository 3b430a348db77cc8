//! Iterators over the entries of one leaf.

use vstd::prelude::*;
use crate::tree::dimension::NUM_ENTRIES;
use crate::tree::key;
use crate::tree::leaf::Leaf;

verus! {

/// Leaf entry iterator.
///
/// `rank` is the number of the entry that it points to, counted from 1; 0 stands before the first.
pub struct Iter<'l, K, V> {
    leaf: &'l Leaf<K, V>,
    slots: Vec<usize>,
    rank: usize,
}

/// Leaf entry iterator, reversed.
///
/// `rev_rank` is the number of the entry that it points to, counted from 1 from the last one; 0
/// stands behind the last.
pub struct RevIter<'l, K, V> {
    leaf: &'l Leaf<K, V>,
    slots: Vec<usize>,
    rev_rank: usize,
}

/// The slots of the leaf's entries, in key order.
spec fn slots_of<K, V>(leaf: Leaf<K, V>, slots: Seq<usize>) -> bool {
    &&& slots.len() == leaf@.len()
    &&& forall|j: int|
        0 <= j < slots.len() ==> leaf.has(#[trigger] slots[j] as int) && leaf.at(slots[j] as int)
            == j && slots[j] < NUM_ENTRIES
}

impl<'l, K: Ord + Clone, V> Iter<'l, K, V> {
    /// The leaf that is iterated over.
    pub closed spec fn leaf(self) -> Leaf<K, V> {
        *self.leaf
    }

    /// The number of the entry that the iterator points to; 0 where it points to none.
    pub closed spec fn rank(self) -> int {
        self.rank as int
    }

    /// The iterator stands on an entry of the leaf or at an end of it.
    pub closed spec fn wf(self) -> bool {
        &&& self.leaf.wf()
        &&& key::ordered_key::<K>()
        &&& slots_of(*self.leaf, self.slots@)
        &&& self.rank <= self.slots@.len()
    }

    /// Creates a new [`Iter`].
    pub fn new(leaf: &'l Leaf<K, V>) -> (r: Iter<'l, K, V>)
        requires
            leaf.wf(),
            key::ordered_key::<K>(),
        ensures
            r.wf(),
            r.leaf() == *leaf,
            r.rank() == 0,
    {
        Iter { leaf, slots: leaf.slots(), rank: 0 }
    }

    /// Clones the iterator.
    pub fn clone(&self) -> (r: Iter<'l, K, V>)
        requires
            self.wf(),
        ensures
            r.wf(),
            r.leaf() == self.leaf(),
            r.rank() == self.rank(),
    {
        Iter { leaf: self.leaf, slots: self.leaf.slots(), rank: self.rank }
    }

    /// Rewinds the iterator to the beginning.
    pub fn rewind(&mut self)
        requires
            old(self).wf(),
        ensures
            final(self).wf(),
            final(self).leaf() == old(self).leaf(),
            final(self).rank() == 0,
    {
        self.rank = 0;
    }

    /// Converts itself into a [`RevIter`] that points to the same entry.
    pub fn rev(self) -> (r: RevIter<'l, K, V>)
        requires
            self.wf(),
        ensures
            r.wf(),
            r.leaf() == self.leaf(),
            r.rev_rank() == (if self.rank() == 0 {
                0
            } else {
                self.leaf()@.len() + 1 - self.rank()
            }),
    {
        let rev_rank: usize = if self.rank == 0 {
            0
        } else {
            self.slots.len() - self.rank + 1
        };
        RevIter { leaf: self.leaf, slots: self.slots, rev_rank }
    }

    /// Returns the snapshot of leaf metadata that the [`Iter`] took.
    pub fn metadata(&self) -> (r: u64)
        ensures
            self.leaf().valid(r),
    {
        self.leaf.metadata()
    }

    /// Returns a reference to the entry that the iterator is currently pointing to.
    pub fn get(&self) -> (r: Option<(&'l K, &'l V)>)
        requires
            self.wf(),
        ensures
            match r {
                Some((k, v)) => self.rank() > 0 && self.leaf()@[self.rank() - 1] == (*k, *v),
                None => self.rank() == 0,
            },
    {
        if self.rank == 0 {
            return None;
        }
        let slot: usize = self.slots[self.rank - 1];
        Some(self.leaf.entry_at(slot))
    }

    /// Returns `true` if the iterator points to the first entry.
    pub fn rank_is_first(&self) -> (r: bool)
        ensures
            r == (self.rank() == 1),
    {
        self.rank == 1
    }

    /// Returns a reference to the max key.
    pub fn max_key(&self) -> (r: Option<&'l K>)
        requires
            self.wf(),
        ensures
            match r {
                Some(k) => self.leaf()@.len() > 0 && *k == self.leaf()@.last().0,
                None => self.leaf()@.len() == 0,
            },
    {
        if self.slots.len() == 0 {
            return None;
        }
        let slot: usize = self.slots[self.slots.len() - 1];
        Some(self.leaf.entry_at(slot).0)
    }

    /// Goes to the next entry; behind the last one, back before the first.
    pub fn next(&mut self) -> (r: Option<(&'l K, &'l V)>)
        requires
            old(self).wf(),
        ensures
            final(self).wf(),
            final(self).leaf() == old(self).leaf(),
            match r {
                Some((k, v)) => {
                    &&& old(self).rank() < old(self).leaf()@.len()
                    &&& final(self).rank() == old(self).rank() + 1
                    &&& old(self).leaf()@[old(self).rank()] == (*k, *v)
                },
                None => old(self).rank() == old(self).leaf()@.len() && final(self).rank() == 0,
            },
    {
        if self.rank >= self.slots.len() {
            self.rank = 0;
            return None;
        }
        self.rank += 1;
        self.get()
    }
}

impl<'l, K: Ord + Clone, V> RevIter<'l, K, V> {
    /// The leaf that is iterated over.
    pub closed spec fn leaf(self) -> Leaf<K, V> {
        *self.leaf
    }

    /// The number, from the last one, of the entry that the iterator points to; 0 where it points
    /// to none.
    pub closed spec fn rev_rank(self) -> int {
        self.rev_rank as int
    }

    /// The iterator stands on an entry of the leaf or at an end of it.
    pub closed spec fn wf(self) -> bool {
        &&& self.leaf.wf()
        &&& key::ordered_key::<K>()
        &&& slots_of(*self.leaf, self.slots@)
        &&& self.rev_rank <= self.slots@.len()
    }

    /// Creates a new [`RevIter`].
    pub fn new(leaf: &'l Leaf<K, V>) -> (r: RevIter<'l, K, V>)
        requires
            leaf.wf(),
            key::ordered_key::<K>(),
        ensures
            r.wf(),
            r.leaf() == *leaf,
            r.rev_rank() == 0,
    {
        RevIter { leaf, slots: leaf.slots(), rev_rank: 0 }
    }

    /// Rewinds the iterator to the beginning.
    pub fn rewind(&mut self)
        requires
            old(self).wf(),
        ensures
            final(self).wf(),
            final(self).leaf() == old(self).leaf(),
            final(self).rev_rank() == 0,
    {
        self.rev_rank = 0;
    }

    /// Converts itself into an [`Iter`] that points to the same entry.
    pub fn rev(self) -> (r: Iter<'l, K, V>)
        requires
            self.wf(),
        ensures
            r.wf(),
            r.leaf() == self.leaf(),
            r.rank() == (if self.rev_rank() == 0 {
                0
            } else {
                self.leaf()@.len() + 1 - self.rev_rank()
            }),
    {
        let rank: usize = if self.rev_rank == 0 {
            0
        } else {
            self.slots.len() - self.rev_rank + 1
        };
        Iter { leaf: self.leaf, slots: self.slots, rank }
    }

    /// Returns the snapshot of leaf metadata that the [`RevIter`] took.
    pub fn metadata(&self) -> (r: u64)
        ensures
            self.leaf().valid(r),
    {
        self.leaf.metadata()
    }

    /// Returns a reference to the entry that the iterator is currently pointing to.
    pub fn get(&self) -> (r: Option<(&'l K, &'l V)>)
        requires
            self.wf(),
        ensures
            match r {
                Some((k, v)) => self.rev_rank() > 0 && self.leaf()@[self.leaf()@.len()
                    - self.rev_rank()] == (*k, *v),
                None => self.rev_rank() == 0,
            },
    {
        if self.rev_rank == 0 {
            return None;
        }
        let slot: usize = self.slots[self.slots.len() - self.rev_rank];
        Some(self.leaf.entry_at(slot))
    }

    /// Returns a reference to the min key entry.
    pub fn min_key(&self) -> (r: Option<&'l K>)
        requires
            self.wf(),
        ensures
            match r {
                Some(k) => self.leaf()@.len() > 0 && *k == self.leaf()@.first().0,
                None => self.leaf()@.len() == 0,
            },
    {
        if self.slots.len() == 0 {
            return None;
        }
        let slot: usize = self.slots[0];
        Some(self.leaf.entry_at(slot).0)
    }

    /// Goes to the entry before; before the first one, back behind the last.
    pub fn next(&mut self) -> (r: Option<(&'l K, &'l V)>)
        requires
            old(self).wf(),
        ensures
            final(self).wf(),
            final(self).leaf() == old(self).leaf(),
            match r {
                Some((k, v)) => {
                    &&& old(self).rev_rank() < old(self).leaf()@.len()
                    &&& final(self).rev_rank() == old(self).rev_rank() + 1
                    &&& old(self).leaf()@[old(self).leaf()@.len() - 1 - old(self).rev_rank()] == (
                        *k,
                        *v,
                    )
                },
                None => old(self).rev_rank() == old(self).leaf()@.len() && final(self).rev_rank()
                    == 0,
            },
    {
        if self.rev_rank >= self.slots.len() {
            self.rev_rank = 0;
            return None;
        }
        self.rev_rank += 1;
        self.get()
    }
}

} // verus!
