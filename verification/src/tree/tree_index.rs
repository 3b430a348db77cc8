//! [`TreeIndex`] is a read-optimized B-plus tree.

use vstd::prelude::*;
use vstd::std_specs::cmp::PartialEqSpec;
use crate::tree::chain;
use crate::tree::chain::{advance, approximate, enter, enter_back, retreat, Cursor, RevCursor};
use crate::tree::internal_node::{InternalNode, Node};
use crate::tree::key;
use crate::tree::key::{KeyOrder, compare};
use crate::tree::leaf::{InsertResult, Leaf, RemoveResult};
use crate::tree::parts;
use crate::tree::range::{KeyBound, KeyRange};
use crate::tree::sorted;

verus! {

/// B-plus tree.
///
/// ## The key statistics for [`TreeIndex`]
///
/// * The maximum number of entries that a leaf can contain: 14.
/// * The maximum number of leaves or child nodes a node can contain: 15.
pub struct TreeIndex<K, V> {
    root: Option<Node<K, V>>,
}

/// An iterator over the entries of a [`TreeIndex`].
///
/// An [`Iter`] iterates over all the entries in monotonically increasing order, and from the other
/// end in decreasing order.
pub struct Iter<'t, K, V> {
    leaves: Vec<&'t Leaf<K, V>>,
    forward: Option<Cursor<'t, K, V>>,
    backward: Option<RevCursor<'t, K, V>>,
    exhausted: bool,
}

/// An iterator over a sub-range of entries in a [`TreeIndex`].
pub struct Range<'t, K, V> {
    leaves: Vec<&'t Leaf<K, V>>,
    cursor: Option<Cursor<'t, K, V>>,
    bounds: KeyRange<K>,
    check_upper_bound: bool,
    exhausted: bool,
}

impl<K, V> View for TreeIndex<K, V> {
    type V = Seq<(K, V)>;

    /// The entries, in key order.
    closed spec fn view(&self) -> Seq<(K, V)> {
        match self.root {
            Some(n) => n.seq(n.height()),
            None => Seq::empty(),
        }
    }
}

impl<K: Ord + Clone, V> TreeIndex<K, V> {
    /// All leaf nodes lie at the same depth, and the keys between the separators above them.
    pub closed spec fn wf(self) -> bool {
        match self.root {
            Some(n) => n.wf_in(n.height(), None, None) && !n.retired(),
            None => true,
        }
    }

    /// The number of levels of nodes.
    pub closed spec fn levels(self) -> nat {
        match self.root {
            Some(n) => n.levels() + 1,
            None => 0,
        }
    }

    /// Keys are unique and in order.
    pub proof fn lemma_sorted(self)
        requires
            self.wf(),
            key::ordered_key::<K>(),
        ensures
            sorted::sorted(self@),
    {
        match self.root {
            Some(n) => {
                n.lemma_wf(n.height(), None, None);
            },
            None => {},
        }
    }

    /// Creates an empty [`TreeIndex`].
    pub fn new() -> (t: Self)
        ensures
            t.wf(),
            t@ == Seq::<(K, V)>::empty(),
            t.levels() == 0,
    {
        TreeIndex { root: None }
    }

    /// Clears the [`TreeIndex`].
    pub fn clear(&mut self)
        ensures
            final(self).wf(),
            final(self)@ == Seq::<(K, V)>::empty(),
            final(self).levels() == 0,
    {
        self.root = None;
    }

    /// Returns the depth of the [`TreeIndex`].
    pub fn depth(&self) -> (r: usize)
        requires
            self.levels() <= usize::MAX,
        ensures
            r == self.levels(),
    {
        match &self.root {
            Some(root) => root.depth(1),
            None => 0,
        }
    }

    /// Inserts a key-value pair.
    ///
    /// # Errors
    ///
    /// Returns an error along with the supplied key-value pair if the key exists.
    pub fn insert_sync(&mut self, key: K, val: V) -> (r: Result<(), (K, V)>)
        requires
            old(self).wf(),
            key::ordered_key::<K>(),
        ensures
            final(self).wf(),
            if sorted::found(old(self)@, key) {
                r == Err::<(), (K, V)>((key, val)) && final(self)@ == old(self)@
            } else {
                r == Ok::<(), (K, V)>(()) && final(self)@ == sorted::inserted(old(self)@, key, val)
            },
            old(self).levels() == 0 ==> final(self).levels() == 1,
            old(self).levels() > 0 ==> final(self).levels() == old(self).levels() || (r is Ok
                && final(self).levels() == old(self).levels() + 1),
    {
        let mut root = match self.root.take() {
            Some(n) => n,
            None => Node::new_leaf_node(),
        };
        let ghost h = root.height();
        let ghost before = root;
        proof {
            assert(before.seq(h) =~= old(self)@);
            before.lemma_wf(h, None, None);
            if old(self).levels() == 0 {
                before.lemma_room(h, key);
            }
        }
        match root.insert_in(key, val, Ghost(h), Ghost(None), Ghost(None)) {
            InsertResult::Success => {
                proof {
                    root.lemma_wf(h, None, None);
                }
                self.root = Some(root);
                Ok(())
            },
            InsertResult::Duplicate(k, v) | InsertResult::Frozen(k, v) => {
                proof {
                    root.lemma_wf(h, None, None);
                }
                self.root = Some(root);
                Err((k, v))
            },
            InsertResult::Full(k, v) => {
                proof {
                    root.lemma_wf(h, None, None);
                }
                let mut root = Self::split_root(root, Ghost(h));
                let ghost g = root.height();
                proof {
                    root.lemma_wf(g, None, None);
                    root.lemma_room(g, key);
                }
                let r = root.insert_in(k, v, Ghost(g), Ghost(None), Ghost(None));
                proof {
                    root.lemma_wf(g, None, None);
                }
                self.root = Some(root);
                match r {
                    InsertResult::Success => Ok(()),
                    InsertResult::Duplicate(k, v) | InsertResult::Frozen(k, v)
                    | InsertResult::Full(k, v) => Err((k, v)),
                }
            },
        }
    }

    /// Puts a new root above one that has to be split.
    fn split_root(root: Node<K, V>, Ghost(h): Ghost<nat>) -> (r: Node<K, V>)
        requires
            root.wf_in(h, None, None),
            !root.retired(),
            h == root.height(),
        ensures
            r.wf_in(h + 1, None, None),
            r.seq(h + 1) == root.seq(h),
            r.height() == h + 1,
            !r.retired(),
            r.has_room(),
    {
        Node::above(root, Ghost(h))
    }

    /// Removes a key-value pair.
    ///
    /// Returns `false` if the key does not exist. Returns `true` if the key existed.
    pub fn remove_sync(&mut self, key: &K) -> (r: bool)
        requires
            old(self).wf(),
            key::ordered_key::<K>(),
        ensures
            final(self).wf(),
            r == sorted::found(old(self)@, *key),
            final(self)@ == (if r {
                sorted::removed(old(self)@, *key)
            } else {
                old(self)@
            }),
    {
        let always = |v: &V| -> (b: bool)
            ensures
                b,
            { true };
        self.remove_if_sync(key, always)
    }

    /// Removes a key-value pair if the given condition is met.
    ///
    /// Returns `false` if the key does not exist or the condition was not met. Returns `true` if
    /// the key existed and the condition was met. Only the value of the key is shown to the
    /// condition.
    pub fn remove_if_sync<F: Fn(&V) -> bool>(&mut self, key: &K, condition: F) -> (r: bool)
        requires
            old(self).wf(),
            key::ordered_key::<K>(),
            sorted::found(old(self)@, *key) ==> call_requires(
                condition,
                (&old(self)@[sorted::place(old(self)@, *key)].1,),
            ),
        ensures
            final(self).wf(),
            if !sorted::found(old(self)@, *key) {
                !r && final(self)@ == old(self)@
            } else {
                let v = old(self)@[sorted::place(old(self)@, *key)].1;
                &&& call_ensures(condition, (&v,), r)
                &&& final(self)@ == (if r {
                    sorted::removed(old(self)@, *key)
                } else {
                    old(self)@
                })
            },
    {
        match self.root.take() {
            Some(mut root) => {
                let ghost h = root.height();
                proof {
                    root.lemma_wf(h, None, None);
                }
                let result = root.remove_if_in(
                    key,
                    &condition,
                    Ghost(h),
                    Ghost(None),
                    Ghost(None),
                );
                proof {
                    root.lemma_wf(h, None, None);
                }
                match result {
                    RemoveResult::Success => {
                        self.root = Some(root);
                        true
                    },
                    RemoveResult::Retired => {
                        proof {
                            assert(root.seq(h) =~= Seq::empty());
                        }
                        self.root = Self::cleanup_root(root, Ghost(h));
                        true
                    },
                    RemoveResult::Fail | RemoveResult::Frozen => {
                        self.root = Some(root);
                        false
                    },
                }
            },
            None => false,
        }
    }

    /// Replaces a root that lost all its separators with its last child, and drops one that lost
    /// all its children.
    fn cleanup_root(root: Node<K, V>, Ghost(h): Ghost<nat>) -> (r: Option<Node<K, V>>)
        requires
            root.wf_in(h, None, None),
            key::ordered_key::<K>(),
        ensures
            match r {
                Some(n) => n.wf_in(n.height(), None, None) && !n.retired() && n.seq(n.height())
                    == root.seq(h),
                None => root.seq(h).len() == 0,
            },
        decreases h,
    {
        proof {
            root.lemma_wf(h, None, None);
        }
        if root.is_retired() {
            return None;
        }
        match root.lift(Ghost(h)) {
            Ok(child) => Self::cleanup_root(child, Ghost((h - 1) as nat)),
            Err(root) => Some(root),
        }
    }

    /// Removes keys in the specified range.
    ///
    /// This method removes internal nodes that are definitely contained in the specified range
    /// first, and then removes remaining entries individually.
    pub fn remove_range_sync(&mut self, range: KeyRange<K>)
        requires
            old(self).wf(),
            key::ordered_key::<K>(),
        ensures
            final(self).wf(),
            final(self)@ == parts::rest(range, old(self)@),
    {
        let start_unbounded = match &range.start {
            KeyBound::Unbounded => true,
            _ => false,
        };
        match self.root.take() {
            Some(mut root) => {
                let ghost h = root.height();
                // Remove internal nodes, and individual entries in affected leaves.
                let num_children = root.remove_range_in(
                    &range,
                    start_unbounded,
                    false,
                    Ghost(h),
                    Ghost(None),
                    Ghost(None),
                );
                proof {
                    root.lemma_wf(h, None, None);
                }
                if num_children >= 2 {
                    self.root = Some(root);
                } else {
                    self.root = Self::cleanup_root(root, Ghost(h));
                    proof {
                        assert(self@ =~= root.seq(h));
                    }
                }
            },
            None => {
                proof {
                    reveal(Seq::filter);
                    assert(parts::rest(range, Seq::<(K, V)>::empty()) =~= Seq::empty());
                }
            },
        }
    }

    /// Returns a reference to the value for the specified key.
    ///
    /// Returns `None` if the key does not exist.
    pub fn peek(&self, key: &K) -> (r: Option<&V>)
        requires
            self.wf(),
            key::ordered_key::<K>(),
        ensures
            match r {
                Some(v) => sorted::lookup(self@, *key) is Some && *v == (sorted::lookup(
                    self@,
                    *key,
                )->0).1,
                None => sorted::lookup(self@, *key) is None,
            },
    {
        match &self.root {
            Some(root) => root.search_value_in(
                key,
                Ghost(root.height()),
                Ghost(None),
                Ghost(None),
            ),
            None => None,
        }
    }

    /// Peeks a key-value pair.
    ///
    /// Returns `None` if the key does not exist.
    pub fn peek_with<R, F: FnOnce(&K, &V) -> R>(&self, key: &K, reader: F) -> (r: Option<R>)
        requires
            self.wf(),
            key::ordered_key::<K>(),
            sorted::lookup(self@, *key) matches Some(e) ==> call_requires(reader, (&e.0, &e.1)),
        ensures
            match r {
                Some(x) => sorted::lookup(self@, *key) is Some && call_ensures(
                    reader,
                    (&(sorted::lookup(self@, *key)->0).0, &(sorted::lookup(self@, *key)->0).1),
                    x,
                ),
                None => sorted::lookup(self@, *key) is None,
            },
    {
        match self.peek_entry(key) {
            Some((k, v)) => Some(reader(k, v)),
            None => None,
        }
    }

    /// Returns a reference to the key-value pair for the specified key.
    ///
    /// Returns `None` if the key does not exist.
    pub fn peek_entry(&self, key: &K) -> (r: Option<(&K, &V)>)
        requires
            self.wf(),
            key::ordered_key::<K>(),
        ensures
            match r {
                Some((k, v)) => sorted::lookup(self@, *key) == Some((*k, *v)),
                None => sorted::lookup(self@, *key) is None,
            },
    {
        match &self.root {
            Some(root) => root.search_entry_in(
                key,
                Ghost(root.height()),
                Ghost(None),
                Ghost(None),
            ),
            None => None,
        }
    }

    /// Returns `true` if the [`TreeIndex`] contains the key.
    pub fn contains(&self, key: &K) -> (r: bool)
        requires
            self.wf(),
            key::ordered_key::<K>(),
        ensures
            r == sorted::found(self@, *key),
    {
        self.peek(key).is_some()
    }

    /// Returns an [`Iter`].
    ///
    /// The returned [`Iter`] allows scanning in both ascending and descending order.
    pub fn iter(&self) -> (r: Iter<'_, K, V>)
        requires
            self.wf(),
            key::ordered_key::<K>(),
        ensures
            r.wf(),
            r.rest() == self@,
    {
        let leaves = self.leaves();
        proof {
            self.lemma_sorted();
            assert(self@ =~= self@.subrange(0, self@.len() as int));
        }
        Iter { leaves, forward: None, backward: None, exhausted: false }
    }

    fn leaves(&self) -> (r: Vec<&Leaf<K, V>>)
        requires
            self.wf(),
            key::ordered_key::<K>(),
        ensures
            chain::joined(r@) == self@,
            chain::all_wf(r@),
    {
        match &self.root {
            Some(root) => root.leaves_in(Ghost(root.height()), Ghost(None), Ghost(None)),
            None => {
                let r: Vec<&Leaf<K, V>> = Vec::new();
                assert(chain::views(r@) =~= Seq::empty());
                r
            },
        }
    }

    /// Returns a [`Range`] that scans keys in the given range.
    ///
    /// Key-value pairs in the range are scanned in ascending order.
    pub fn range(&self, range: KeyRange<K>) -> (r: Range<'_, K, V>)
        requires
            self.wf(),
            key::ordered_key::<K>(),
        ensures
            r.wf(),
            r.rest() == self@.filter(within(range)),
    {
        let leaves = self.leaves();
        proof {
            self.lemma_sorted();
            assert(self@ =~= self@.skip(0));
        }
        Range { leaves, cursor: None, bounds: range, check_upper_bound: false, exhausted: false }
    }

    /// Returns the size of the [`TreeIndex`].
    ///
    /// It scans all the leaf nodes, and therefore the time complexity is O(N).
    pub fn len(&self) -> (r: usize)
        requires
            self.wf(),
            key::ordered_key::<K>(),
            self@.len() <= usize::MAX,
        ensures
            r == self@.len(),
    {
        let mut iter = self.iter();
        let mut count: usize = 0;
        loop
            invariant
                iter.wf(),
                count + iter.rest().len() == self@.len(),
                self@.len() <= usize::MAX,
            ensures
                count == self@.len(),
            decreases iter.rest().len(),
        {
            if iter.next().is_none() {
                break;
            }
            count += 1;
        }
        count
    }

    /// Returns `true` if the [`TreeIndex`] is empty.
    pub fn is_empty(&self) -> (r: bool)
        requires
            self.wf(),
            key::ordered_key::<K>(),
        ensures
            r == (self@.len() == 0),
    {
        self.iter().next().is_none()
    }
}

impl<K: Ord + Clone, V> Default for TreeIndex<K, V> {
    /// Creates a [`TreeIndex`] with the default parameters.
    fn default() -> (t: Self)
        ensures
            t.wf(),
            t@ == Seq::<(K, V)>::empty(),
            t.levels() == 0,
    {
        Self::new()
    }
}

impl<K: Ord + Clone, V: Clone> TreeIndex<K, V> {
    /// Creates a tree with clones of the entries.
    pub fn clone(&self) -> (r: Self)
        requires
            self.wf(),
            key::ordered_key::<K>(),
        ensures
            r.wf(),
            r@.len() == self@.len(),
            forall|i: int|
                0 <= i < r@.len() ==> cloned(self@[i].0, (#[trigger] r@[i]).0) && cloned(
                    self@[i].1,
                    r@[i].1,
                ),
    {
        let mut self_clone = Self::new();
        let mut iter = self.iter();
        let ghost mut n: int = 0;
        proof {
            self.lemma_sorted();
            assert(self@.skip(0) =~= self@);
        }
        loop
            invariant
                self.wf(),
                key::ordered_key::<K>(),
                sorted::sorted(self@),
                self_clone.wf(),
                iter.wf(),
                0 <= n <= self@.len(),
                iter.rest() == self@.skip(n),
                self_clone@.len() == n,
                forall|i: int|
                    0 <= i < n ==> cloned(self@[i].0, (#[trigger] self_clone@[i]).0) && cloned(
                        self@[i].1,
                        self_clone@[i].1,
                    ),
            ensures
                n == self@.len(),
            decreases iter.rest().len(),
        {
            match iter.next() {
                Some((k, v)) => {
                    let k2 = k.clone();
                    let v2 = v.clone();
                    let ghost s = self_clone@;
                    proof {
                        assert(cloned(*k, k2) && cloned(*v, v2));
                        assert(self@.skip(n)[0] == self@[n]);
                        assert(self@.skip(n).skip(1) =~= self@.skip(n + 1));
                        key::lemma_order::<K>();
                        self_clone.lemma_sorted();
                        assert forall|i: int| 0 <= i < s.len() implies key::key_lt(
                            (#[trigger] s[i]).0,
                            k2,
                        ) by {
                            assert(key::key_eq(self@[i].0, s[i].0));
                            assert(key::key_lt(self@[i].0, self@[n].0));
                            assert(key::key_eq(self@[n].0, k2));
                            assert(key::key_eq(s[i].0, self@[i].0));
                            assert(key::key_lt(s[i].0, self@[n].0));
                        }
                        assert(sorted::parts_at(s, k2, n));
                        sorted::lemma_place_unique(s, k2, n);
                        assert(sorted::inserted(s, k2, v2) =~= s.push((k2, v2)));
                    }
                    let _result = self_clone.insert_sync(k2, v2);
                    proof {
                        n = n + 1;
                    }
                },
                None => {
                    break;
                },
            }
        }
        self_clone
    }
}

impl<K: Ord + Clone, V: PartialEq> TreeIndex<K, V> {
    /// Returns `true` if both trees hold equal entries.
    pub fn eq(&self, other: &Self) -> (r: bool)
        requires
            self.wf(),
            other.wf(),
            key::ordered_key::<K>(),
            V::obeys_eq_spec(),
        ensures
            r == (self@.len() == other@.len() && forall|i: int|
                0 <= i < self@.len() ==> equal_entries(#[trigger] self@[i], other@[i])),
    {
        // The key order is preserved, therefore comparing iterators suffices.
        let mut a = self.iter();
        let mut b = other.iter();
        let ghost mut n: int = 0;
        proof {
            assert(self@.skip(0) =~= self@);
            assert(other@.skip(0) =~= other@);
        }
        loop
            invariant
                key::ordered_key::<K>(),
                V::obeys_eq_spec(),
                a.wf(),
                b.wf(),
                0 <= n <= self@.len(),
                n <= other@.len(),
                a.rest() == self@.skip(n),
                b.rest() == other@.skip(n),
                forall|i: int| 0 <= i < n ==> equal_entries(#[trigger] self@[i], other@[i]),
            decreases a.rest().len(),
        {
            match (a.next(), b.next()) {
                (Some((k, v)), Some((l, w))) => {
                    proof {
                        assert(self@.skip(n)[0] == self@[n]);
                        assert(other@.skip(n)[0] == other@[n]);
                        assert(self@.skip(n).skip(1) =~= self@.skip(n + 1));
                        assert(other@.skip(n).skip(1) =~= other@.skip(n + 1));
                    }
                    if compare(k, l) != KeyOrder::Equal || !v.eq(w) {
                        assert(!equal_entries(self@[n], other@[n]));
                        return false;
                    }
                    proof {
                        n = n + 1;
                    }
                },
                (None, None) => {
                    return true;
                },
                _ => {
                    return false;
                },
            }
        }
    }
}

/// The entries have equal keys and equal values.
pub open spec fn equal_entries<K: Ord, V: PartialEq>(a: (K, V), b: (K, V)) -> bool {
    key::key_eq(a.0, b.0) && a.1.eq_spec(&b.1)
}

/// The entry's key lies in the range.
pub open spec fn within<K: Ord + Clone, V>(range: KeyRange<K>) -> spec_fn((K, V)) -> bool {
    |e: (K, V)| range.has_key(e.0)
}

impl<'t, K: Ord + Clone, V> Iter<'t, K, V> {
    spec fn all(self) -> Seq<(K, V)> {
        chain::joined(self.leaves@)
    }

    /// The number of entries that were handed out from the front.
    spec fn front(self) -> int {
        match self.forward {
            Some(c) => c.index(self.leaves@) + 1,
            None => 0,
        }
    }

    /// The position of the last entry that was handed out from the back.
    spec fn back(self) -> int {
        match self.backward {
            Some(c) => c.index(self.leaves@),
            None => self.all().len() as int,
        }
    }

    /// The entries that are still to come.
    pub closed spec fn rest(self) -> Seq<(K, V)> {
        if self.exhausted {
            Seq::empty()
        } else {
            self.all().subrange(self.front(), self.back())
        }
    }

    /// The cursors stand in the leaves.
    pub closed spec fn wf(self) -> bool {
        &&& key::ordered_key::<K>()
        &&& chain::all_wf(self.leaves@)
        &&& sorted::sorted(self.all())
        &&& !self.exhausted ==> {
            &&& self.forward is Some ==> (self.forward->0).on(self.leaves@)
            &&& self.backward is Some ==> (self.backward->0).on(self.leaves@)
            &&& 0 <= self.front() <= self.back() <= self.all().len()
        }
    }

    /// Goes to the next entry.
    pub fn next(&mut self) -> (r: Option<(&'t K, &'t V)>)
        requires
            old(self).wf(),
        ensures
            final(self).wf(),
            match r {
                Some((k, v)) => {
                    &&& old(self).rest().len() > 0
                    &&& old(self).rest()[0] == (*k, *v)
                    &&& final(self).rest() == old(self).rest().skip(1)
                },
                None => old(self).rest().len() == 0 && final(self).rest().len() == 0,
            },
    {
        if self.exhausted {
            return None;
        }
        let ghost all = self.all();
        let ghost f = self.front();
        let ghost b = self.back();
        proof {
            chain::lemma_ends(self.leaves@);
        }
        let next = match self.forward.take() {
            // Start iteration.
            None => enter(&self.leaves, 0),
            // Go to the next entry.
            Some(cursor) => advance(&self.leaves, cursor),
        };
        match next {
            Some(cursor) => {
                proof {
                    chain::lemma_before(self.leaves@, cursor.at as int);
                    assert(cursor.index(self.leaves@) == f);
                    assert(self.leaves@[cursor.at as int]@[cursor.iter.rank() - 1] == all[f]);
                }
                match cursor.iter.get() {
                    Some(entry) => {
                        if self.meets_back(entry.0, Ghost(f)) {
                            self.exhausted = true;
                            return None;
                        }
                        self.forward = Some(cursor);
                        proof {
                            assert(all.subrange(f, b).skip(1) =~= all.subrange(f + 1, b));
                        }
                        Some(entry)
                    },
                    None => vstd::pervasive::unreached(),
                }
            },
            None => {
                self.exhausted = true;
                None
            },
        }
    }

    /// The entry at position `i` was handed out from the back.
    fn meets_back(&self, key: &K, Ghost(i): Ghost<int>) -> (r: bool)
        requires
            key::ordered_key::<K>(),
            chain::all_wf(self.leaves@),
            sorted::sorted(self.all()),
            self.backward is Some ==> (self.backward->0).on(self.leaves@),
            0 <= i < self.all().len(),
            i <= self.back() <= self.all().len(),
            *key == self.all()[i].0,
        ensures
            r == (i == self.back()),
    {
        match &self.backward {
            Some(cursor) => match cursor.iter.get() {
                Some(other) => {
                    proof {
                        key::lemma_order::<K>();
                        chain::lemma_before(self.leaves@, cursor.at as int);
                        let x = cursor.iter.leaf()@.len() - cursor.iter.rev_rank();
                        assert(self.leaves@[cursor.at as int]@[x] == self.all()[self.back()]);
                        if i < self.back() {
                            assert(key::key_lt(self.all()[i].0, self.all()[self.back()].0));
                        }
                    }
                    compare(other.0, key) != KeyOrder::Greater
                },
                None => vstd::pervasive::unreached(),
            },
            None => false,
        }
    }

    /// Goes to the next entry from the back.
    pub fn next_back(&mut self) -> (r: Option<(&'t K, &'t V)>)
        requires
            old(self).wf(),
        ensures
            final(self).wf(),
            match r {
                Some((k, v)) => {
                    &&& old(self).rest().len() > 0
                    &&& old(self).rest().last() == (*k, *v)
                    &&& final(self).rest() == old(self).rest().drop_last()
                },
                None => old(self).rest().len() == 0 && final(self).rest().len() == 0,
            },
    {
        if self.exhausted {
            return None;
        }
        let ghost all = self.all();
        let ghost f = self.front();
        let ghost b = self.back();
        proof {
            chain::lemma_ends(self.leaves@);
        }
        let next = match self.backward.take() {
            // Start iteration.
            None => enter_back(&self.leaves, self.leaves.len()),
            // Go to the entry before.
            Some(cursor) => retreat(&self.leaves, cursor),
        };
        match next {
            Some(cursor) => {
                let ghost i = b - 1;
                proof {
                    chain::lemma_before(self.leaves@, cursor.at as int);
                    assert(cursor.index(self.leaves@) == i);
                    let x = cursor.iter.leaf()@.len() - cursor.iter.rev_rank();
                    assert(self.leaves@[cursor.at as int]@[x] == all[i]);
                }
                match cursor.iter.get() {
                    Some(entry) => {
                        if self.meets_front(entry.0, Ghost(i)) {
                            self.exhausted = true;
                            return None;
                        }
                        self.backward = Some(cursor);
                        proof {
                            assert(all.subrange(f, b).drop_last() =~= all.subrange(f, b - 1));
                        }
                        Some(entry)
                    },
                    None => vstd::pervasive::unreached(),
                }
            },
            None => {
                self.exhausted = true;
                None
            },
        }
    }

    /// The entry at position `i` was handed out from the front.
    fn meets_front(&self, key: &K, Ghost(i): Ghost<int>) -> (r: bool)
        requires
            key::ordered_key::<K>(),
            chain::all_wf(self.leaves@),
            sorted::sorted(self.all()),
            self.forward is Some ==> (self.forward->0).on(self.leaves@),
            0 <= i < self.all().len(),
            0 <= self.front() <= i + 1,
            *key == self.all()[i].0,
        ensures
            r == (i + 1 == self.front()),
    {
        match &self.forward {
            Some(cursor) => match cursor.iter.get() {
                Some(other) => {
                    proof {
                        key::lemma_order::<K>();
                        chain::lemma_before(self.leaves@, cursor.at as int);
                        let x = cursor.iter.rank() - 1;
                        assert(self.leaves@[cursor.at as int]@[x] == self.all()[self.front() - 1]);
                        if self.front() - 1 < i {
                            assert(key::key_lt(self.all()[self.front() - 1].0, self.all()[i].0));
                        }
                    }
                    compare(other.0, key) != KeyOrder::Less
                },
                None => vstd::pervasive::unreached(),
            },
            None => false,
        }
    }
}

impl<'t, K: Ord + Clone, V> Range<'t, K, V> {
    spec fn all(self) -> Seq<(K, V)> {
        chain::joined(self.leaves@)
    }

    /// The number of entries up to the one that was handed out last.
    spec fn position(self) -> int {
        match self.cursor {
            Some(c) => c.index(self.leaves@) + 1,
            None => 0,
        }
    }

    /// The entries that are still to come.
    pub closed spec fn rest(self) -> Seq<(K, V)> {
        if self.exhausted {
            Seq::empty()
        } else {
            self.all().skip(self.position()).filter(within(self.bounds))
        }
    }

    /// The cursors stand in the leaves.
    pub closed spec fn wf(self) -> bool {
        &&& key::ordered_key::<K>()
        &&& chain::all_wf(self.leaves@)
        &&& sorted::sorted(self.all())
        &&& !self.exhausted && self.cursor is Some ==> {
            let c = self.cursor->0;
            &&& c.on(self.leaves@)
            &&& 0 <= c.index(self.leaves@) < self.all().len()
            &&& self.bounds.from_start(self.all()[c.index(self.leaves@)].0)
            &&& !self.check_upper_bound ==> forall|x: int|
                0 <= x < chain::before(self.leaves@, c.at + 1) ==> self.bounds.to_end(
                    (#[trigger] self.all()[x]).0,
                )
        }
    }

    /// Goes to the first entry that does not lie below the range.
    fn start(&self) -> (r: Option<Cursor<'t, K, V>>)
        requires
            self.wf(),
        ensures
            match r {
                Some(c) => {
                    &&& c.on(self.leaves@)
                    &&& 0 <= c.index(self.leaves@) < self.all().len()
                    &&& self.bounds.from_start(self.all()[c.index(self.leaves@)].0)
                    &&& forall|x: int|
                        0 <= x < c.index(self.leaves@) ==> !self.bounds.from_start(
                            (#[trigger] self.all()[x]).0,
                        )
                },
                None => forall|x: int|
                    0 <= x < self.all().len() ==> !self.bounds.from_start(
                        (#[trigger] self.all()[x]).0,
                    ),
            },
    {
        let ghost all = self.all();
        proof {
            key::lemma_order::<K>();
            self.bounds.lemma_monotone();
            chain::lemma_ends(self.leaves@);
        }
        let near = match &self.bounds.start {
            KeyBound::Excluded(k) | KeyBound::Included(k) => {
                let near = approximate(&self.leaves, k);
                proof {
                    if near is Some {
                        let i = (near->0).index(self.leaves@);
                        assert forall|x: int| 0 <= x < i implies !self.bounds.from_start(
                            (#[trigger] all[x]).0,
                        ) by {
                            assert(key::key_lt(all[x].0, all[i].0));
                            assert(key::key_lt(all[x].0, *k));
                        }
                    }
                }
                near
            },
            KeyBound::Unbounded => None,
        };
        let mut cursor = match near {
            Some(c) => c,
            None => match enter(&self.leaves, 0) {
                Some(c) => c,
                None => {
                    return None;
                },
            },
        };
        loop
            invariant
                self.wf(),
                all == self.all(),
                cursor.on(self.leaves@),
                0 <= cursor.index(self.leaves@) < all.len(),
                forall|x: int|
                    0 <= x < cursor.index(self.leaves@) ==> !self.bounds.from_start(
                        (#[trigger] all[x]).0,
                    ),
            decreases all.len() - cursor.index(self.leaves@),
        {
            let ghost i = cursor.index(self.leaves@);
            proof {
                key::lemma_order::<K>();
                chain::lemma_before(self.leaves@, cursor.at as int);
                assert(self.leaves@[cursor.at as int]@[cursor.iter.rank() - 1] == all[i]);
            }
            match cursor.iter.get() {
                Some((k, _)) => {
                    let check_failed = match &self.bounds.start {
                        KeyBound::Excluded(key) => compare(key, k) != KeyOrder::Less,
                        KeyBound::Included(key) => compare(key, k) == KeyOrder::Greater,
                        KeyBound::Unbounded => false,
                    };
                    assert(check_failed == !self.bounds.from_start(all[i].0));
                    if !check_failed {
                        return Some(cursor);
                    }
                },
                None => {
                    assert(false);
                },
            }
            match advance(&self.leaves, cursor) {
                Some(c) => {
                    cursor = c;
                },
                None => {
                    return None;
                },
            }
        }
    }

    /// Whether entries of the leaf can lie above the range.
    fn upper_bound_matters(&self, cursor: &Cursor<'t, K, V>) -> (r: bool)
        requires
            key::ordered_key::<K>(),
            chain::all_wf(self.leaves@),
            sorted::sorted(self.all()),
            cursor.on(self.leaves@),
        ensures
            r == !self.bounds.to_end(self.leaves@[cursor.at as int]@.last().0),
            !r ==> forall|x: int|
                0 <= x < chain::before(self.leaves@, cursor.at + 1) ==> self.bounds.to_end(
                    (#[trigger] self.all()[x]).0,
                ),
    {
        let ghost all = self.all();
        let ghost last = chain::before(self.leaves@, cursor.at + 1) - 1;
        proof {
            key::lemma_order::<K>();
            self.bounds.lemma_monotone();
            chain::lemma_before(self.leaves@, cursor.at as int);
            let l = self.leaves@[cursor.at as int]@;
            assert(l[l.len() - 1] == all[last]);
            assert forall|x: int| 0 <= x <= last && self.bounds.to_end(all[last].0) implies self.bounds.to_end(
                (#[trigger] all[x]).0,
            ) by {
                if x < last {
                    assert(key::key_lt(all[x].0, all[last].0));
                }
            }
        }
        match (&self.bounds.end, cursor.iter.max_key()) {
            (KeyBound::Excluded(key), Some(k)) => compare(key, k) != KeyOrder::Greater,
            (KeyBound::Included(key), Some(k)) => compare(key, k) == KeyOrder::Less,
            _ => false,
        }
    }

    /// Goes to the next entry.
    #[verifier::spinoff_prover]
    #[verifier::rlimit(60)]
    pub fn next(&mut self) -> (r: Option<(&'t K, &'t V)>)
        requires
            old(self).wf(),
        ensures
            final(self).wf(),
            match r {
                Some((k, v)) => {
                    &&& old(self).rest().len() > 0
                    &&& old(self).rest()[0] == (*k, *v)
                    &&& final(self).rest() == old(self).rest().skip(1)
                },
                None => old(self).rest().len() == 0 && final(self).rest().len() == 0,
            },
    {
        if self.exhausted {
            return None;
        }
        let ghost all = self.all();
        let ghost f = self.position();
        let ghost w = within::<K, V>(self.bounds);
        let started = self.cursor.is_none();
        let next = match self.cursor.take() {
            None => self.start(),
            Some(cursor) => {
                let at = cursor.at;
                proof {
                    key::lemma_order::<K>();
                    self.bounds.lemma_monotone();
                    let i = cursor.index(self.leaves@);
                    assert forall|x: int| i < x < all.len() implies self.bounds.from_start(
                        (#[trigger] all[x]).0,
                    ) by {
                        assert(key::key_lt(all[i].0, all[x].0));
                    }
                }
                let next = advance(&self.leaves, cursor);
                next
            },
        };
        proof {
            assert(all.skip(0) =~= all);
        }
        match next {
            Some(cursor) => {
                let ghost i = cursor.index(self.leaves@);
                let ghost s = all.skip(f);
                proof {
                    chain::lemma_before(self.leaves@, cursor.at as int);
                    assert(self.leaves@[cursor.at as int]@[cursor.iter.rank() - 1] == all[i]);
                    assert(f <= i);
                    assert(self.bounds.from_start(all[i].0));
                    assert(s =~= all.subrange(f, i) + all.skip(i));
                    assert(all.skip(i) =~= seq![all[i]] + all.skip(i + 1));
                    Seq::filter_distributes_over_add(all.subrange(f, i), all.skip(i), w);
                    Seq::filter_distributes_over_add(seq![all[i]], all.skip(i + 1), w);
                    sorted::lemma_filter_none(all.subrange(f, i), w);
                }
                if started || cursor.iter.rank_is_first() {
                    let c = self.upper_bound_matters(&cursor);
                    self.check_upper_bound = c;
                }
                match cursor.iter.get() {
                    Some((k, v)) => {
                        let inside = if self.check_upper_bound {
                            proof {
                                key::lemma_order::<K>();
                            }
                            match &self.bounds.end {
                                KeyBound::Excluded(key) => compare(key, k) == KeyOrder::Greater,
                                KeyBound::Included(key) => compare(key, k) != KeyOrder::Less,
                                KeyBound::Unbounded => true,
                            }
                        } else {
                            true
                        };
                        assert(inside == self.bounds.to_end(all[i].0));
                        if inside {
                            self.cursor = Some(cursor);
                            proof {
                                sorted::lemma_filter_all(seq![all[i]], w);
                                assert(old(self).rest() =~= seq![all[i]] + self.rest());
                                assert(old(self).rest().skip(1) =~= self.rest());
                            }
                            Some((k, v))
                        } else {
                            self.exhausted = true;
                            proof {
                                key::lemma_order::<K>();
                                self.bounds.lemma_monotone();
                                let t = all.skip(i);
                                assert forall|x: int| 0 <= x < t.len() implies !w(
                                    #[trigger] t[x],
                                ) by {
                                    assert(t[x] == all[i + x]);
                                    if x > 0 {
                                        assert(key::key_lt(all[i].0, all[i + x].0));
                                    }
                                }
                                sorted::lemma_filter_none(t, w);
                            }
                            None
                        }
                    },
                    None => vstd::pervasive::unreached(),
                }
            },
            None => {
                self.exhausted = true;
                proof {
                    sorted::lemma_filter_none(all.skip(f), w);
                }
                None
            },
        }
    }
}

} // verus!
