//! Nodes at the bottom of the tree: leaves cut by separator keys.

use vstd::prelude::*;
use crate::tree::chain;
use crate::tree::dimension::NUM_ENTRIES;
use crate::tree::key;
use crate::tree::leaf;
use crate::tree::leaf::{InsertResult, Leaf, RemoveResult};
use crate::tree::parts;
use crate::tree::range::{KeyRange, RemoveRangeState};
use crate::tree::sorted;

verus! {

/// [`LeafNode`] contains a list of instances of `K, V` [`Leaf`].
///
/// The layout of a leaf node: `|leaf/max(leaf keys)|...|leaf|`
pub struct LeafNode<K, V> {
    /// Children of the [`LeafNode`].
    children: Leaf<K, Leaf<K, V>>,
    /// A child [`Leaf`] that has no upper key bound.
    ///
    /// It stores the maximum key in the node, and key-value pairs are first pushed to this
    /// [`Leaf`] until it splits.
    unbounded_child: Option<Leaf<K, V>>,
    /// The node has lost all its leaves and will get no other.
    retired: bool,
}

/// The leaf can be part of a node.
spec fn usable<K: Ord + Clone, V>(l: Leaf<K, V>) -> bool {
    l.wf() && !l.frozen()
}

/// A leaf that lost its last entry has retired.
spec fn tidy_leaf<K, V>(l: Leaf<K, V>) -> bool {
    l@.len() > 0 || l.retired()
}

impl<K, V> LeafNode<K, V> {
    spec fn count(self) -> int {
        self.children@.len() as int
    }

    spec fn seps(self) -> Seq<K> {
        Seq::new(self.children@.len(), |i: int| self.children@[i].0)
    }

    spec fn tail(self) -> Seq<(K, V)> {
        match self.unbounded_child {
            Some(l) => l@,
            None => Seq::empty(),
        }
    }

    spec fn parts(self) -> Seq<Seq<(K, V)>> {
        Seq::new(
            self.children@.len() + 1,
            |i: int|
                if i < self.children@.len() {
                    self.children@[i].1@
                } else {
                    self.tail()
                },
        )
    }

    /// The leaf at position `i`; none where the unbounded one is missing.
    spec fn leaf_at(self, i: int) -> Option<Leaf<K, V>> {
        if i < self.children@.len() {
            Some(self.children@[i].1)
        } else {
            self.unbounded_child
        }
    }

    /// The node has lost all its leaves and will get no other.
    pub closed spec fn retired(self) -> bool {
        self.retired
    }
}

impl<K, V> View for LeafNode<K, V> {
    type V = Seq<(K, V)>;

    /// The entries, in key order.
    closed spec fn view(&self) -> Seq<(K, V)> {
        parts::flat(self.parts())
    }
}

impl<K: Ord + Clone, V> LeafNode<K, V> {
    /// The leaves lie between the bounds, cut by the separators.
    spec fn frame(self, lo: Option<K>, hi: Option<K>) -> bool {
        &&& self.children.wf()
        &&& !self.children.frozen()
        &&& forall|i: int| 0 <= i < self.children@.len() ==> usable((#[trigger] self.children@[i]).1)
        &&& self.unbounded_child is Some ==> usable(self.unbounded_child->0)
        &&& self.unbounded_child is None ==> self.children@.len() == 0
        &&& self.retired ==> self.unbounded_child is None
        &&& parts::framed(lo, hi, self.seps(), self.parts())
    }

    /// Every leaf but the one at position `x` has an entry or has retired.
    spec fn tidy_but(self, x: int) -> bool {
        &&& forall|i: int|
            0 <= i < self.children@.len() && i != x ==> tidy_leaf((#[trigger] self.children@[i]).1)
        &&& self.unbounded_child is Some && x != self.children@.len() ==> tidy_leaf(
            self.unbounded_child->0,
        )
    }

    /// The node is well-formed, and its keys lie between the bounds.
    pub closed spec fn wf_in(self, lo: Option<K>, hi: Option<K>) -> bool {
        self.frame(lo, hi) && self.tidy_but(-1)
    }

    /// The node is well-formed.
    pub open spec fn wf(self) -> bool {
        self.wf_in(None, None)
    }

    /// A separator can be added.
    pub closed spec fn has_room(self) -> bool {
        !self.retired && self.children.has_room()
    }

    /// The position of the leaf for the key.
    spec fn route(self, k: K) -> int {
        sorted::place(self.children@, k)
    }

    spec fn routed_room(self, k: K) -> bool {
        match self.leaf_at(self.route(k)) {
            Some(l) => l.has_room(),
            None => !self.retired,
        }
    }

    /// The leaf for the key cannot take it, and can be neither cut in two nor replaced.
    pub closed spec fn must_split(self, k: K) -> bool {
        &&& !self.routed_room(k)
        &&& self.retired || (!self.children.has_room() && match self.leaf_at(self.route(k)) {
            Some(l) => l.boundary() < l@.len(),
            None => false,
        })
    }

    /// A node with room takes every key.
    pub proof fn lemma_room(self, k: K)
        requires
            self.has_room(),
        ensures
            !self.must_split(k),
            !self.retired(),
    {
    }

    /// A retired node takes no key.
    pub proof fn lemma_retired(self, lo: Option<K>, hi: Option<K>, k: K)
        requires
            self.wf_in(lo, hi),
            self.retired(),
        ensures
            self.must_split(k),
    {
    }

    /// A well-formed node is a sorted sequence between its bounds; a retired one is empty.
    pub proof fn lemma_wf(self, lo: Option<K>, hi: Option<K>)
        requires
            self.wf_in(lo, hi),
            key::ordered_key::<K>(),
        ensures
            sorted::sorted(self@),
            parts::all_between(lo, self@, hi),
            self.retired() ==> self@.len() == 0,
    {
        parts::lemma_framed_entries(lo, hi, self.seps(), self.parts());
        if self.retired {
            assert(self.parts() =~= seq![Seq::<(K, V)>::empty()]);
            parts::lemma_flat_one(Seq::<(K, V)>::empty());
        }
    }

    proof fn lemma_routes(self, k: K)
        requires
            self.children.wf(),
            key::ordered_key::<K>(),
        ensures
            parts::routes(self.seps(), k, self.route(k)),
    {
        self.children.lemma_wf();
        sorted::lemma_place(self.children@, k);
        let s = self.seps();
        assert forall|j: int| 0 <= j < self.route(k) implies key::key_lt(#[trigger] s[j], k) by {
            assert(s[j] == self.children@[j].0);
        }
        assert forall|j: int| self.route(k) <= j < s.len() implies !key::key_lt(
            #[trigger] s[j],
            k,
        ) by {
            assert(s[j] == self.children@[j].0);
        }
    }

    /// Creates a new empty [`LeafNode`].
    pub fn new() -> (n: LeafNode<K, V>)
        ensures
            forall|lo: Option<K>, hi: Option<K>| #[trigger] n.wf_in(lo, hi),
            n@ == Seq::<(K, V)>::empty(),
            n.has_room(),
            !n.retired(),
    {
        let n: LeafNode<K, V> = LeafNode {
            children: Leaf::new(),
            unbounded_child: None,
            retired: false,
        };
        proof {
            assert(n.parts() =~= seq![Seq::<(K, V)>::empty()]);
            parts::lemma_flat_one(Seq::<(K, V)>::empty());
        }
        n
    }

    /// Returns `true` if the [`LeafNode`] has retired.
    pub fn is_retired(&self) -> (r: bool)
        ensures
            r == self.retired(),
    {
        self.retired
    }

    /// Searches for an entry containing the specified key.
    pub fn search_entry(&self, key: &K) -> (r: Option<(&K, &V)>)
        requires
            self.wf(),
            key::ordered_key::<K>(),
        ensures
            match r {
                Some((k, v)) => sorted::lookup(self@, *key) == Some((*k, *v)),
                None => sorted::lookup(self@, *key) is None,
            },
    {
        self.search_entry_in(key, Ghost(None), Ghost(None))
    }

    /// Searches for an entry containing the specified key, which lies between the bounds.
    pub(crate) fn search_entry_in(
        &self,
        key: &K,
        Ghost(lo): Ghost<Option<K>>,
        Ghost(hi): Ghost<Option<K>>,
    ) -> (r: Option<(&K, &V)>)
        requires
            self.wf_in(lo, hi),
            parts::between(lo, *key, hi),
            key::ordered_key::<K>(),
        ensures
            match r {
                Some((k, v)) => sorted::lookup(self@, *key) == Some((*k, *v)),
                None => sorted::lookup(self@, *key) is None,
            },
    {
        let slot = self.children.slot_greater_equal(key);
        proof {
            let i = self.route(*key);
            self.lemma_routes(*key);
            parts::lemma_route(lo, hi, self.seps(), self.parts(), *key, i);
        }
        match slot {
            Some(s) => {
                let (_, child) = self.children.entry_at(s);
                child.search_entry(key)
            },
            None => match &self.unbounded_child {
                Some(unbounded) => unbounded.search_entry(key),
                None => None,
            },
        }
    }

    /// Searches for the value associated with the specified key.
    pub(crate) fn search_value_in(
        &self,
        key: &K,
        Ghost(lo): Ghost<Option<K>>,
        Ghost(hi): Ghost<Option<K>>,
    ) -> (r: Option<&V>)
        requires
            self.wf_in(lo, hi),
            parts::between(lo, *key, hi),
            key::ordered_key::<K>(),
        ensures
            match r {
                Some(v) => sorted::lookup(self@, *key) is Some && *v == (sorted::lookup(
                    self@,
                    *key,
                )->0).1,
                None => sorted::lookup(self@, *key) is None,
            },
    {
        let slot = self.children.slot_greater_equal(key);
        proof {
            let i = self.route(*key);
            self.lemma_routes(*key);
            parts::lemma_route(lo, hi, self.seps(), self.parts(), *key, i);
        }
        match slot {
            Some(s) => {
                let (_, child) = self.children.entry_at(s);
                child.search_value(key)
            },
            None => match &self.unbounded_child {
                Some(unbounded) => unbounded.search_value(key),
                None => None,
            },
        }
    }

    /// Searches for the value associated with the specified key.
    pub fn search_value(&self, key: &K) -> (r: Option<&V>)
        requires
            self.wf(),
            key::ordered_key::<K>(),
        ensures
            match r {
                Some(v) => sorted::lookup(self@, *key) is Some && *v == (sorted::lookup(
                    self@,
                    *key,
                )->0).1,
                None => sorted::lookup(self@, *key) is None,
            },
    {
        self.search_value_in(key, Ghost(None), Ghost(None))
    }

    /// Inserts a key-value pair to the leaf for the key.
    fn insert_once(
        &mut self,
        key: K,
        val: V,
        Ghost(lo): Ghost<Option<K>>,
        Ghost(hi): Ghost<Option<K>>,
    ) -> (r: InsertResult<K, V>)
        requires
            old(self).frame(lo, hi),
            old(self).tidy_but(old(self).route(key)),
            parts::between(lo, key, hi),
            key::ordered_key::<K>(),
        ensures
            final(self).frame(lo, hi),
            final(self).retired == old(self).retired,
            if sorted::found(old(self)@, key) {
                r == InsertResult::Duplicate(key, val) && final(self).alike(*old(self))
            } else if old(self).routed_room(key) {
                &&& r == InsertResult::<K, V>::Success
                &&& final(self)@ == sorted::inserted(old(self)@, key, val)
                &&& final(self).tidy_but(-1)
            } else {
                r == InsertResult::Full(key, val) && final(self).alike(*old(self))
            },
    {
        let slot = self.children.slot_greater_equal(&key);
        let ghost i = self.route(key);
        proof {
            self.children.lemma_wf();
            self.lemma_routes(key);
            parts::lemma_route(lo, hi, self.seps(), self.parts(), key, i);
        }
        match slot {
            Some(s) => {
                proof {
                    self.children@[i].1.lemma_wf();
                }
                let r = self.children.value_mut(s).insert(key, val);
                proof {
                    let q = self.children@[i].1@;
                    assert(self.seps() =~= old(self).seps());
                    assert(self.parts() =~= old(self).parts().update(i, q));
                    assert(old(self).parts().update(i, old(self).parts()[i])
                        =~= old(self).parts());
                    assert forall|j: int|
                        0 <= j < self.children@.len() && j != i implies #[trigger] self.children@[j]
                        == old(self).children@[j] by {
                    }
                }
                r
            },
            None => {
                if self.unbounded_child.is_none() {
                    if self.retired {
                        return InsertResult::Full(key, val);
                    }
                    self.unbounded_child = Some(Leaf::new());
                    proof {
                        assert(self.seps() =~= old(self).seps());
                        assert(self.parts() =~= old(self).parts());
                    }
                }
                let ghost before = *self;
                match &mut self.unbounded_child {
                    Some(unbounded) => {
                        proof {
                            unbounded.lemma_wf();
                        }
                        let r = unbounded.insert(key, val);
                        proof {
                            let q = self.tail();
                            assert(self.seps() =~= old(self).seps());
                            assert(self.parts() =~= old(self).parts().update(i, q));
                            assert(old(self).parts().update(i, old(self).parts()[i])
                                =~= old(self).parts());
                        }
                        r
                    },
                    None => vstd::pervasive::unreached(),
                }
            },
        }
    }

    /// Nothing that later operations depend on differs.
    spec fn alike(self, other: Self) -> bool {
        &&& self.seps() == other.seps()
        &&& self.parts() == other.parts()
        &&& self.children.has_room() == other.children.has_room()
        &&& self.children.boundary() == other.children.boundary()
        &&& self.children@.len() == other.children@.len()
        &&& self.retired == other.retired
        &&& self.unbounded_child is None == other.unbounded_child is None
        &&& forall|i: int|
            #![trigger self.leaf_at(i)]
            0 <= i <= self.children@.len() && self.leaf_at(i) is Some ==> (self.leaf_at(
                i,
            )->0).same(other.leaf_at(i)->0)
    }

    /// Inserts a key-value pair.
    pub fn insert(&mut self, key: K, val: V) -> (r: InsertResult<K, V>)
        requires
            old(self).wf(),
            key::ordered_key::<K>(),
        ensures
            final(self).wf(),
            final(self).retired() == old(self).retired(),
            if sorted::found(old(self)@, key) {
                r == InsertResult::Duplicate(key, val) && final(self)@ == old(self)@
            } else if old(self).must_split(key) {
                r == InsertResult::Full(key, val) && final(self)@ == old(self)@
                    && final(self).divisible() == old(self).divisible()
            } else {
                &&& r == InsertResult::<K, V>::Success
                &&& final(self)@ == sorted::inserted(old(self)@, key, val)
            },
    {
        self.insert_in(key, val, Ghost(None), Ghost(None))
    }

    /// Inserts a key-value pair whose key lies between the bounds.
    pub(crate) fn insert_in(
        &mut self,
        key: K,
        val: V,
        Ghost(lo): Ghost<Option<K>>,
        Ghost(hi): Ghost<Option<K>>,
    ) -> (r: InsertResult<K, V>)
        requires
            old(self).wf_in(lo, hi),
            parts::between(lo, key, hi),
            key::ordered_key::<K>(),
        ensures
            final(self).wf_in(lo, hi),
            final(self).retired() == old(self).retired(),
            if sorted::found(old(self)@, key) {
                r == InsertResult::Duplicate(key, val) && final(self)@ == old(self)@
            } else if old(self).must_split(key) {
                r == InsertResult::Full(key, val) && final(self)@ == old(self)@
                    && final(self).divisible() == old(self).divisible()
            } else {
                &&& r == InsertResult::<K, V>::Success
                &&& final(self)@ == sorted::inserted(old(self)@, key, val)
            },
    {
        match self.insert_once(key, val, Ghost(lo), Ghost(hi)) {
            InsertResult::Full(k, v) => {
                let slot = self.children.slot_greater_equal(&k);
                proof {
                    self.lemma_alike(*old(self), key);
                    self.children.lemma_wf();
                    if self.unbounded_child is None {
                        assert(old(self).leaf_at(old(self).route(key)) is None);
                    }
                }
                if !self.split_leaf(slot, Ghost(key), Ghost(lo), Ghost(hi)) {
                    return InsertResult::Full(k, v);
                }
                self.insert_once(k, v, Ghost(lo), Ghost(hi))
            },
            r => {
                proof {
                    if sorted::found(old(self)@, key) {
                        self.lemma_alike(*old(self), key);
                    }
                }
                r
            },
        }
    }

    proof fn lemma_alike(self, other: Self, k: K)
        requires
            self.alike(other),
            self.children.wf(),
            other.children.wf(),
            key::ordered_key::<K>(),
        ensures
            self.route(k) == other.route(k),
            self.children@.len() == other.children@.len(),
            self@ == other@,
            forall|x: int| self.tidy_but(x) == other.tidy_but(x),
            self.leaf_at(self.route(k)) is Some == other.leaf_at(self.route(k)) is Some,
            self.leaf_at(self.route(k)) is Some ==> (self.leaf_at(self.route(k))->0).same(
                other.leaf_at(self.route(k))->0,
            ),
    {
        assert(self.seps().len() == other.seps().len());
        self.lemma_routes(k);
        other.lemma_routes(k);
        let i = self.route(k);
        let j = other.route(k);
        let s = self.seps();
        if i < j {
            assert(key::key_lt(s[i], k));
        }
        if j < i {
            assert(key::key_lt(s[j], k));
        }
        assert forall|x: int| self.tidy_but(x) == other.tidy_but(x) by {
            assert forall|i: int| 0 <= i < self.children@.len() implies tidy_leaf(
                (#[trigger] self.children@[i]).1,
            ) == tidy_leaf(other.children@[i].1) by {
                assert(self.leaf_at(i) is Some);
            }
            let n = self.children@.len() as int;
            if self.unbounded_child is Some {
                assert(self.leaf_at(n) is Some);
            }
            if self.tidy_but(x) {
                assert forall|i: int| 0 <= i < other.children@.len() && i != x implies tidy_leaf(
                    (#[trigger] other.children@[i]).1,
                ) by {
                    assert(tidy_leaf(self.children@[i].1));
                }
            }
        }
        assert(self.leaf_at(i) is Some == other.leaf_at(i) is Some);
    }

    /// The slot is that of the leaf at position `i`; no slot stands for the unbounded one.
    spec fn slot_at(self, slot: Option<usize>, i: int) -> bool {
        match slot {
            Some(s) => self.children.has(s as int) && self.children.at(s as int) == i && 0 <= i
                < self.children@.len(),
            None => i == self.children@.len() && self.unbounded_child is Some,
        }
    }

    /// The node is as `before`, but for the leaf at position `i`, in whose place stands one with
    /// the same entries.
    spec fn renews(self, before: Self, i: int) -> bool {
        &&& self.seps() == before.seps()
        &&& self.parts() == before.parts()
        &&& forall|j: int|
            #![trigger self.leaf_at(j)]
            0 <= j <= self.count() && j != i ==> self.leaf_at(j) == before.leaf_at(j)
    }

    /// The node is as `before`, but for the leaf at position `i`, which was cut in two: its first
    /// `n` entries lie in the leaf before the new separator `b`, the largest key among them, and
    /// the others in the leaf behind it.
    spec fn cuts(self, before: Self, i: int, n: int, b: K) -> bool {
        &&& self.seps() == before.seps().insert(i, b)
        &&& self.parts()[i] == before.parts()[i].take(n)
        &&& self.parts()[i + 1] == before.parts()[i].skip(n)
        &&& self.parts()[i].len() > 0
        &&& key::key_eq(self.parts()[i].last().0, b)
        &&& forall|j: int|
            #![trigger self.leaf_at(j)]
            0 <= j < i ==> self.leaf_at(j) == before.leaf_at(j)
        &&& forall|j: int|
            #![trigger self.leaf_at(j)]
            i + 1 < j <= self.count() ==> self.leaf_at(j) == before.leaf_at(j - 1)
    }

    /// Puts another leaf in the place of one.
    fn replace_leaf(&mut self, slot: Option<usize>, leaf: Leaf<K, V>, Ghost(i): Ghost<int>) -> (r:
        Leaf<K, V>)
        requires
            old(self).children.wf(),
            key::ordered_key::<K>(),
            old(self).slot_at(slot, i),
        ensures
            Some(r) == old(self).leaf_at(i),
            final(self).children.wf(),
            final(self).children.frozen() == old(self).children.frozen(),
            final(self).children.retired() == old(self).children.retired(),
            final(self).children.used() == old(self).children.used(),
            final(self).slot_at(slot, i),
            final(self).retired == old(self).retired,
            slot is Some ==> final(self).unbounded_child == old(self).unbounded_child
                && final(self).children@ == old(self).children@.update(
                i,
                (old(self).children@[i].0, leaf),
            ),
            slot is None ==> final(self).unbounded_child == Some(leaf) && final(self).children
                == old(self).children,
            final(self).seps() == old(self).seps(),
            final(self).parts() == old(self).parts().update(i, leaf@),
    {
        proof {
            self.children.lemma_wf();
        }
        let r = match slot {
            Some(s) => {
                let mut other = leaf;
                core::mem::swap(self.children.value_mut(s), &mut other);
                other
            },
            None => {
                let r = self.unbounded_child.take();
                self.unbounded_child = Some(leaf);
                match r {
                    Some(l) => l,
                    None => vstd::pervasive::unreached(),
                }
            },
        };
        proof {
            assert(self.seps() =~= old(self).seps());
            assert(self.parts() =~= old(self).parts().update(i, leaf@));
        }
        r
    }

    /// A leaf can be cut in two at the largest key of the low entries.
    proof fn lemma_cuts(
        self,
        before: Self,
        lo: Option<K>,
        hi: Option<K>,
        i: int,
        n: int,
        b: K,
        low: Leaf<K, V>,
        high: Leaf<K, V>,
    )
        requires
            key::ordered_key::<K>(),
            before.frame(lo, hi),
            before.tidy_but(-1),
            !before.retired,
            0 <= i <= before.count(),
            self.children.wf(),
            !self.children.frozen(),
            !self.retired,
            self.unbounded_child is Some,
            self.seps() == before.seps().insert(i, b),
            self.leaf_at(i) == Some(low),
            self.leaf_at(i + 1) == Some(high),
            forall|j: int|
                #![trigger self.leaf_at(j)]
                0 <= j < i ==> self.leaf_at(j) == before.leaf_at(j),
            forall|j: int|
                #![trigger self.leaf_at(j)]
                i + 1 < j <= self.count() ==> self.leaf_at(j) == before.leaf_at(j - 1),
            usable(low),
            usable(high),
            low@.len() > 0,
            high@.len() > 0,
            key::key_eq(low@.last().0, b),
            0 <= n <= before.parts()[i].len(),
            low@ == before.parts()[i].take(n),
            high@ == before.parts()[i].skip(n),
        ensures
            self.frame(lo, hi),
            self.tidy_but(-1),
            self@ == before@,
            self.cuts(before, i, n, b),
    {
        let seps = before.seps();
        let ps = before.parts();
        assert(ps[i] =~= low@ + high@);
        self.lemma_cut_at(lo, hi, ps, seps, i, b, low@, high@);
        parts::lemma_cut(lo, hi, seps, ps, i, b, low@, high@);
        let q = ps.update(i, high@).insert(i, low@);
        assert(self.count() == before.count() + 1);
        assert(self.parts() =~= q) by {
            assert forall|j: int| 0 <= j < q.len() implies #[trigger] self.parts()[j] == q[j] by {
                if j < i {
                    assert(self.leaf_at(j) == before.leaf_at(j));
                } else if j == i {
                    assert(self.leaf_at(i) == Some(low));
                } else if j == i + 1 {
                    assert(self.leaf_at(i + 1) == Some(high));
                } else {
                    assert(self.leaf_at(j) == before.leaf_at(j - 1));
                }
            }
        }
        assert forall|j: int| 0 <= j <= self.count() && self.leaf_at(j) is Some implies usable(
            (#[trigger] self.leaf_at(j))->0,
        ) && tidy_leaf(self.leaf_at(j)->0) by {
            if j < i {
                assert(usable(before.children@[j].1));
            } else if j > i + 1 {
                if j - 1 < before.count() {
                    assert(usable(before.children@[j - 1].1));
                }
            }
        }
        assert forall|j: int| 0 <= j < self.children@.len() implies usable(
            (#[trigger] self.children@[j]).1,
        ) && tidy_leaf(self.children@[j].1) by {
            assert(self.leaf_at(j) == Some(self.children@[j].1));
        }
        assert(self.leaf_at(self.count()) == self.unbounded_child);
    }

    /// Splits a full leaf, or replaces it where its entries fit one leaf.
    ///
    /// Returns `false` if the parent node needs to be split.
    fn split_leaf(
        &mut self,
        slot: Option<usize>,
        Ghost(key): Ghost<K>,
        Ghost(lo): Ghost<Option<K>>,
        Ghost(hi): Ghost<Option<K>>,
    ) -> (r: bool)
        requires
            old(self).frame(lo, hi),
            old(self).tidy_but(-1),
            key::ordered_key::<K>(),
            !old(self).retired ==> old(self).slot_at(slot, old(self).route(key)),
        ensures
            final(self).frame(lo, hi),
            final(self)@ == old(self)@,
            final(self).retired == old(self).retired,
            r == !(old(self).retired || (!old(self).children.has_room() && (old(self).leaf_at(
                old(self).route(key),
            )->0).boundary() < (old(self).leaf_at(old(self).route(key))->0)@.len())),
            !r ==> *final(self) == *old(self),
            r ==> final(self).routed_room(key) && final(self).tidy_but(final(self).route(key)),
            r ==> {
                let i = old(self).route(key);
                let leaf = old(self).leaf_at(i)->0;
                if leaf.boundary() < leaf@.len() {
                    exists|b: K| #[trigger] final(self).cuts(*old(self), i, leaf.boundary(), b)
                } else {
                    final(self).renews(*old(self), i)
                }
            },
    {
        if self.retired {
            // Let the parent node clean up this node.
            return false;
        }
        let ghost i = self.route(key);
        proof {
            self.children.lemma_wf();
            self.lemma_routes(key);
        }
        let is_full = self.children.is_full();
        let boundary: usize;
        let len: usize;
        match slot {
            Some(s) => {
                let (_, child) = self.children.entry_at(s);
                boundary = child.split_point();
                len = child.count();
            },
            None => match &self.unbounded_child {
                Some(unbounded) => {
                    boundary = unbounded.split_point();
                    len = unbounded.count();
                },
                None => {
                    return false;
                },
            },
        }
        let ghost t = (self.leaf_at(i)->0)@;
        proof {
            assert(t == self.parts()[i]);
            assert(usable(self.leaf_at(i)->0));
            (self.leaf_at(i)->0).lemma_wf();
        }
        if boundary < len && is_full {
            return false;
        }
        let target = self.replace_leaf(slot, Leaf::new(), Ghost(i));
        let ghost emptied = *self;
        let (low_key_leaf, high_key_leaf) = target.split(boundary);
        let ghost seps = old(self).seps();
        let ghost ps = old(self).parts();
        if high_key_leaf.is_empty() {
            let ghost low = low_key_leaf;
            proof {
                assert(low@ =~= t) by {
                    if boundary <= t.len() {
                        assert(t.skip(boundary as int).len() == 0);
                        assert(t.take(boundary as int) =~= t);
                    }
                }
            }
            self.replace_leaf(slot, low_key_leaf, Ghost(i));
            proof {
                assert(self.seps() =~= seps);
                assert(self.parts() =~= ps) by {
                    assert(ps.update(i, Seq::empty()).update(i, t) =~= ps);
                }
                self.lemma_routes(key);
                self.lemma_same_route(*old(self), key);
                assert(self.leaf_at(i) == Some(low));
                assert forall|j: int|
                    0 <= j < self.children@.len() && j != i implies #[trigger] self.children@[j]
                    == old(self).children@[j] by {
                }
                assert forall|j: int|
                    #![trigger self.leaf_at(j)]
                    0 <= j <= self.count() && j != i implies self.leaf_at(j) == old(self).leaf_at(
                    j,
                ) by {
                }
            }
        } else {
            let ghost low = low_key_leaf;
            let ghost high = high_key_leaf;
            let low_key_max = match low_key_leaf.max_key() {
                Some(k) => {
                    let c = k.clone();
                    assert(cloned(*k, c));
                    c
                },
                None => vstd::pervasive::unreached(),
            };
            proof {
                assert(t =~= low@ + high@);
                self.lemma_cut_at(lo, hi, ps, seps, i, low_key_max, low@, high@);
                parts::lemma_cut(lo, hi, seps, ps, i, low_key_max, low@, high@);
            }
            self.replace_leaf(slot, high_key_leaf, Ghost(i));
            // Take the max key value stored in the low key leaf as the leaf key.
            let ghost before = *self;
            proof {
                assert(self.seps() =~= seps);
                assert(self.parts() =~= ps.update(i, high@)) by {
                    assert(ps.update(i, Seq::empty()).update(i, high@) =~= ps.update(i, high@));
                }
                self.lemma_route_is(low_key_max, i);
                key::lemma_order::<K>();
                if i < seps.len() {
                    assert(key::key_lt(low_key_max, seps[i]));
                    assert(self.children@[i].0 == seps[i]);
                }
                assert(!sorted::found(self.children@, low_key_max));
            }
            let result = self.children.insert(low_key_max, low_key_leaf);
            proof {
                assert(self.children@ == before.children@.insert(i, (low_key_max, low)));
                assert(self.seps() =~= seps.insert(i, low_key_max));
                let n = if key::key_lt(low_key_max, key) { i + 1 } else { i };
                assert(parts::routes(seps, key, i));
                assert(parts::routes(self.seps(), key, n));
                self.lemma_route_is(key, n);
                assert(self.leaf_at(i) == Some(low));
                assert(self.leaf_at(i + 1) == Some(high));
                assert forall|j: int|
                    #![trigger self.leaf_at(j)]
                    0 <= j < i implies self.leaf_at(j) == old(self).leaf_at(j) by {
                    assert(self.children@[j] == old(self).children@[j]);
                }
                assert forall|j: int|
                    #![trigger self.leaf_at(j)]
                    i + 1 < j <= self.count() implies self.leaf_at(j) == old(self).leaf_at(
                    j - 1,
                ) by {
                    if j < self.count() {
                        assert(self.children@[j] == old(self).children@[j - 1]);
                    }
                }
                self.lemma_cuts(*old(self), lo, hi, i, boundary as int, low_key_max, low, high);
            }
        }
        true
    }

    /// A key on the cut of a leaf's entries lies between the leaf's bounds.
    proof fn lemma_cut_at(
        self,
        lo: Option<K>,
        hi: Option<K>,
        ps: Seq<Seq<(K, V)>>,
        seps: Seq<K>,
        i: int,
        m: K,
        a: Seq<(K, V)>,
        b: Seq<(K, V)>,
    )
        requires
            key::ordered_key::<K>(),
            parts::framed(lo, hi, seps, ps),
            0 <= i < ps.len(),
            ps[i] == a + b,
            a.len() > 0,
            b.len() > 0,
            key::key_eq(a.last().0, m),
        ensures
            parts::above(parts::lo_at(lo, seps, i), m),
            parts::below(m, parts::hi_at(hi, seps, i)),
            parts::all_between(parts::lo_at(lo, seps, i), a, Some(m)),
            parts::all_between(Some(m), b, parts::hi_at(hi, seps, i)),
    {
        key::lemma_order::<K>();
        let p = ps[i];
        let n = a.len() - 1;
        assert(p[n] == a.last());
        assert(p[n + 1] == b[0]);
        let l = parts::lo_at(lo, seps, i);
        let h = parts::hi_at(hi, seps, i);
        assert(parts::between(l, p[n].0, h));
        assert(parts::between(l, p[n + 1].0, h));
        assert(key::key_lt(p[n].0, p[n + 1].0));
        assert(key::key_eq(m, p[n].0));
        assert forall|x: int| 0 <= x < a.len() implies parts::between(
            l,
            (#[trigger] a[x]).0,
            Some(m),
        ) by {
            assert(p[x] == a[x]);
            assert(parts::between(l, p[x].0, h));
            if x < n {
                assert(key::key_lt(p[x].0, p[n].0));
            }
        }
        assert forall|x: int| 0 <= x < b.len() implies parts::between(
            Some(m),
            (#[trigger] b[x]).0,
            h,
        ) by {
            assert(p[a.len() + x] == b[x]);
            assert(parts::between(l, p[a.len() + x].0, h));
            assert(key::key_lt(p[n].0, p[a.len() + x].0));
        }
    }

    proof fn lemma_same_route(self, other: Self, k: K)
        requires
            self.children.wf(),
            other.children.wf(),
            key::ordered_key::<K>(),
            self.seps() == other.seps(),
        ensures
            self.route(k) == other.route(k),
    {
        other.lemma_routes(k);
        self.lemma_route_is(k, other.route(k));
    }

    proof fn lemma_route_is(self, k: K, i: int)
        requires
            self.children.wf(),
            key::ordered_key::<K>(),
            parts::routes(self.seps(), k, i),
        ensures
            self.route(k) == i,
    {
        self.children.lemma_wf();
        let s = self.seps();
        assert forall|j: int| 0 <= j < i implies key::key_lt(
            #[trigger] self.children@[j].0,
            k,
        ) by {
            assert(key::key_lt(s[j], k));
        }
        assert forall|j: int| i <= j < self.children@.len() implies !key::key_lt(
            #[trigger] self.children@[j].0,
            k,
        ) by {
            assert(!key::key_lt(s[j], k));
        }
        assert(sorted::parts_at(self.children@, k, i));
        sorted::lemma_place_unique(self.children@, k, i);
    }

    /// Removes an entry associated with the given key.
    pub fn remove_if<F: Fn(&V) -> bool>(&mut self, key: &K, condition: &F) -> (r: RemoveResult)
        requires
            old(self).wf(),
            key::ordered_key::<K>(),
            sorted::found(old(self)@, *key) ==> call_requires(
                *condition,
                (&old(self)@[sorted::place(old(self)@, *key)].1,),
            ),
        ensures
            final(self).wf(),
            if !sorted::found(old(self)@, *key) {
                r == RemoveResult::Fail && final(self)@ == old(self)@ && final(self).retired()
                    == old(self).retired()
            } else {
                let v = old(self)@[sorted::place(old(self)@, *key)].1;
                ||| r == RemoveResult::Fail && final(self)@ == old(self)@ && call_ensures(
                    *condition,
                    (&v,),
                    false,
                ) && final(self).retired() == old(self).retired()
                ||| {
                    &&& call_ensures(*condition, (&v,), true)
                    &&& final(self)@ == sorted::removed(old(self)@, *key)
                    &&& final(self).retired() == (old(self)@.len() == 1)
                    &&& r == (if old(self)@.len() == 1 {
                        RemoveResult::Retired
                    } else {
                        RemoveResult::Success
                    })
                }
            },
    {
        self.remove_if_in(key, condition, Ghost(None), Ghost(None))
    }

    /// Removes an entry associated with the given key, which lies between the bounds.
    pub(crate) fn remove_if_in<F: Fn(&V) -> bool>(
        &mut self,
        key: &K,
        condition: &F,
        Ghost(lo): Ghost<Option<K>>,
        Ghost(hi): Ghost<Option<K>>,
    ) -> (r: RemoveResult)
        requires
            old(self).wf_in(lo, hi),
            parts::between(lo, *key, hi),
            key::ordered_key::<K>(),
            sorted::found(old(self)@, *key) ==> call_requires(
                *condition,
                (&old(self)@[sorted::place(old(self)@, *key)].1,),
            ),
        ensures
            final(self).wf_in(lo, hi),
            if !sorted::found(old(self)@, *key) {
                r == RemoveResult::Fail && final(self)@ == old(self)@ && final(self).retired()
                    == old(self).retired()
            } else {
                let v = old(self)@[sorted::place(old(self)@, *key)].1;
                ||| r == RemoveResult::Fail && final(self)@ == old(self)@ && call_ensures(
                    *condition,
                    (&v,),
                    false,
                ) && final(self).retired() == old(self).retired()
                ||| {
                    &&& call_ensures(*condition, (&v,), true)
                    &&& final(self)@ == sorted::removed(old(self)@, *key)
                    &&& final(self).retired() == (old(self)@.len() == 1)
                    &&& r == (if old(self)@.len() == 1 {
                        RemoveResult::Retired
                    } else {
                        RemoveResult::Success
                    })
                }
            },
    {
        let slot = self.children.slot_greater_equal(key);
        let ghost i = self.route(*key);
        let ghost p = self.parts();
        proof {
            self.children.lemma_wf();
            self.lemma_wf(lo, hi);
            self.lemma_routes(*key);
            parts::lemma_route(lo, hi, self.seps(), p, *key, i);
            parts::lemma_flat_at(p, i);
            sorted::lemma_place(self@, *key);
            sorted::lemma_place(p[i], *key);
        }
        let result = match slot {
            Some(s) => self.children.value_mut(s).remove_if(key, condition),
            None => match &mut self.unbounded_child {
                Some(unbounded) => unbounded.remove_if(key, condition),
                None => {
                    return RemoveResult::Fail;
                },
            },
        };
        proof {
            let l = self.leaf_at(i)->0;
            assert(self.seps() =~= old(self).seps());
            assert(self.parts() =~= p.update(i, l@));
            assert(p.update(i, p[i]) =~= p);
            assert forall|j: int|
                0 <= j < self.children@.len() && j != i implies #[trigger] self.children@[j] == old(
                self).children@[j] by {
            }
            if result == RemoveResult::Fail {
                assert(l == old(self).leaf_at(i)->0);
            }
        }
        if result == RemoveResult::Retired {
            return self.post_remove(Ghost(lo), Ghost(hi));
        }
        proof {
            if result == RemoveResult::Success {
                assert(p[i].len() > 1);
                assert(old(self)@.len() != 1);
            }
        }
        result
    }

    /// Tries to delete retired leaves after a successful removal of an entry.
    fn post_remove(&mut self, Ghost(lo): Ghost<Option<K>>, Ghost(hi): Ghost<Option<K>>) -> (r:
        RemoveResult)
        requires
            old(self).frame(lo, hi),
            old(self).tidy_but(-1),
            key::ordered_key::<K>(),
        ensures
            final(self).frame(lo, hi),
            final(self).tidy_but(-1),
            final(self)@ == old(self)@,
            final(self).retired == (old(self)@.len() == 0),
            r == (if old(self)@.len() == 0 {
                RemoveResult::Retired
            } else {
                RemoveResult::Success
            }),
    {
        if self.retired {
            proof {
                self.lemma_wf(lo, hi);
            }
            return RemoveResult::Retired;
        }
        let slots = self.children.slots();
        let mut has_valid_leaf: bool = false;
        let mut j: usize = 0;
        let ghost mut kept: int = 0;
        proof {
            self.children.lemma_wf();
        }
        while j < slots.len()
            invariant
                self.frame(lo, hi),
                self.tidy_but(-1),
                key::ordered_key::<K>(),
                self@ == old(self)@,
                !self.retired,
                j <= slots@.len(),
                0 <= kept,
                self.children@.len() == kept + slots@.len() - j,
                forall|i: int|
                    j <= i < slots@.len() ==> self.children.has(#[trigger] slots@[i] as int)
                        && self.children.at(slots@[i] as int) == kept + i - j && slots@[i]
                        < NUM_ENTRIES,
                forall|i: int|
                    0 <= i < kept ==> !(#[trigger] self.children@[i]).1.retired(),
                has_valid_leaf == (kept > 0),
            decreases slots@.len() - j,
        {
            let s = slots[j];
            proof {
                self.children.lemma_wf();
                assert(self.children.has(slots@[j as int] as int));
                assert(self.children.at(s as int) == kept);
            }
            let (_, child) = self.children.entry_at(s);
            if child.is_retired() {
                let ghost before = *self;
                proof {
                    assert(usable(self.children@[kept].1));
                    self.children@[kept].1.lemma_wf();
                    assert(self.parts()[kept].len() == 0);
                    parts::lemma_drop(lo, hi, self.seps(), self.parts(), kept);
                }
                let _ = self.children.take_unchecked(s);
                proof {
                    assert(self.children@ =~= before.children@.remove(kept));
                    assert(self.seps() =~= before.seps().remove(kept));
                    assert(self.parts() =~= before.parts().remove(kept));
                    assert forall|i: int| 0 <= i < self.children@.len() implies (
                    #[trigger] self.children@[i]) == before.children@[if i < kept { i } else { i + 1 }] by {
                    }
                    assert forall|i: int| j + 1 <= i < slots@.len() implies self.children.has(
                        #[trigger] slots@[i] as int,
                    ) && self.children.at(slots@[i] as int) == kept + i - (j + 1) by {
                        assert(before.children.has(slots@[i] as int));
                        assert(before.children.at(slots@[i] as int) == kept + i - j);
                    }
                }
            } else {
                has_valid_leaf = true;
                proof {
                    kept = kept + 1;
                }
            }
            j += 1;
        }

        // The unbounded leaf becomes unreachable after all the other leaves are gone.
        let ghost before = *self;
        let fully_empty = if has_valid_leaf {
            proof {
                let l = self.children@[0].1;
                assert(tidy_leaf(l));
                assert(self.parts()[0].len() > 0);
                parts::lemma_flat_at(self.parts(), 0);
            }
            false
        } else {
            let retired = match &self.unbounded_child {
                Some(unbounded) => {
                    proof {
                        unbounded.lemma_wf();
                    }
                    unbounded.is_retired()
                },
                None => true,
            };
            if retired {
                self.unbounded_child = None;
                proof {
                    assert(before.tail() =~= self.tail());
                    assert(self.seps() =~= before.seps());
                    assert(self.parts() =~= before.parts());
                }
            }
            proof {
                assert(before.parts() =~= seq![before.tail()]);
                parts::lemma_flat_one(before.tail());
            }
            retired
        };

        if fully_empty {
            self.retired = true;
            proof {
                assert(self.seps() =~= before.seps());
                assert(self.parts() =~= before.parts());
            }
            RemoveResult::Retired
        } else {
            RemoveResult::Success
        }
    }

    /// The node is as `before` without the leaf at position `i`.
    spec fn lost(self, before: Self, i: int) -> bool {
        &&& self.children.wf()
        &&& !self.children.frozen()
        &&& self.children@ == before.children@.remove(i)
        &&& self.unbounded_child == before.unbounded_child
        &&& self.retired == before.retired
    }

    /// A leaf all of whose entries lie in the range can be dropped.
    proof fn lemma_lost(
        self,
        before: Self,
        i: int,
        range: KeyRange<K>,
        lo: Option<K>,
        hi: Option<K>,
    )
        requires
            key::ordered_key::<K>(),
            before.frame(lo, hi),
            before.tidy_but(-1),
            0 <= i < before.count(),
            self.lost(before, i),
            parts::inside(range, before.parts()[i]),
        ensures
            self.frame(lo, hi),
            self.tidy_but(-1),
            self.seps() == before.seps().remove(i),
            self.parts() == before.parts().remove(i),
            parts::rest(range, self@) == parts::rest(range, before@),
    {
        let u = before.parts().update(i, parts::rest(range, before.parts()[i]));
        parts::lemma_rest(range, before.parts()[i]);
        parts::lemma_rest_update(range, lo, hi, before.seps(), before.parts(), i);
        assert(u.remove(i) =~= before.parts().remove(i));
        parts::lemma_drop(lo, hi, before.seps(), u, i);
        assert(self.seps() =~= before.seps().remove(i));
        assert(self.parts() =~= before.parts().remove(i));
        assert forall|x: int| 0 <= x < self.children@.len() implies (#[trigger] self.children@[x])
            == before.children@[if x < i {
            x
        } else {
            x + 1
        }] by {
        }
    }

    /// The node is as `before`, but for the leaf at position `i`, which lost its entries in the
    /// range.
    spec fn trims(self, before: Self, i: int, range: KeyRange<K>) -> bool {
        &&& self.children.wf()
        &&& !self.children.frozen()
        &&& self.children@.len() == before.children@.len()
        &&& self.retired == before.retired
        &&& self.unbounded_child is Some == before.unbounded_child is Some
        &&& forall|x: int|
            0 <= x < before.children@.len() ==> (#[trigger] self.children@[x]).0
                == before.children@[x].0
        &&& forall|x: int|
            #![trigger self.leaf_at(x)]
            0 <= x <= before.count() && x != i ==> self.leaf_at(x) == before.leaf_at(x)
        &&& match (self.leaf_at(i), before.leaf_at(i)) {
            (Some(l), Some(b)) => {
                &&& l.wf()
                &&& l.frozen() == b.frozen()
                &&& l@ == parts::rest(range, b@)
                &&& l.retired() == (b.retired() || (b@.len() > 0 && l@.len() == 0))
            },
            (None, None) => true,
            _ => false,
        }
    }

    /// A leaf can lose its entries in the range.
    proof fn lemma_trims(
        self,
        before: Self,
        i: int,
        range: KeyRange<K>,
        lo: Option<K>,
        hi: Option<K>,
    )
        requires
            key::ordered_key::<K>(),
            before.frame(lo, hi),
            before.tidy_but(-1),
            0 <= i <= before.count(),
            self.trims(before, i, range),
        ensures
            self.frame(lo, hi),
            self.tidy_but(-1),
            self.seps() == before.seps(),
            self.parts() == before.parts().update(i, parts::rest(range, before.parts()[i])),
            parts::disjoint(range, self.parts()[i]),
            parts::rest(range, self@) == parts::rest(range, before@),
    {
        let p = before.parts()[i];
        let q = before.parts().update(i, parts::rest(range, p));
        assert(sorted::sorted(p));
        parts::lemma_rest_update(range, lo, hi, before.seps(), before.parts(), i);
        parts::lemma_rest_disjoint(range, p);
        assert(parts::rest(range, Seq::<(K, V)>::empty()) =~= Seq::empty()) by {
            reveal(Seq::filter);
        }
        assert(self.seps() =~= before.seps());
        assert(self.parts() =~= q) by {
            assert forall|x: int| 0 <= x < q.len() implies #[trigger] self.parts()[x] == q[x] by {
                assert(x != i ==> self.leaf_at(x) == before.leaf_at(x));
            }
        }
        assert forall|x: int| 0 <= x <= self.count() && self.leaf_at(x) is Some implies usable(
            (#[trigger] self.leaf_at(x))->0,
        ) && tidy_leaf(self.leaf_at(x)->0) by {
            assert(before.leaf_at(x) is Some);
            assert(usable(before.leaf_at(x)->0) && tidy_leaf(before.leaf_at(x)->0)) by {
                if x < before.count() {
                    assert(usable(before.children@[x].1));
                }
            }
        }
        assert forall|x: int| 0 <= x < self.children@.len() implies usable(
            (#[trigger] self.children@[x]).1,
        ) && tidy_leaf(self.children@[x].1) by {
            assert(self.leaf_at(x) == Some(self.children@[x].1));
        }
        assert(self.unbounded_child is Some ==> self.leaf_at(self.count()) is Some);
    }

    /// Where no kept leaf has entries in the range, nor any of those that were not looked at, the
    /// node has none.
    proof fn lemma_none_left(
        self,
        range: KeyRange<K>,
        ps: Seq<Seq<(K, V)>>,
        kept: int,
        j: int,
    )
        requires
            0 <= kept <= self.count(),
            0 <= j,
            self.parts().len() - kept == ps.len() - j,
            forall|i: int| 0 <= i < kept ==> parts::disjoint(range, #[trigger] self.parts()[i]),
            forall|i: int|
                kept <= i < self.count() ==> #[trigger] self.parts()[i] == ps[i - kept + j],
            forall|i: int| j <= i < ps.len() - 1 ==> parts::disjoint(range, #[trigger] ps[i]),
            parts::disjoint(range, self.parts()[self.count()]),
        ensures
            parts::rest(range, self@) == self@,
    {
        assert forall|i: int| 0 <= i < self.parts().len() implies parts::disjoint(
            range,
            #[trigger] self.parts()[i],
        ) by {
            if kept <= i < self.count() {
                assert(self.parts()[i] == ps[i - kept + j]);
            }
        }
        parts::lemma_rest_whole(range, self.parts());
    }

    /// The slots from position `j` on hold the children from position `kept` on.
    spec fn remain(self, slots: Seq<usize>, kept: int, j: int) -> bool {
        forall|i: int|
            j <= i < slots.len() ==> self.children.has(#[trigger] slots[i] as int)
                && self.children.at(slots[i] as int) == kept + i - j && slots[i] < NUM_ENTRIES
    }

    /// Removes a range of entries.
    ///
    /// Leaves that lie in the range are dropped; the others lose their entries in the range. Where
    /// `start_unbounded`, no key of the node lies below the range.
    ///
    /// Returns the number of remaining children.
    pub(crate) fn remove_range_in(
        &mut self,
        range: &KeyRange<K>,
        start_unbounded: bool,
        Ghost(lo): Ghost<Option<K>>,
        Ghost(hi): Ghost<Option<K>>,
    ) -> (r: usize)
        requires
            old(self).wf_in(lo, hi),
            key::ordered_key::<K>(),
            start_unbounded ==> parts::start_covered(*range, lo),
        ensures
            final(self).wf_in(lo, hi),
            final(self)@ == parts::rest(*range, old(self)@),
            final(self).retired() == old(self).retired(),
            r == final(self).num_children(),
    {
        let mut current_state = RemoveRangeState::Below;
        let slots = self.children.slots();
        let mut j: usize = 0;
        let ghost mut kept: int = 0;
        let ghost seps = self.seps();
        let ghost ps = self.parts();
        let ghost n = seps.len() as int;
        proof {
            self.children.lemma_wf();
        }
        while j < slots.len() && current_state != RemoveRangeState::MaybeAbove
            invariant
                self.frame(lo, hi),
                self.tidy_but(-1),
                key::ordered_key::<K>(),
                self.retired == old(self).retired,
                parts::framed(lo, hi, seps, ps),
                start_unbounded ==> parts::start_covered(*range, lo),
                parts::rest(*range, self@) == parts::rest(*range, old(self)@),
                n == seps.len() == slots@.len(),
                0 <= kept <= j <= n,
                self.children@.len() == kept + n - j,
                self.seps().skip(kept) == seps.skip(j as int),
                self.parts().skip(kept) == ps.skip(j as int),
                current_state != RemoveRangeState::MaybeAbove ==> parts::seen(
                    *range,
                    seps,
                    j as int,
                    current_state,
                ) && self.remain(slots@, kept, j as int),
                forall|i: int|
                    0 <= i < kept ==> parts::disjoint(*range, #[trigger] self.parts()[i]),
                current_state == RemoveRangeState::MaybeAbove ==> forall|i: int|
                    j <= i <= n ==> parts::disjoint(*range, #[trigger] ps[i]),
            decreases
                    n - j + (if current_state == RemoveRangeState::MaybeAbove {
                        0int
                    } else {
                        1int
                    }),
        {
            let s = slots[j];
            let ghost before = *self;
            let ghost prev = current_state;
            proof {
                self.children.lemma_wf();
                assert(self.children.has(slots@[j as int] as int));
                parts::lemma_same_rest(self.seps(), seps, kept, j as int);
                parts::lemma_same_rest(self.parts(), ps, kept, j as int);
                assert(usable(self.children@[kept].1));
            }
            let (key, _) = self.children.entry_at(s);
            current_state = current_state.next(key, range, start_unbounded);
            proof {
                parts::lemma_border(
                    *range,
                    lo,
                    hi,
                    seps,
                    ps,
                    j as int,
                    prev,
                    current_state,
                    start_unbounded,
                );
            }
            match current_state {
                RemoveRangeState::FullyContained => {
                    let _ = self.children.take_unchecked(s);
                    proof {
                        assert(self.lost(before, kept));
                        self.lemma_lost(before, kept, *range, lo, hi);
                        assert forall|i: int| j + 1 <= i < slots@.len() implies self.children.has(
                            #[trigger] slots@[i] as int,
                        ) && self.children.at(slots@[i] as int) == kept + i - (j + 1) by {
                            assert(before.children.has(slots@[i] as int));
                            assert(before.children.at(slots@[i] as int) == kept + i - j);
                        }
                    }
                },
                _ => {
                    self.children.value_mut(s).remove_range(range);
                    proof {
                        assert(self.trims(before, kept, *range));
                        self.lemma_trims(before, kept, *range, lo, hi);
                        assert forall|i: int| j + 1 <= i < slots@.len() implies self.children.has(
                            #[trigger] slots@[i] as int,
                        ) && self.children.at(slots@[i] as int) == kept + 1 + i - (j + 1) by {
                            assert(before.children.has(slots@[i] as int));
                            assert(before.children.at(slots@[i] as int) == kept + i - j);
                        }
                        kept = kept + 1;
                    }
                },
            }
            j += 1;
        }
        let ghost before = *self;
        match &mut self.unbounded_child {
            Some(unbounded) => {
                unbounded.remove_range(range);
            },
            None => {},
        }
        proof {
            let last = before.count();
            assert(self.trims(before, last, *range));
            self.lemma_trims(before, last, *range, lo, hi);
            assert forall|i: int| kept <= i < last implies #[trigger] self.parts()[i] == ps[i - kept
                + j] by {
                assert(before.parts().skip(kept)[i - kept] == ps.skip(j as int)[i - kept]);
            }
            self.lemma_none_left(*range, ps, kept, j as int);
        }
        self.children.count() + 1
    }

    /// The number of children, the unbounded one counted whether or not it is there.
    pub closed spec fn num_children(self) -> nat {
        self.children@.len() + 1
    }

    /// There are enough separators for the node to be cut in two.
    pub closed spec fn divisible(self) -> bool {
        self.children.boundary() <= self.children@.len()
    }

    /// Returns `true` if there are enough separators for the node to be cut in two.
    pub(crate) fn is_divisible(&self, Ghost(lo): Ghost<Option<K>>, Ghost(hi): Ghost<Option<K>>) -> (r:
        bool)
        requires
            self.wf_in(lo, hi),
            key::ordered_key::<K>(),
        ensures
            r == self.divisible(),
    {
        self.children.split_point() <= self.children.count()
    }

    /// Moves the leaves to a fresh node, or to two where there are enough of them.
    pub(crate) fn split(self, Ghost(lo): Ghost<Option<K>>, Ghost(hi): Ghost<Option<K>>) -> (r: (
        LeafNode<K, V>,
        Option<(K, LeafNode<K, V>)>,
    ))
        requires
            self.wf_in(lo, hi),
            key::ordered_key::<K>(),
            !self.retired(),
        ensures
            r.1 is Some == self.divisible(),
            r.0.has_room(),
            match r.1 {
                None => r.0.wf_in(lo, hi) && r.0@ == self@,
                Some((m, high)) => {
                    &&& parts::above(lo, m)
                    &&& parts::below(m, hi)
                    &&& r.0.wf_in(lo, Some(m))
                    &&& high.wf_in(Some(m), hi)
                    &&& high.has_room()
                    &&& self@ == r.0@ + high@
                },
            },
    {
        let ghost seps = self.seps();
        let ghost ps = self.parts();
        let boundary = self.children.split_point();
        let len = self.children.count();
        let ghost before = self;
        proof {
            self.children.lemma_wf();
        }
        if boundary > len {
            let (children, _) = self.children.split(boundary);
            let node = LeafNode { children, unbounded_child: self.unbounded_child, retired: false };
            proof {
                assert(node.seps() =~= seps);
                assert(node.parts() =~= ps);
            }
            return (node, None);
        }
        let (low_children, (key, child), high_children) = self.children.split_around(boundary);
        let low = LeafNode {
            children: low_children,
            unbounded_child: Some(child),
            retired: false,
        };
        let high = LeafNode {
            children: high_children,
            unbounded_child: self.unbounded_child,
            retired: false,
        };
        proof {
            let b = boundary as int;
            assert(key == seps[b - 1]);
            assert(low.seps() =~= seps.take(b - 1));
            assert(high.seps() =~= seps.skip(b));
            assert(low.parts() =~= ps.take(b));
            assert(high.parts() =~= ps.skip(b));
            parts::lemma_flat_join(ps.take(b), ps.skip(b));
            assert(ps =~= ps.take(b) + ps.skip(b));
            parts::lemma_framed_split(lo, hi, seps, ps, b);
            assert(usable(before.children@[b - 1].1));
            assert forall|i: int| 0 <= i < low.children@.len() implies (
            #[trigger] low.children@[i]) == before.children@[i] by {
            }
            assert forall|i: int| 0 <= i < high.children@.len() implies (
            #[trigger] high.children@[i]) == before.children@[b + i] by {
            }
        }
        (low, Some((key, high)))
    }

    /// Wider bounds will do.
    pub proof fn lemma_weaken(self, lo: Option<K>, hi: Option<K>, lo2: Option<K>, hi2: Option<K>)
        requires
            self.wf_in(lo, hi),
            parts::wider(lo, hi, lo2, hi2),
        ensures
            self.wf_in(lo2, hi2),
    {
        parts::lemma_framed_weaken(lo, hi, lo2, hi2, self.seps(), self.parts());
    }

    /// Returns the leaves in key order.
    pub(crate) fn leaves_in(&self, Ghost(lo): Ghost<Option<K>>, Ghost(hi): Ghost<Option<K>>) -> (r:
        Vec<&Leaf<K, V>>)
        requires
            self.wf_in(lo, hi),
            key::ordered_key::<K>(),
        ensures
            chain::joined(r@) == self@,
            chain::all_wf(r@),
    {
        let slots = self.children.slots();
        let mut out: Vec<&Leaf<K, V>> = Vec::new();
        let mut j: usize = 0;
        proof {
            self.children.lemma_wf();
            assert(chain::views(out@) =~= self.parts().take(0));
        }
        while j < slots.len()
            invariant
                self.wf_in(lo, hi),
                key::ordered_key::<K>(),
                j == out@.len() <= slots@.len() == self.children@.len(),
                forall|i: int|
                    0 <= i < slots@.len() ==> self.children.has(#[trigger] slots@[i] as int)
                        && self.children.at(slots@[i] as int) == i && slots@[i] < NUM_ENTRIES,
                chain::views(out@) == self.parts().take(j as int),
                chain::all_wf(out@),
            decreases slots@.len() - j,
        {
            let s = slots[j];
            let (_, child) = self.children.entry_at(s);
            let ghost before = out@;
            out.push(child);
            proof {
                assert(usable(self.children@[j as int].1));
                assert(chain::views(out@) =~= self.parts().take(j as int + 1)) by {
                    assert forall|i: int| 0 <= i < j implies #[trigger] chain::views(out@)[i]
                        == self.parts().take(j as int)[i] by {
                        assert(chain::views(before)[i] == chain::views(out@)[i]);
                    }
                }
            }
            j += 1;
        }
        proof {
            let n = self.children@.len() as int;
            assert(self.parts() =~= self.parts().take(n).push(self.tail()));
            assert(self.parts().drop_last() =~= self.parts().take(n));
        }
        match &self.unbounded_child {
            Some(unbounded) => {
                let ghost before = out@;
                out.push(unbounded);
                proof {
                    assert(chain::views(out@) =~= self.parts()) by {
                        assert forall|i: int|
                            0 <= i < before.len() implies #[trigger] chain::views(out@)[i]
                            == self.parts()[i] by {
                            assert(chain::views(before)[i] == chain::views(out@)[i]);
                        }
                    }
                }
            },
            None => {
                assert(self@ =~= chain::joined(out@));
            },
        }
        out
    }
}

} // verus!
