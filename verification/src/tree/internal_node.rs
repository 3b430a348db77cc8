//! Nodes above the leaf nodes, and the nodes of the tree as such.

use vstd::prelude::*;
use crate::tree::chain;
use crate::tree::dimension::NUM_ENTRIES;
use crate::tree::key;
use crate::tree::leaf::{InsertResult, Leaf, RemoveResult};
use crate::tree::leaf_node::LeafNode;
use crate::tree::parts;
use crate::tree::range::{KeyRange, RemoveRangeState};
use crate::tree::sorted;

verus! {

/// Either an internal node or a leaf node.
pub enum Node<K, V> {
    Internal(InternalNode<K, V>),
    Leaf(LeafNode<K, V>),
}

/// Internal node.
///
/// The layout of an internal node: `|node/max(node keys)|...|node|`.
pub struct InternalNode<K, V> {
    /// Children of the [`InternalNode`].
    children: Leaf<K, Node<K, V>>,
    /// A child [`Node`] that has no upper key bound.
    ///
    /// It stores the maximum key in the node, and key-value pairs are first pushed to this [`Node`]
    /// until it splits.
    unbounded_child: Option<Box<Node<K, V>>>,
    /// The node has lost all its children and will get no other.
    retired: bool,
}

impl<K, V> Node<K, V> {
    /// The entries of a node `h` levels above the leaf nodes, in key order.
    pub closed spec fn seq(self, h: nat) -> Seq<(K, V)>
        decreases h, 1nat,
    {
        match self {
            Node::Internal(n) => n.seq(h),
            Node::Leaf(n) => n@,
        }
    }

    /// The node has lost all its children and will get no other.
    pub closed spec fn retired(self) -> bool {
        match self {
            Node::Internal(n) => n.retired,
            Node::Leaf(n) => n.retired(),
        }
    }

    /// The number of levels above the leaf nodes.
    pub closed spec fn height(self) -> nat
        decreases self,
    {
        match self {
            Node::Internal(n) => n.height(),
            Node::Leaf(_) => 0,
        }
    }

    /// The number of nodes below this one on the way along unbounded children.
    pub closed spec fn levels(self) -> nat
        decreases self,
    {
        match self {
            Node::Internal(n) => n.levels(),
            Node::Leaf(_) => 0,
        }
    }
}

impl<K, V> InternalNode<K, V> {
    spec fn seps(self) -> Seq<K> {
        Seq::new(self.children@.len(), |i: int| self.children@[i].0)
    }

    /// The child at position `i`; none where the unbounded one is missing.
    spec fn child_at(self, i: int) -> Option<Node<K, V>> {
        if i < self.children@.len() {
            Some(self.children@[i].1)
        } else {
            match self.unbounded_child {
                Some(b) => Some(*b),
                None => None,
            }
        }
    }

    spec fn parts(self, h: nat) -> Seq<Seq<(K, V)>>
        decreases h, 0nat, 0nat,
    {
        if h == 0 {
            Seq::empty()
        } else {
            Seq::new(
                self.children@.len() + 1,
                |i: int|
                    match self.child_at(i) {
                        Some(c) => c.seq((h - 1) as nat),
                        None => Seq::empty(),
                    },
            )
        }
    }

    /// The entries of a node `h` levels above the leaf nodes, in key order.
    pub closed spec fn seq(self, h: nat) -> Seq<(K, V)>
        decreases h, 0nat, 1nat,
    {
        parts::flat(self.parts(h))
    }

    /// The node has lost all its children and will get no other.
    pub closed spec fn retired(self) -> bool {
        self.retired
    }

    /// The number of levels above the leaf nodes.
    pub closed spec fn height(self) -> nat
        decreases self,
    {
        match self.unbounded_child {
            Some(b) => b.height() + 1,
            None => 1,
        }
    }

    /// The number of nodes below this one on the way along unbounded children.
    pub closed spec fn levels(self) -> nat
        decreases self,
    {
        match self.unbounded_child {
            Some(b) => b.levels() + 1,
            None => 0,
        }
    }
}

impl<K: Ord + Clone, V> Node<K, V> {
    /// A well-formed node `h` levels above the leaf nodes whose keys lie between the bounds.
    pub closed spec fn wf_in(self, h: nat, lo: Option<K>, hi: Option<K>) -> bool
        decreases h, 1nat,
    {
        match self {
            Node::Internal(n) => h > 0 && n.wf_in(h, lo, hi),
            Node::Leaf(n) => h == 0 && n.wf_in(lo, hi),
        }
    }

    /// A separator can be added.
    pub closed spec fn has_room(self) -> bool {
        match self {
            Node::Internal(n) => n.has_room(),
            Node::Leaf(n) => n.has_room(),
        }
    }

    /// There are enough separators for the node to be cut in two.
    pub closed spec fn divisible(self) -> bool {
        match self {
            Node::Internal(n) => n.divisible(),
            Node::Leaf(n) => n.divisible(),
        }
    }

    /// The node cannot take the key until it is split.
    pub closed spec fn must_split(self, h: nat, k: K) -> bool
        decreases h, 1nat,
    {
        match self {
            Node::Internal(n) => h > 0 && n.must_split(h, k),
            Node::Leaf(n) => n.must_split(k),
        }
    }

    /// The removal of the entry leaves the node without children.
    pub closed spec fn lone(self, h: nat) -> bool
        decreases h, 1nat,
    {
        match self {
            Node::Internal(n) => h > 0 && n.lone(h),
            Node::Leaf(n) => n@.len() == 1,
        }
    }

    /// A well-formed node is a sorted sequence between its bounds; a retired one is empty.
    pub proof fn lemma_wf(self, h: nat, lo: Option<K>, hi: Option<K>)
        requires
            self.wf_in(h, lo, hi),
            key::ordered_key::<K>(),
        ensures
            sorted::sorted(self.seq(h)),
            parts::all_between(lo, self.seq(h), hi),
            self.retired() ==> self.seq(h).len() == 0,
            !self.retired() ==> self.height() == h && self.levels() == h,
        decreases h, 1nat,
    {
        match self {
            Node::Internal(n) => {
                n.lemma_wf(h, lo, hi);
            },
            Node::Leaf(n) => {
                n.lemma_wf(lo, hi);
            },
        }
    }

    /// Wider bounds will do.
    pub proof fn lemma_weaken(
        self,
        h: nat,
        lo: Option<K>,
        hi: Option<K>,
        lo2: Option<K>,
        hi2: Option<K>,
    )
        requires
            self.wf_in(h, lo, hi),
            parts::wider(lo, hi, lo2, hi2),
        ensures
            self.wf_in(h, lo2, hi2),
        decreases h, 1nat,
    {
        match self {
            Node::Internal(n) => {
                n.lemma_weaken(h, lo, hi, lo2, hi2);
            },
            Node::Leaf(n) => {
                n.lemma_weaken(lo, hi, lo2, hi2);
            },
        }
    }

    /// A node with room takes every key.
    pub proof fn lemma_room(self, h: nat, k: K)
        requires
            self.has_room(),
        ensures
            !self.must_split(h, k),
            !self.retired(),
    {
        match self {
            Node::Internal(n) => {},
            Node::Leaf(n) => {
                n.lemma_room(k);
            },
        }
    }
}

impl<K: Ord + Clone, V> InternalNode<K, V> {
    /// The children lie between the bounds, cut by the separators.
    spec fn frame(self, h: nat, lo: Option<K>, hi: Option<K>) -> bool
        decreases h, 0nat, 0nat,
    {
        &&& h > 0
        &&& self.children.wf()
        &&& !self.children.frozen()
        &&& parts::seps_between(lo, self.seps(), hi)
        &&& self.unbounded_child is None ==> self.children@.len() == 0
        &&& self.retired == self.unbounded_child is None
        &&& forall|i: int|
            #![trigger self.child_at(i)]
            0 <= i <= self.children@.len() && self.child_at(i) is Some ==> (self.child_at(
                i,
            )->0).wf_in(
                (h - 1) as nat,
                parts::lo_at(lo, self.seps(), i),
                parts::hi_at(hi, self.seps(), i),
            )
    }

    /// No child but the one at position `x` has retired.
    spec fn active_but(self, x: int) -> bool {
        forall|i: int|
            #![trigger self.child_at(i)]
            0 <= i <= self.children@.len() && self.child_at(i) is Some && i != x ==> !(self.child_at(
                i,
            )->0).retired()
    }

    /// A well-formed node `h` levels above the leaf nodes whose keys lie between the bounds.
    pub closed spec fn wf_in(self, h: nat, lo: Option<K>, hi: Option<K>) -> bool
        decreases h, 0nat, 1nat,
    {
        self.frame(h, lo, hi) && self.active_but(-1)
    }

    /// The node is well-formed.
    pub open spec fn wf(self) -> bool {
        self.wf_in(self.height(), None, None)
    }

    /// The entries, in key order.
    pub open spec fn entries(self) -> Seq<(K, V)> {
        self.seq(self.height())
    }

    /// A separator can be added.
    pub closed spec fn has_room(self) -> bool {
        !self.retired && self.children.has_room()
    }

    /// There are enough separators for the node to be cut in two.
    pub closed spec fn divisible(self) -> bool {
        self.children.boundary() <= self.children@.len()
    }

    /// The position of the child for the key.
    spec fn route(self, k: K) -> int {
        sorted::place(self.children@, k)
    }

    /// The node cannot take the key until it is split.
    pub closed spec fn must_split(self, h: nat, k: K) -> bool
        decreases h, 0nat,
    {
        self.retired || (h > 0 && !self.children.has_room() && match self.child_at(self.route(k)) {
            Some(c) => c.must_split((h - 1) as nat, k) && c.divisible(),
            None => true,
        })
    }

    /// A retired node takes no key.
    pub proof fn lemma_retired(self, h: nat, k: K)
        requires
            self.retired(),
        ensures
            self.must_split(h, k),
    {
    }

    /// The removal of the entry leaves the node without children.
    pub closed spec fn lone(self, h: nat) -> bool
        decreases h, 0nat,
    {
        h > 0 && self.children@.len() == 0 && match self.child_at(0) {
            Some(c) => c.lone((h - 1) as nat),
            None => false,
        }
    }

    /// A well-formed node is a sorted sequence between its bounds; a retired one is empty.
    pub proof fn lemma_wf(self, h: nat, lo: Option<K>, hi: Option<K>)
        requires
            self.wf_in(h, lo, hi),
            key::ordered_key::<K>(),
        ensures
            sorted::sorted(self.seq(h)),
            parts::all_between(lo, self.seq(h), hi),
            self.retired() ==> self.seq(h).len() == 0,
            !self.retired() ==> self.height() == h && self.levels() == h,
            h > 0,
        decreases h, 0nat, 1nat,
    {
        self.lemma_framed(h, lo, hi);
        parts::lemma_framed_entries(lo, hi, self.seps(), self.parts(h));
        if self.retired {
            assert(self.parts(h) =~= seq![Seq::<(K, V)>::empty()]);
            parts::lemma_flat_one(Seq::<(K, V)>::empty());
        } else {
            let n = self.children@.len() as int;
            let c = self.child_at(n)->0;
            assert(c.wf_in(
                (h - 1) as nat,
                parts::lo_at(lo, self.seps(), n),
                parts::hi_at(hi, self.seps(), n),
            ));
            c.lemma_wf(
                (h - 1) as nat,
                parts::lo_at(lo, self.seps(), n),
                parts::hi_at(hi, self.seps(), n),
            );
        }
    }

    proof fn lemma_framed(self, h: nat, lo: Option<K>, hi: Option<K>)
        requires
            self.frame(h, lo, hi),
            key::ordered_key::<K>(),
        ensures
            parts::framed(lo, hi, self.seps(), self.parts(h)),
        decreases h, 0nat, 0nat,
    {
        let p = self.parts(h);
        let s = self.seps();
        assert forall|i: int| 0 <= i < p.len() implies sorted::sorted(#[trigger] p[i])
            && parts::all_between(parts::lo_at(lo, s, i), p[i], parts::hi_at(hi, s, i)) by {
            if self.child_at(i) is Some {
                let c = self.child_at(i)->0;
                c.lemma_wf((h - 1) as nat, parts::lo_at(lo, s, i), parts::hi_at(hi, s, i));
            }
        }
    }

    /// Wider bounds will do.
    pub proof fn lemma_weaken(
        self,
        h: nat,
        lo: Option<K>,
        hi: Option<K>,
        lo2: Option<K>,
        hi2: Option<K>,
    )
        requires
            self.wf_in(h, lo, hi),
            parts::wider(lo, hi, lo2, hi2),
        ensures
            self.wf_in(h, lo2, hi2),
        decreases h, 0nat,
    {
        let s = self.seps();
        assert forall|i: int|
            #![trigger self.child_at(i)]
            0 <= i <= self.children@.len() && self.child_at(i) is Some implies (self.child_at(
            i,
        )->0).wf_in((h - 1) as nat, parts::lo_at(lo2, s, i), parts::hi_at(hi2, s, i)) by {
            (self.child_at(i)->0).lemma_weaken(
                (h - 1) as nat,
                parts::lo_at(lo, s, i),
                parts::hi_at(hi, s, i),
                parts::lo_at(lo2, s, i),
                parts::hi_at(hi2, s, i),
            );
        }
    }

    proof fn lemma_routes(self, k: K)
        requires
            self.children.wf(),
            key::ordered_key::<K>(),
        ensures
            parts::routes(self.seps(), k, self.route(k)),
    {
        self.children.lemma_wf();
        sorted::lemma_place(self.children@, k);
        let s = self.seps();
        assert forall|j: int| 0 <= j < self.route(k) implies key::key_lt(#[trigger] s[j], k) by {
            assert(s[j] == self.children@[j].0);
        }
        assert forall|j: int| self.route(k) <= j < s.len() implies !key::key_lt(
            #[trigger] s[j],
            k,
        ) by {
            assert(s[j] == self.children@[j].0);
        }
    }

    proof fn lemma_route_is(self, k: K, i: int)
        requires
            self.children.wf(),
            key::ordered_key::<K>(),
            parts::routes(self.seps(), k, i),
        ensures
            self.route(k) == i,
    {
        self.children.lemma_wf();
        let s = self.seps();
        assert forall|j: int| 0 <= j < i implies key::key_lt(
            #[trigger] self.children@[j].0,
            k,
        ) by {
            assert(key::key_lt(s[j], k));
        }
        assert forall|j: int| i <= j < self.children@.len() implies !key::key_lt(
            #[trigger] self.children@[j].0,
            k,
        ) by {
            assert(!key::key_lt(s[j], k));
        }
        assert(sorted::parts_at(self.children@, k, i));
        sorted::lemma_place_unique(self.children@, k, i);
    }
}

impl<K: Ord + Clone, V> Node<K, V> {
    /// Creates a new empty leaf node.
    pub fn new_leaf_node() -> (n: Node<K, V>)
        ensures
            forall|lo: Option<K>, hi: Option<K>| #[trigger] n.wf_in(0, lo, hi),
            n.seq(0) == Seq::<(K, V)>::empty(),
            n.has_room(),
            !n.retired(),
            n.height() == 0,
    {
        Node::Leaf(LeafNode::new())
    }

    /// Returns `true` if the node has retired.
    pub fn is_retired(&self) -> (r: bool)
        ensures
            r == self.retired(),
    {
        match self {
            Node::Internal(n) => n.is_retired(),
            Node::Leaf(n) => n.is_retired(),
        }
    }

    /// Returns the depth of the node, counted from the given one.
    pub fn depth(&self, depth: usize) -> (r: usize)
        requires
            depth + self.levels() <= usize::MAX,
        ensures
            r == depth + self.levels(),
        decreases self,
    {
        match self {
            Node::Internal(n) => n.depth(depth),
            Node::Leaf(_) => depth,
        }
    }

    /// Searches for an entry containing the specified key, which lies between the bounds.
    pub(crate) fn search_entry_in(
        &self,
        key: &K,
        Ghost(h): Ghost<nat>,
        Ghost(lo): Ghost<Option<K>>,
        Ghost(hi): Ghost<Option<K>>,
    ) -> (r: Option<(&K, &V)>)
        requires
            self.wf_in(h, lo, hi),
            parts::between(lo, *key, hi),
            key::ordered_key::<K>(),
        ensures
            match r {
                Some((k, v)) => sorted::lookup(self.seq(h), *key) == Some((*k, *v)),
                None => sorted::lookup(self.seq(h), *key) is None,
            },
        decreases h, 1nat,
    {
        match self {
            Node::Internal(n) => n.search_entry_in(key, Ghost(h), Ghost(lo), Ghost(hi)),
            Node::Leaf(n) => n.search_entry_in(key, Ghost(lo), Ghost(hi)),
        }
    }

    /// Searches for the value associated with the specified key, which lies between the bounds.
    pub(crate) fn search_value_in(
        &self,
        key: &K,
        Ghost(h): Ghost<nat>,
        Ghost(lo): Ghost<Option<K>>,
        Ghost(hi): Ghost<Option<K>>,
    ) -> (r: Option<&V>)
        requires
            self.wf_in(h, lo, hi),
            parts::between(lo, *key, hi),
            key::ordered_key::<K>(),
        ensures
            match r {
                Some(v) => sorted::lookup(self.seq(h), *key) is Some && *v == (sorted::lookup(
                    self.seq(h),
                    *key,
                )->0).1,
                None => sorted::lookup(self.seq(h), *key) is None,
            },
        decreases h, 1nat,
    {
        match self {
            Node::Internal(n) => n.search_value_in(key, Ghost(h), Ghost(lo), Ghost(hi)),
            Node::Leaf(n) => n.search_value_in(key, Ghost(lo), Ghost(hi)),
        }
    }

    /// Inserts a key-value pair whose key lies between the bounds.
    pub(crate) fn insert_in(
        &mut self,
        key: K,
        val: V,
        Ghost(h): Ghost<nat>,
        Ghost(lo): Ghost<Option<K>>,
        Ghost(hi): Ghost<Option<K>>,
    ) -> (r: InsertResult<K, V>)
        requires
            old(self).wf_in(h, lo, hi),
            parts::between(lo, key, hi),
            key::ordered_key::<K>(),
        ensures
            final(self).wf_in(h, lo, hi),
            final(self).retired() == old(self).retired(),
            if sorted::found(old(self).seq(h), key) {
                r == InsertResult::Duplicate(key, val) && final(self).seq(h) == old(self).seq(h)
            } else if old(self).must_split(h, key) {
                r == InsertResult::Full(key, val) && final(self).seq(h) == old(self).seq(h)
                    && final(self).divisible() == old(self).divisible()
            } else {
                &&& r == InsertResult::<K, V>::Success
                &&& final(self).seq(h) == sorted::inserted(old(self).seq(h), key, val)
            },
        decreases h, 1nat,
    {
        match self {
            Node::Internal(n) => n.insert_in(key, val, Ghost(h), Ghost(lo), Ghost(hi)),
            Node::Leaf(n) => n.insert_in(key, val, Ghost(lo), Ghost(hi)),
        }
    }
}

impl<K: Ord + Clone, V> InternalNode<K, V> {
    /// Creates an internal node with one child.
    pub fn with_child(child: Node<K, V>) -> (n: InternalNode<K, V>)
        ensures
            forall|h: nat, lo: Option<K>, hi: Option<K>|
                #![trigger n.wf_in(h + 1, lo, hi)]
                child.wf_in(h, lo, hi) && !child.retired() ==> n.wf_in(h + 1, lo, hi) && n.seq(
                    h + 1,
                ) == child.seq(h),
            n.height() == child.height() + 1,
            n.has_room(),
            !n.retired(),
    {
        let n = InternalNode {
            children: Leaf::new(),
            unbounded_child: Some(Box::new(child)),
            retired: false,
        };
        proof {
            assert forall|h: nat, lo: Option<K>, hi: Option<K>|
                #![trigger n.wf_in(h + 1, lo, hi)]
                child.wf_in(h, lo, hi) && !child.retired() implies n.wf_in(h + 1, lo, hi) && n.seq(
                h + 1,
            ) == child.seq(h) by {
                assert(n.child_at(0) == Some(child));
                assert forall|i: int|
                    #![trigger n.child_at(i)]
                    0 <= i <= n.children@.len() && n.child_at(i) is Some implies n.child_at(i)
                    == Some(child) by {
                }
                assert(n.parts(h + 1) =~= seq![child.seq(h)]);
                parts::lemma_flat_one(child.seq(h));
            }
        }
        n
    }

    /// Returns `true` if the [`InternalNode`] has retired.
    pub fn is_retired(&self) -> (r: bool)
        ensures
            r == self.retired(),
    {
        self.retired
    }

    /// Returns the depth of the node, counted from the given one.
    pub fn depth(&self, depth: usize) -> (r: usize)
        requires
            depth + self.levels() <= usize::MAX,
        ensures
            r == depth + self.levels(),
        decreases self,
    {
        match &self.unbounded_child {
            Some(unbounded) => unbounded.depth(depth + 1),
            None => depth,
        }
    }

    /// Searches for an entry containing the specified key, which lies between the bounds.
    pub(crate) fn search_entry_in(
        &self,
        key: &K,
        Ghost(h): Ghost<nat>,
        Ghost(lo): Ghost<Option<K>>,
        Ghost(hi): Ghost<Option<K>>,
    ) -> (r: Option<(&K, &V)>)
        requires
            self.wf_in(h, lo, hi),
            parts::between(lo, *key, hi),
            key::ordered_key::<K>(),
        ensures
            match r {
                Some((k, v)) => sorted::lookup(self.seq(h), *key) == Some((*k, *v)),
                None => sorted::lookup(self.seq(h), *key) is None,
            },
        decreases h, 0nat,
    {
        let slot = self.children.slot_greater_equal(key);
        let ghost i = self.route(*key);
        let ghost l = parts::lo_at(lo, self.seps(), i);
        let ghost u = parts::hi_at(hi, self.seps(), i);
        let ghost g = (h - 1) as nat;
        proof {
            self.lemma_framed(h, lo, hi);
            self.lemma_routes(*key);
            parts::lemma_route(lo, hi, self.seps(), self.parts(h), *key, i);
            assert(self.child_at(i) is Some ==> (self.child_at(i)->0).wf_in(g, l, u));
        }
        match slot {
            Some(s) => {
                let (_, child) = self.children.entry_at(s);
                child.search_entry_in(key, Ghost(g), Ghost(l), Ghost(u))
            },
            None => match &self.unbounded_child {
                Some(unbounded) => unbounded.search_entry_in(key, Ghost(g), Ghost(l), Ghost(u)),
                None => None,
            },
        }
    }

    /// Searches for the value associated with the specified key, which lies between the bounds.
    pub(crate) fn search_value_in(
        &self,
        key: &K,
        Ghost(h): Ghost<nat>,
        Ghost(lo): Ghost<Option<K>>,
        Ghost(hi): Ghost<Option<K>>,
    ) -> (r: Option<&V>)
        requires
            self.wf_in(h, lo, hi),
            parts::between(lo, *key, hi),
            key::ordered_key::<K>(),
        ensures
            match r {
                Some(v) => sorted::lookup(self.seq(h), *key) is Some && *v == (sorted::lookup(
                    self.seq(h),
                    *key,
                )->0).1,
                None => sorted::lookup(self.seq(h), *key) is None,
            },
        decreases h, 0nat,
    {
        let slot = self.children.slot_greater_equal(key);
        let ghost i = self.route(*key);
        let ghost l = parts::lo_at(lo, self.seps(), i);
        let ghost u = parts::hi_at(hi, self.seps(), i);
        let ghost g = (h - 1) as nat;
        proof {
            self.lemma_framed(h, lo, hi);
            self.lemma_routes(*key);
            parts::lemma_route(lo, hi, self.seps(), self.parts(h), *key, i);
            assert(self.child_at(i) is Some ==> (self.child_at(i)->0).wf_in(g, l, u));
        }
        match slot {
            Some(s) => {
                let (_, child) = self.children.entry_at(s);
                child.search_value_in(key, Ghost(g), Ghost(l), Ghost(u))
            },
            None => match &self.unbounded_child {
                Some(unbounded) => unbounded.search_value_in(key, Ghost(g), Ghost(l), Ghost(u)),
                None => None,
            },
        }
    }

    /// Inserts a key-value pair to the child for the key.
    fn insert_once(
        &mut self,
        key: K,
        val: V,
        Ghost(h): Ghost<nat>,
        Ghost(lo): Ghost<Option<K>>,
        Ghost(hi): Ghost<Option<K>>,
    ) -> (r: InsertResult<K, V>)
        requires
            old(self).wf_in(h, lo, hi),
            parts::between(lo, key, hi),
            key::ordered_key::<K>(),
            !old(self).retired,
        ensures
            final(self).wf_in(h, lo, hi),
            !final(self).retired,
            final(self).route(key) == old(self).route(key),
            final(self).children.has_room() == old(self).children.has_room(),
            final(self).children.boundary() == old(self).children.boundary(),
            final(self).children@.len() == old(self).children@.len(),
            if sorted::found(old(self).seq(h), key) {
                r == InsertResult::Duplicate(key, val) && final(self).seq(h) == old(self).seq(h)
            } else if (old(self).child_at(old(self).route(key))->0).must_split((h - 1) as nat, key) {
                r == InsertResult::Full(key, val) && final(self).seq(h) == old(self).seq(h) && (
                final(self).child_at(old(self).route(key))->0).divisible() == (old(self).child_at(
                    old(self).route(key),
                )->0).divisible()
            } else {
                &&& r == InsertResult::<K, V>::Success
                &&& final(self).seq(h) == sorted::inserted(old(self).seq(h), key, val)
            },
        decreases h, 0nat, 0nat,
    {
        let slot = self.children.slot_greater_equal(&key);
        let ghost i = self.route(key);
        let ghost s = self.seps();
        let ghost p = self.parts(h);
        let ghost l = parts::lo_at(lo, s, i);
        let ghost u = parts::hi_at(hi, s, i);
        let ghost g = (h - 1) as nat;
        proof {
            self.children.lemma_wf();
            self.lemma_framed(h, lo, hi);
            self.lemma_routes(key);
            parts::lemma_route(lo, hi, s, p, key, i);
            assert((self.child_at(i)->0).wf_in(g, l, u));
            assert(!(self.child_at(i)->0).retired());
        }
        let r = match slot {
            Some(c) => self.children.value_mut(c).insert_in(key, val, Ghost(g), Ghost(l), Ghost(u)),
            None => match &mut self.unbounded_child {
                Some(unbounded) => unbounded.insert_in(key, val, Ghost(g), Ghost(l), Ghost(u)),
                None => vstd::pervasive::unreached(),
            },
        };
        proof {
            let c = self.child_at(i)->0;
            assert(self.seps() =~= s);
            assert forall|j: int|
                #![trigger self.child_at(j)]
                0 <= j <= self.children@.len() && j != i implies self.child_at(j) == old(
                self).child_at(j) by {
            }
            assert(self.parts(h) =~= p.update(i, c.seq(g)));
            assert(p.update(i, p[i]) =~= p);
            self.lemma_route_is(key, i);
        }
        r
    }

    /// The node is as `before`, but for the child at position `i`, in whose place stands one with
    /// the same entries.
    spec fn renews(self, before: Self, h: nat, i: int) -> bool {
        &&& self.seps() == before.seps()
        &&& self.parts(h) == before.parts(h)
        &&& forall|j: int|
            #![trigger self.child_at(j)]
            0 <= j <= self.seps().len() && j != i ==> self.child_at(j) == before.child_at(j)
    }

    /// The node is as `before`, but for the child at position `i`, which was cut in two at the new
    /// separator `b`: its entries up to `b` lie in the child before `b`, the others in the one
    /// behind it.
    spec fn cuts(self, before: Self, h: nat, i: int, b: K) -> bool {
        &&& self.seps() == before.seps().insert(i, b)
        &&& self.parts(h)[i] + self.parts(h)[i + 1] == before.parts(h)[i]
        &&& parts::all_between(None, self.parts(h)[i], Some(b))
        &&& parts::all_between(Some(b), self.parts(h)[i + 1], None)
        &&& forall|j: int|
            #![trigger self.child_at(j)]
            0 <= j < i ==> self.child_at(j) == before.child_at(j)
        &&& forall|j: int|
            #![trigger self.child_at(j)]
            i + 1 < j <= self.seps().len() ==> self.child_at(j) == before.child_at(j - 1)
    }

    /// The slot is that of the child at position `i`; no slot stands for the unbounded one.
    spec fn slot_at(self, slot: Option<usize>, i: int) -> bool {
        match slot {
            Some(s) => self.children.has(s as int) && self.children.at(s as int) == i && 0 <= i
                < self.children@.len(),
            None => i == self.children@.len() && self.unbounded_child is Some,
        }
    }

    /// Puts another node in the place of a child.
    fn replace_child(&mut self, slot: Option<usize>, node: Node<K, V>, Ghost(i): Ghost<int>) -> (r:
        Node<K, V>)
        requires
            old(self).children.wf(),
            key::ordered_key::<K>(),
            old(self).slot_at(slot, i),
        ensures
            Some(r) == old(self).child_at(i),
            final(self).children.wf(),
            final(self).children.frozen() == old(self).children.frozen(),
            final(self).children.retired() == old(self).children.retired(),
            final(self).children.used() == old(self).children.used(),
            final(self).children@.len() == old(self).children@.len(),
            final(self).slot_at(slot, i),
            final(self).retired == old(self).retired,
            final(self).unbounded_child is Some == old(self).unbounded_child is Some,
            final(self).seps() == old(self).seps(),
            final(self).child_at(i) == Some(node),
            forall|j: int|
                #![trigger final(self).child_at(j)]
                0 <= j <= old(self).children@.len() && j != i ==> final(self).child_at(j) == old(
                    self).child_at(j),
    {
        proof {
            self.children.lemma_wf();
        }
        let r = match slot {
            Some(s) => {
                let mut other = node;
                core::mem::swap(self.children.value_mut(s), &mut other);
                other
            },
            None => {
                let r = self.unbounded_child.take();
                self.unbounded_child = Some(Box::new(node));
                match r {
                    Some(b) => *b,
                    None => vstd::pervasive::unreached(),
                }
            },
        };
        proof {
            assert(self.seps() =~= old(self).seps());
        }
        r
    }
}

impl<K: Ord + Clone, V> Node<K, V> {
    /// Returns `true` if there are enough separators for the node to be cut in two.
    fn is_divisible(
        &self,
        Ghost(h): Ghost<nat>,
        Ghost(lo): Ghost<Option<K>>,
        Ghost(hi): Ghost<Option<K>>,
    ) -> (r: bool)
        requires
            self.wf_in(h, lo, hi),
            key::ordered_key::<K>(),
        ensures
            r == self.divisible(),
    {
        match self {
            Node::Internal(n) => n.children.split_point() <= n.children.count(),
            Node::Leaf(n) => n.is_divisible(Ghost(lo), Ghost(hi)),
        }
    }

    /// Moves the children to a fresh node, or to two where there are enough of them.
    fn split(
        self,
        Ghost(h): Ghost<nat>,
        Ghost(lo): Ghost<Option<K>>,
        Ghost(hi): Ghost<Option<K>>,
    ) -> (r: (Node<K, V>, Option<(K, Node<K, V>)>))
        requires
            self.wf_in(h, lo, hi),
            key::ordered_key::<K>(),
            !self.retired(),
        ensures
            r.1 is Some == self.divisible(),
            r.0.has_room(),
            !r.0.retired(),
            match r.1 {
                None => r.0.wf_in(h, lo, hi) && r.0.seq(h) == self.seq(h),
                Some((m, high)) => {
                    &&& parts::above(lo, m)
                    &&& parts::below(m, hi)
                    &&& r.0.wf_in(h, lo, Some(m))
                    &&& high.wf_in(h, Some(m), hi)
                    &&& high.has_room()
                    &&& !high.retired()
                    &&& self.seq(h) == r.0.seq(h) + high.seq(h)
                },
            },
    {
        match self {
            Node::Internal(n) => {
                let (low, rest) = n.split(Ghost(h), Ghost(lo), Ghost(hi));
                match rest {
                    Some((m, high)) => (Node::Internal(low), Some((m, Node::Internal(high)))),
                    None => (Node::Internal(low), None),
                }
            },
            Node::Leaf(n) => {
                let (low, rest) = n.split(Ghost(lo), Ghost(hi));
                proof {
                    low.lemma_room(arbitrary());
                }
                match rest {
                    Some((m, high)) => {
                        proof {
                            high.lemma_room(arbitrary());
                        }
                        (Node::Leaf(low), Some((m, Node::Leaf(high))))
                    },
                    None => (Node::Leaf(low), None),
                }
            },
        }
    }
}

impl<K: Ord + Clone, V> InternalNode<K, V> {
    /// Moves the children to a fresh node, or to two where there are enough of them.
    fn split(
        self,
        Ghost(h): Ghost<nat>,
        Ghost(lo): Ghost<Option<K>>,
        Ghost(hi): Ghost<Option<K>>,
    ) -> (r: (InternalNode<K, V>, Option<(K, InternalNode<K, V>)>))
        requires
            self.wf_in(h, lo, hi),
            key::ordered_key::<K>(),
            !self.retired,
        ensures
            r.1 is Some == self.divisible(),
            r.0.has_room(),
            match r.1 {
                None => r.0.wf_in(h, lo, hi) && r.0.seq(h) == self.seq(h),
                Some((m, high)) => {
                    &&& parts::above(lo, m)
                    &&& parts::below(m, hi)
                    &&& r.0.wf_in(h, lo, Some(m))
                    &&& high.wf_in(h, Some(m), hi)
                    &&& high.has_room()
                    &&& self.seq(h) == r.0.seq(h) + high.seq(h)
                },
            },
    {
        let ghost seps = self.seps();
        let ghost ps = self.parts(h);
        let boundary = self.children.split_point();
        let len = self.children.count();
        let ghost before = self;
        proof {
            self.children.lemma_wf();
            self.lemma_framed(h, lo, hi);
        }
        if boundary > len {
            let (children, _) = self.children.split(boundary);
            let node = InternalNode {
                children,
                unbounded_child: self.unbounded_child,
                retired: false,
            };
            proof {
                assert(node.seps() =~= seps);
                assert forall|i: int|
                    #![trigger node.child_at(i)]
                    0 <= i <= node.children@.len() implies node.child_at(i) == before.child_at(
                    i,
                ) by {
                }
                assert(node.parts(h) =~= ps);
            }
            return (node, None);
        }
        let (low_children, (key, child), high_children) = self.children.split_around(boundary);
        let low = InternalNode {
            children: low_children,
            unbounded_child: Some(Box::new(child)),
            retired: false,
        };
        let high = InternalNode {
            children: high_children,
            unbounded_child: self.unbounded_child,
            retired: false,
        };
        proof {
            let b = boundary as int;
            let m = Some(key);
            assert(key == seps[b - 1]);
            assert(low.seps() =~= seps.take(b - 1));
            assert(high.seps() =~= seps.skip(b));
            parts::lemma_framed_split(lo, hi, seps, ps, b);
            assert forall|i: int|
                #![trigger low.child_at(i)]
                0 <= i <= low.children@.len() implies low.child_at(i) == before.child_at(i)
                && parts::lo_at(lo, low.seps(), i) == parts::lo_at(lo, seps, i) && parts::hi_at(
                m,
                low.seps(),
                i,
            ) == parts::hi_at(hi, seps, i) by {
            }
            assert forall|i: int|
                #![trigger high.child_at(i)]
                0 <= i <= high.children@.len() implies high.child_at(i) == before.child_at(b + i)
                && parts::lo_at(m, high.seps(), i) == parts::lo_at(lo, seps, b + i)
                && parts::hi_at(hi, high.seps(), i) == parts::hi_at(hi, seps, b + i) by {
            }
            assert(low.parts(h) =~= ps.take(b));
            assert(high.parts(h) =~= ps.skip(b));
            parts::lemma_flat_join(ps.take(b), ps.skip(b));
            assert(ps =~= ps.take(b) + ps.skip(b));
        }
        (low, Some((key, high)))
    }

    /// A child can be cut in two at a new separator.
    proof fn lemma_cuts(
        self,
        before: Self,
        h: nat,
        lo: Option<K>,
        hi: Option<K>,
        i: int,
        b: K,
        low: Node<K, V>,
        high: Node<K, V>,
    )
        requires
            key::ordered_key::<K>(),
            before.wf_in(h, lo, hi),
            !before.retired,
            0 <= i <= before.seps().len(),
            self.children.wf(),
            !self.children.frozen(),
            !self.retired,
            self.unbounded_child is Some,
            self.seps() == before.seps().insert(i, b),
            self.child_at(i) == Some(low),
            self.child_at(i + 1) == Some(high),
            forall|j: int|
                #![trigger self.child_at(j)]
                0 <= j < i ==> self.child_at(j) == before.child_at(j),
            forall|j: int|
                #![trigger self.child_at(j)]
                i + 1 < j <= self.seps().len() ==> self.child_at(j) == before.child_at(j - 1),
            parts::above(parts::lo_at(lo, before.seps(), i), b),
            parts::below(b, parts::hi_at(hi, before.seps(), i)),
            low.wf_in((h - 1) as nat, parts::lo_at(lo, before.seps(), i), Some(b)),
            high.wf_in((h - 1) as nat, Some(b), parts::hi_at(hi, before.seps(), i)),
            !low.retired(),
            !high.retired(),
            before.parts(h)[i] == low.seq((h - 1) as nat) + high.seq((h - 1) as nat),
        ensures
            self.wf_in(h, lo, hi),
            self.seq(h) == before.seq(h),
            self.cuts(before, h, i, b),
    {
        let g = (h - 1) as nat;
        let seps = before.seps();
        let n = self.seps();
        let ps = before.parts(h);
        before.lemma_framed(h, lo, hi);
        low.lemma_wf(g, parts::lo_at(lo, seps, i), Some(b));
        high.lemma_wf(g, Some(b), parts::hi_at(hi, seps, i));
        parts::lemma_cut(lo, hi, seps, ps, i, b, low.seq(g), high.seq(g));
        assert forall|j: int|
            #![trigger self.child_at(j)]
            0 <= j <= self.children@.len() && self.child_at(j) is Some implies (self.child_at(
            j,
        )->0).wf_in(g, parts::lo_at(lo, n, j), parts::hi_at(hi, n, j)) && !(self.child_at(
            j,
        )->0).retired() by {
            if j < i {
                assert(self.child_at(j) == before.child_at(j));
                assert(parts::hi_at(hi, n, j) == parts::hi_at(hi, seps, j));
                assert(parts::lo_at(lo, n, j) == parts::lo_at(lo, seps, j));
            } else if j == i {
                assert(parts::hi_at(hi, n, j) == Some(b));
                assert(parts::lo_at(lo, n, j) == parts::lo_at(lo, seps, i));
            } else if j == i + 1 {
                assert(parts::lo_at(lo, n, j) == Some(b));
                assert(parts::hi_at(hi, n, j) == parts::hi_at(hi, seps, i));
            } else {
                assert(self.child_at(j) == before.child_at(j - 1));
                assert(parts::hi_at(hi, n, j) == parts::hi_at(hi, seps, j - 1));
                assert(parts::lo_at(lo, n, j) == parts::lo_at(lo, seps, j - 1));
            }
        }
        let q = ps.update(i, high.seq(g)).insert(i, low.seq(g));
        assert(self.parts(h) =~= q) by {
            assert forall|j: int| 0 <= j < q.len() implies #[trigger] self.parts(h)[j] == q[j] by {
                if j < i {
                    assert(self.child_at(j) == before.child_at(j));
                } else if j > i + 1 {
                    assert(self.child_at(j) == before.child_at(j - 1));
                }
            }
        }
    }

    /// Splits a full node, or replaces it where its children fit one node.
    ///
    /// Returns `false` if the parent node needs to be split.
    fn split_node(
        &mut self,
        slot: Option<usize>,
        Ghost(key): Ghost<K>,
        Ghost(h): Ghost<nat>,
        Ghost(lo): Ghost<Option<K>>,
        Ghost(hi): Ghost<Option<K>>,
    ) -> (r: bool)
        requires
            old(self).wf_in(h, lo, hi),
            key::ordered_key::<K>(),
            !old(self).retired,
            old(self).slot_at(slot, old(self).route(key)),
        ensures
            final(self).wf_in(h, lo, hi),
            final(self).seq(h) == old(self).seq(h),
            !final(self).retired,
            r == !(!old(self).children.has_room() && (old(self).child_at(
                old(self).route(key),
            )->0).divisible()),
            !r ==> *final(self) == *old(self),
            r ==> (final(self).child_at(final(self).route(key))->0).has_room(),
            r ==> if (old(self).child_at(old(self).route(key))->0).divisible() {
                exists|b: K| #[trigger] final(self).cuts(*old(self), h, old(self).route(key), b)
            } else {
                final(self).renews(*old(self), h, old(self).route(key))
            },
    {
        let ghost i = self.route(key);
        let ghost seps = self.seps();
        let ghost ps = self.parts(h);
        let ghost l = parts::lo_at(lo, seps, i);
        let ghost u = parts::hi_at(hi, seps, i);
        let ghost g = (h - 1) as nat;
        proof {
            self.children.lemma_wf();
            self.lemma_framed(h, lo, hi);
            self.lemma_routes(key);
            assert((self.child_at(i)->0).wf_in(g, l, u));
            assert(!(self.child_at(i)->0).retired());
        }
        let is_full = self.children.is_full();
        let divisible = match slot {
            Some(s) => {
                let (_, child) = self.children.entry_at(s);
                child.is_divisible(Ghost(g), Ghost(l), Ghost(u))
            },
            None => match &self.unbounded_child {
                Some(unbounded) => unbounded.is_divisible(Ghost(g), Ghost(l), Ghost(u)),
                None => vstd::pervasive::unreached(),
            },
        };
        if is_full && divisible {
            return false;
        }
        let target = self.replace_child(slot, Node::new_leaf_node(), Ghost(i));
        let (low_key_node, rest) = target.split(Ghost(g), Ghost(l), Ghost(u));
        let ghost low = low_key_node;
        match rest {
            None => {
                self.replace_child(slot, low_key_node, Ghost(i));
                proof {
                    assert(self.seps() =~= seps);
                    assert forall|j: int|
                        #![trigger self.child_at(j)]
                        0 <= j <= self.children@.len() && j != i implies self.child_at(j) == old(
                        self).child_at(j) by {
                    }
                    assert(self.parts(h) =~= ps);
                    self.lemma_route_is(key, i);
                }
            },
            Some((boundary_key, high_key_node)) => {
                let ghost high = high_key_node;
                proof {
                    low.lemma_wf(g, l, Some(boundary_key));
                    high.lemma_wf(g, Some(boundary_key), u);
                    parts::lemma_cut(lo, hi, seps, ps, i, boundary_key, low.seq(g), high.seq(g));
                }
                self.replace_child(slot, high_key_node, Ghost(i));
                let ghost before = *self;
                proof {
                    assert(self.seps() =~= seps);
                    self.lemma_route_is(boundary_key, i);
                    key::lemma_order::<K>();
                    if i < seps.len() {
                        assert(key::key_lt(boundary_key, seps[i]));
                        assert(self.children@[i].0 == seps[i]);
                    }
                    assert(!sorted::found(self.children@, boundary_key));
                }
                let _result = self.children.insert(boundary_key, low_key_node);
                proof {
                    assert(self.children@ == before.children@.insert(i, (boundary_key, low)));
                    let n = seps.insert(i, boundary_key);
                    assert(self.seps() =~= n);
                    let t = if key::key_lt(boundary_key, key) { i + 1 } else { i };
                    assert(parts::routes(seps, key, i));
                    assert(parts::routes(self.seps(), key, t));
                    self.lemma_route_is(key, t);
                    assert(self.child_at(i + 1) == Some(high)) by {
                        assert(before.child_at(i) == Some(high));
                    }
                    assert forall|j: int|
                        #![trigger self.child_at(j)]
                        0 <= j < i implies self.child_at(j) == old(self).child_at(j) by {
                        assert(before.child_at(j) == old(self).child_at(j));
                    }
                    assert forall|j: int|
                        #![trigger self.child_at(j)]
                        i + 1 < j <= n.len() implies self.child_at(j) == old(self).child_at(
                        j - 1,
                    ) by {
                        assert(before.child_at(j - 1) == old(self).child_at(j - 1));
                    }
                    self.lemma_cuts(*old(self), h, lo, hi, i, boundary_key, low, high);
                }
            },
        }
        true
    }

    /// Inserts a key-value pair whose key lies between the bounds.
    pub(crate) fn insert_in(
        &mut self,
        key: K,
        val: V,
        Ghost(h): Ghost<nat>,
        Ghost(lo): Ghost<Option<K>>,
        Ghost(hi): Ghost<Option<K>>,
    ) -> (r: InsertResult<K, V>)
        requires
            old(self).wf_in(h, lo, hi),
            parts::between(lo, key, hi),
            key::ordered_key::<K>(),
        ensures
            final(self).wf_in(h, lo, hi),
            final(self).retired() == old(self).retired(),
            if sorted::found(old(self).seq(h), key) {
                r == InsertResult::Duplicate(key, val) && final(self).seq(h) == old(self).seq(h)
            } else if old(self).must_split(h, key) {
                r == InsertResult::Full(key, val) && final(self).seq(h) == old(self).seq(h)
                    && final(self).divisible() == old(self).divisible()
            } else {
                &&& r == InsertResult::<K, V>::Success
                &&& final(self).seq(h) == sorted::inserted(old(self).seq(h), key, val)
            },
        decreases h, 0nat, 1nat,
    {
        if self.retired {
            proof {
                self.lemma_wf(h, lo, hi);
            }
            return InsertResult::Full(key, val);
        }
        match self.insert_once(key, val, Ghost(h), Ghost(lo), Ghost(hi)) {
            InsertResult::Full(k, v) => {
                let slot = self.children.slot_greater_equal(&k);
                proof {
                    self.children.lemma_wf();
                }
                if !self.split_node(slot, Ghost(key), Ghost(h), Ghost(lo), Ghost(hi)) {
                    return InsertResult::Full(k, v);
                }
                proof {
                    (self.child_at(self.route(key))->0).lemma_room((h - 1) as nat, key);
                }
                self.insert_once(k, v, Ghost(h), Ghost(lo), Ghost(hi))
            },
            r => r,
        }
    }

    /// Inserts a key-value pair.
    pub fn insert(&mut self, key: K, val: V) -> (r: InsertResult<K, V>)
        requires
            old(self).wf(),
            key::ordered_key::<K>(),
        ensures
            final(self).wf(),
            final(self).retired() == old(self).retired(),
            if sorted::found(old(self).entries(), key) {
                r == InsertResult::Duplicate(key, val) && final(self).entries()
                    == old(self).entries()
            } else if old(self).must_split(old(self).height(), key) {
                r == InsertResult::Full(key, val) && final(self).entries() == old(self).entries()
            } else {
                &&& r == InsertResult::<K, V>::Success
                &&& final(self).entries() == sorted::inserted(old(self).entries(), key, val)
            },
    {
        let ghost h = self.height();
        let r = self.insert_in(key, val, Ghost(h), Ghost(None), Ghost(None));
        proof {
            old(self).lemma_wf(h, None, None);
            self.lemma_wf(h, None, None);
            if self.retired {
                assert(self.height() == 1 && h == 1);
            }
        }
        r
    }

    /// Searches for an entry containing the specified key.
    pub fn search_entry(&self, key: &K) -> (r: Option<(&K, &V)>)
        requires
            self.wf(),
            key::ordered_key::<K>(),
        ensures
            match r {
                Some((k, v)) => sorted::lookup(self.entries(), *key) == Some((*k, *v)),
                None => sorted::lookup(self.entries(), *key) is None,
            },
    {
        self.search_entry_in(key, Ghost(self.height()), Ghost(None), Ghost(None))
    }
}

impl<K: Ord + Clone, V> Node<K, V> {
    /// Removes an entry associated with the given key, which lies between the bounds.
    pub(crate) fn remove_if_in<F: Fn(&V) -> bool>(
        &mut self,
        key: &K,
        condition: &F,
        Ghost(h): Ghost<nat>,
        Ghost(lo): Ghost<Option<K>>,
        Ghost(hi): Ghost<Option<K>>,
    ) -> (r: RemoveResult)
        requires
            old(self).wf_in(h, lo, hi),
            !old(self).retired(),
            parts::between(lo, *key, hi),
            key::ordered_key::<K>(),
            sorted::found(old(self).seq(h), *key) ==> call_requires(
                *condition,
                (&old(self).seq(h)[sorted::place(old(self).seq(h), *key)].1,),
            ),
        ensures
            final(self).wf_in(h, lo, hi),
            if !sorted::found(old(self).seq(h), *key) {
                r == RemoveResult::Fail && final(self).seq(h) == old(self).seq(h) && final(
                    self).retired() == old(self).retired()
            } else {
                let v = old(self).seq(h)[sorted::place(old(self).seq(h), *key)].1;
                ||| r == RemoveResult::Fail && final(self).seq(h) == old(self).seq(h)
                    && call_ensures(*condition, (&v,), false) && final(self).retired() == old(
                    self).retired()
                ||| {
                    &&& call_ensures(*condition, (&v,), true)
                    &&& final(self).seq(h) == sorted::removed(old(self).seq(h), *key)
                    &&& final(self).retired() == old(self).lone(h)
                    &&& r == (if old(self).lone(h) {
                        RemoveResult::Retired
                    } else {
                        RemoveResult::Success
                    })
                }
            },
        decreases h, 1nat,
    {
        match self {
            Node::Internal(n) => n.remove_if_in(key, condition, Ghost(h), Ghost(lo), Ghost(hi)),
            Node::Leaf(n) => n.remove_if_in(key, condition, Ghost(lo), Ghost(hi)),
        }
    }
}

impl<K: Ord + Clone, V> InternalNode<K, V> {
    /// Removes an entry associated with the given key, which lies between the bounds.
    pub(crate) fn remove_if_in<F: Fn(&V) -> bool>(
        &mut self,
        key: &K,
        condition: &F,
        Ghost(h): Ghost<nat>,
        Ghost(lo): Ghost<Option<K>>,
        Ghost(hi): Ghost<Option<K>>,
    ) -> (r: RemoveResult)
        requires
            old(self).wf_in(h, lo, hi),
            !old(self).retired(),
            parts::between(lo, *key, hi),
            key::ordered_key::<K>(),
            sorted::found(old(self).seq(h), *key) ==> call_requires(
                *condition,
                (&old(self).seq(h)[sorted::place(old(self).seq(h), *key)].1,),
            ),
        ensures
            final(self).wf_in(h, lo, hi),
            if !sorted::found(old(self).seq(h), *key) {
                r == RemoveResult::Fail && final(self).seq(h) == old(self).seq(h) && final(
                    self).retired() == old(self).retired()
            } else {
                let v = old(self).seq(h)[sorted::place(old(self).seq(h), *key)].1;
                ||| r == RemoveResult::Fail && final(self).seq(h) == old(self).seq(h)
                    && call_ensures(*condition, (&v,), false) && final(self).retired() == old(
                    self).retired()
                ||| {
                    &&& call_ensures(*condition, (&v,), true)
                    &&& final(self).seq(h) == sorted::removed(old(self).seq(h), *key)
                    &&& final(self).retired() == old(self).lone(h)
                    &&& r == (if old(self).lone(h) {
                        RemoveResult::Retired
                    } else {
                        RemoveResult::Success
                    })
                }
            },
        decreases h, 0nat,
    {
        let slot = self.children.slot_greater_equal(key);
        let ghost i = self.route(*key);
        let ghost s = self.seps();
        let ghost p = self.parts(h);
        let ghost l = parts::lo_at(lo, s, i);
        let ghost u = parts::hi_at(hi, s, i);
        let ghost g = (h - 1) as nat;
        proof {
            self.children.lemma_wf();
            self.lemma_wf(h, lo, hi);
            self.lemma_framed(h, lo, hi);
            self.lemma_routes(*key);
            parts::lemma_route(lo, hi, s, p, *key, i);
            parts::lemma_flat_at(p, i);
            sorted::lemma_place(self.seq(h), *key);
            sorted::lemma_place(p[i], *key);
            assert((self.child_at(i)->0).wf_in(g, l, u));
            assert(!(self.child_at(i)->0).retired());
        }
        let result = match slot {
            Some(c) => self.children.value_mut(c).remove_if_in(
                key,
                condition,
                Ghost(g),
                Ghost(l),
                Ghost(u),
            ),
            None => match &mut self.unbounded_child {
                Some(unbounded) => unbounded.remove_if_in(
                    key,
                    condition,
                    Ghost(g),
                    Ghost(l),
                    Ghost(u),
                ),
                None => vstd::pervasive::unreached(),
            },
        };
        proof {
            let c = self.child_at(i)->0;
            assert(self.seps() =~= s);
            assert forall|j: int|
                #![trigger self.child_at(j)]
                0 <= j <= self.children@.len() && j != i implies self.child_at(j) == old(
                self).child_at(j) by {
            }
            assert(self.parts(h) =~= p.update(i, c.seq(g)));
            assert(p.update(i, p[i]) =~= p);
            if self.children@.len() == 0 {
                assert(i == 0);
            }
        }
        if result == RemoveResult::Retired {
            return self.post_remove(Ghost(i), Ghost(h), Ghost(lo), Ghost(hi));
        }
        result
    }

    /// Drops the child at a slot, along with the separator after it.
    fn drop_child(
        &mut self,
        slot: usize,
        Ghost(i): Ghost<int>,
        Ghost(h): Ghost<nat>,
        Ghost(lo): Ghost<Option<K>>,
        Ghost(hi): Ghost<Option<K>>,
    ) -> (r: (K, Node<K, V>))
        requires
            old(self).frame(h, lo, hi),
            key::ordered_key::<K>(),
            old(self).slot_at(Some(slot), i),
        ensures
            final(self).frame(h, lo, hi),
            final(self).retired == old(self).retired,
            r == old(self).children@[i],
            final(self).children@ == old(self).children@.remove(i),
            final(self).unbounded_child == old(self).unbounded_child,
            final(self).seps() == old(self).seps().remove(i),
            final(self).parts(h) == old(self).parts(h).remove(i),
            forall|j: int|
                #![trigger final(self).child_at(j)]
                0 <= j <= final(self).children@.len() ==> final(self).child_at(j) == old(
                    self).child_at(if j < i { j } else { j + 1 }),
            forall|x: int|
                #![trigger old(self).children.has(x)]
                x != slot && old(self).children.has(x) ==> final(self).children.has(x) && final(
                    self).children.at(x) == (if old(self).children.at(x) < i {
                    old(self).children.at(x)
                } else {
                    old(self).children.at(x) - 1
                }),
    {
        proof {
            self.children.lemma_wf();
        }
        let (_, pair) = self.children.take_unchecked(slot);
        proof {
            let s = old(self).seps();
            assert(self.seps() =~= s.remove(i));
            assert forall|j: int|
                #![trigger self.child_at(j)]
                0 <= j <= self.children@.len() implies self.child_at(j) == old(self).child_at(
                if j < i { j } else { j + 1 },
            ) by {
            }
            assert(self.parts(h) =~= old(self).parts(h).remove(i)) by {
                assert forall|j: int| 0 <= j <= self.children@.len() implies #[trigger] self.parts(
                    h,
                )[j] == old(self).parts(h).remove(i)[j] by {
                    assert(self.child_at(j) == old(self).child_at(if j < i { j } else { j + 1 }));
                }
            }
            self.lemma_dropped(*old(self), i, i, h, lo, hi);
        }
        pair
    }

    /// Dropping a child with a separator next to it leaves the others in their bounds.
    proof fn lemma_dropped(
        self,
        before: Self,
        c: int,
        i: int,
        h: nat,
        lo: Option<K>,
        hi: Option<K>,
    )
        requires
            before.frame(h, lo, hi),
            key::ordered_key::<K>(),
            0 <= c < before.children@.len(),
            i == c || i == c + 1,
            self.children.wf(),
            !self.children.frozen(),
            self.seps() == before.seps().remove(c),
            self.children@.len() == before.children@.len() - 1,
            self.retired == before.retired,
            self.unbounded_child is Some == before.unbounded_child is Some,
            forall|j: int|
                #![trigger self.child_at(j)]
                0 <= j <= self.children@.len() ==> self.child_at(j) == before.child_at(
                    if j < i { j } else { j + 1 },
                ),
        ensures
            self.frame(h, lo, hi),
    {
        let s = before.seps();
        let n = self.seps();
        assert(parts::seps_between(lo, n, hi)) by {
            assert forall|x: int, y: int|
                #![trigger n[x], n[y]]
                0 <= x < y < n.len() implies key::key_lt(n[x], n[y]) by {
                assert(n[x] == s[if x < c { x } else { x + 1 }]);
                assert(n[y] == s[if y < c { y } else { y + 1 }]);
            }
            assert forall|x: int| 0 <= x < n.len() implies parts::above(lo, #[trigger] n[x])
                && parts::below(n[x], hi) by {
                assert(n[x] == s[if x < c { x } else { x + 1 }]);
            }
        }
        assert forall|j: int|
            #![trigger self.child_at(j)]
            0 <= j <= self.children@.len() && self.child_at(j) is Some implies (self.child_at(
            j,
        )->0).wf_in((h - 1) as nat, parts::lo_at(lo, n, j), parts::hi_at(hi, n, j)) by {
            let x = if j < i { j } else { j + 1 };
            assert(self.child_at(j) == before.child_at(x));
            parts::lemma_wider(lo, hi, s, c, x, j);
            (before.child_at(x)->0).lemma_weaken(
                (h - 1) as nat,
                parts::lo_at(lo, s, x),
                parts::hi_at(hi, s, x),
                parts::lo_at(lo, n, j),
                parts::hi_at(hi, n, j),
            );
        }
    }

    /// Tries to delete retired nodes after a successful removal of an entry.
    ///
    /// The child at position `x` has retired.
    fn post_remove(
        &mut self,
        Ghost(x): Ghost<int>,
        Ghost(h): Ghost<nat>,
        Ghost(lo): Ghost<Option<K>>,
        Ghost(hi): Ghost<Option<K>>,
    ) -> (r: RemoveResult)
        requires
            old(self).frame(h, lo, hi),
            old(self).active_but(x),
            0 <= x <= old(self).children@.len(),
            old(self).child_at(x) is Some,
            (old(self).child_at(x)->0).retired(),
            key::ordered_key::<K>(),
        ensures
            final(self).wf_in(h, lo, hi),
            final(self).seq(h) == old(self).seq(h),
            final(self).retired == (old(self).children@.len() == 0),
            r == (if old(self).children@.len() == 0 {
                RemoveResult::Retired
            } else {
                RemoveResult::Success
            }),
    {
        let ghost g = (h - 1) as nat;
        let ghost n = self.children@.len() as int;
        let slots = self.children.slots();
        let mut max_slot: Option<usize> = None;
        let mut j: usize = 0;
        let ghost mut kept: int = 0;
        proof {
            self.children.lemma_wf();
            self.lemma_framed(h, lo, hi);
            let c = self.child_at(x)->0;
            c.lemma_wf(
                g,
                parts::lo_at(lo, self.seps(), x),
                parts::hi_at(hi, self.seps(), x),
            );
            assert(self.parts(h)[x].len() == 0);
        }
        while j < slots.len()
            invariant
                self.frame(h, lo, hi),
                key::ordered_key::<K>(),
                g == h - 1,
                n == slots@.len(),
                0 <= x <= n,
                !self.retired,
                self.unbounded_child == old(self).unbounded_child,
                self.seq(h) == old(self).seq(h),
                j <= n,
                kept == (if x < j { j - 1 } else { j as int }),
                self.children@.len() == kept + n - j,
                parts::framed(lo, hi, self.seps(), self.parts(h)),
                x >= j ==> self.active_but(x) && self.child_at(x) is Some && (self.child_at(
                    x,
                )->0).retired() && self.parts(h)[x].len() == 0,
                x < j ==> self.active_but(-1),
                forall|i: int|
                    j <= i < slots@.len() ==> self.children.has(#[trigger] slots@[i] as int)
                        && self.children.at(slots@[i] as int) == kept + i - j && slots@[i]
                        < NUM_ENTRIES,
                match max_slot {
                    Some(s) => kept > 0 && self.children.has(s as int) && self.children.at(s as int)
                        == kept - 1,
                    None => kept == 0,
                },
            decreases n - j,
        {
            let s = slots[j];
            proof {
                self.children.lemma_wf();
                assert(self.children.has(slots@[j as int] as int));
                assert(self.children.at(s as int) == kept);
                assert(self.child_at(kept) == Some(self.children@[kept].1));
            }
            let (_, node) = self.children.entry_at(s);
            if node.is_retired() {
                assert(kept == x);
                let ghost before = *self;
                proof {
                    parts::lemma_drop(lo, hi, self.seps(), self.parts(h), kept);
                }
                let _ = self.drop_child(s, Ghost(kept), Ghost(h), Ghost(lo), Ghost(hi));
                proof {
                    self.lemma_framed(h, lo, hi);
                    assert forall|i: int|
                        #![trigger self.child_at(i)]
                        0 <= i <= self.children@.len() && self.child_at(i) is Some implies !(
                    self.child_at(i)->0).retired() by {
                        let y = if i < kept { i } else { i + 1 };
                        assert(self.child_at(i) == before.child_at(y));
                    }
                    assert forall|i: int| j + 1 <= i < slots@.len() implies self.children.has(
                        #[trigger] slots@[i] as int,
                    ) && self.children.at(slots@[i] as int) == kept + i - (j + 1) by {
                        assert(before.children.has(slots@[i] as int));
                        assert(before.children.at(slots@[i] as int) == kept + i - j);
                    }
                }
            } else {
                max_slot = Some(s);
                proof {
                    if kept == x && x >= j {
                        assert((self.child_at(x)->0).retired());
                    }
                    kept = kept + 1;
                }
            }
            j += 1;
        }

        // The unbounded node is replaced with the maximum key node if retired.
        let unbounded_retired = match &self.unbounded_child {
            Some(unbounded) => unbounded.is_retired(),
            None => true,
        };
        let ghost before = *self;
        let ghost m = self.children@.len() as int;
        proof {
            assert(self.child_at(m) is Some);
        }
        let fully_empty = if unbounded_retired {
            assert(x == n);
            match max_slot {
                Some(s) => {
                    proof {
                        parts::lemma_drop_at(lo, hi, before.seps(), before.parts(h), m, m - 1);
                    }
                    let (_, pair) = self.children.take_unchecked(s);
                    self.unbounded_child = Some(Box::new(pair.1));
                    proof {
                        assert(self.seps() =~= before.seps().remove(m - 1));
                        assert forall|i: int|
                            #![trigger self.child_at(i)]
                            0 <= i <= self.children@.len() implies self.child_at(i)
                            == before.child_at(if i < m { i } else { i + 1 }) && self.child_at(i)
                            == before.child_at(i) by {
                        }
                        assert(self.parts(h) =~= before.parts(h).remove(m)) by {
                            assert forall|i: int| 0 <= i <= self.children@.len() implies
                                #[trigger] self.parts(h)[i] == before.parts(h).remove(m)[i] by {
                                assert(self.child_at(i) == before.child_at(i));
                            }
                        }
                        self.lemma_dropped(before, m - 1, m, h, lo, hi);
                    }
                    false
                },
                None => {
                    self.unbounded_child = None;
                    true
                },
            }
        } else {
            proof {
                assert(x < n) by {
                    if x == n {
                        assert((self.child_at(x)->0).retired());
                    }
                }
            }
            false
        };

        if fully_empty {
            self.retired = true;
            proof {
                assert(self.seps() =~= before.seps());
                assert(self.parts(h) =~= before.parts(h)) by {
                    assert(before.parts(h)[0].len() == 0);
                    assert(before.parts(h)[0] =~= Seq::empty());
                }
                assert forall|i: int|
                    #![trigger self.child_at(i)]
                    0 <= i <= self.children@.len() implies self.child_at(i) is None by {
                }
            }
            RemoveResult::Retired
        } else {
            RemoveResult::Success
        }
    }

    /// Removes an entry associated with the given key.
    pub fn remove_if<F: Fn(&V) -> bool>(&mut self, key: &K, condition: &F) -> (r: RemoveResult)
        requires
            old(self).wf(),
            !old(self).retired(),
            key::ordered_key::<K>(),
            sorted::found(old(self).entries(), *key) ==> call_requires(
                *condition,
                (&old(self).entries()[sorted::place(old(self).entries(), *key)].1,),
            ),
        ensures
            final(self).wf(),
            if !sorted::found(old(self).entries(), *key) {
                r == RemoveResult::Fail && final(self).entries() == old(self).entries()
            } else {
                let v = old(self).entries()[sorted::place(old(self).entries(), *key)].1;
                ||| r == RemoveResult::Fail && final(self).entries() == old(self).entries()
                    && call_ensures(*condition, (&v,), false)
                ||| {
                    &&& call_ensures(*condition, (&v,), true)
                    &&& final(self).entries() == sorted::removed(old(self).entries(), *key)
                    &&& final(self).retired() == old(self).lone(old(self).height())
                    &&& r == (if old(self).lone(old(self).height()) {
                        RemoveResult::Retired
                    } else {
                        RemoveResult::Success
                    })
                }
            },
    {
        let ghost h = self.height();
        let r = self.remove_if_in(key, condition, Ghost(h), Ghost(None), Ghost(None));
        proof {
            self.lemma_wf(h, None, None);
            if self.retired {
                assert forall|i: int|
                    #![trigger self.child_at(i)]
                    0 <= i <= self.children@.len() implies self.child_at(i) is None by {
                }
                assert(self.wf_in(1, None, None));
                self.lemma_wf(1, None, None);
                assert(self.seq(h) =~= self.seq(1));
            }
        }
        r
    }
}

impl<K: Ord + Clone, V> Node<K, V> {
    /// The number of children, the unbounded one counted whether or not it is there.
    pub closed spec fn num_children(self) -> nat {
        match self {
            Node::Internal(n) => n.num_children(),
            Node::Leaf(n) => n.num_children(),
        }
    }

    /// Removes a range of entries.
    ///
    /// Where `start_unbounded`, no key of the node lies below the range; where `end_bounded`, none
    /// can lie above it.
    ///
    /// Returns the number of remaining children.
    pub(crate) fn remove_range_in(
        &mut self,
        range: &KeyRange<K>,
        start_unbounded: bool,
        end_bounded: bool,
        Ghost(h): Ghost<nat>,
        Ghost(lo): Ghost<Option<K>>,
        Ghost(hi): Ghost<Option<K>>,
    ) -> (r: usize)
        requires
            old(self).wf_in(h, lo, hi),
            !old(self).retired(),
            key::ordered_key::<K>(),
            start_unbounded ==> parts::start_covered(*range, lo),
            end_bounded ==> !start_unbounded && hi is Some && range.to_end(hi->0),
        ensures
            final(self).wf_in(h, lo, hi),
            final(self).seq(h) == parts::rest(*range, old(self).seq(h)),
            !final(self).retired(),
            r == final(self).num_children(),
        decreases h, 1nat,
    {
        match self {
            Node::Internal(n) => n.remove_range_in(
                range,
                start_unbounded,
                end_bounded,
                Ghost(h),
                Ghost(lo),
                Ghost(hi),
            ),
            Node::Leaf(n) => n.remove_range_in(range, start_unbounded, Ghost(lo), Ghost(hi)),
        }
    }
}

impl<K: Ord + Clone, V> InternalNode<K, V> {
    /// The number of children, the unbounded one counted whether or not it is there.
    pub closed spec fn num_children(self) -> nat {
        self.children@.len() + 1
    }

    /// Removes a range of entries from the child at position `i`.
    fn trim_child(
        &mut self,
        slot: Option<usize>,
        range: &KeyRange<K>,
        start_unbounded: bool,
        end_bounded: bool,
        Ghost(i): Ghost<int>,
        Ghost(h): Ghost<nat>,
        Ghost(lo): Ghost<Option<K>>,
        Ghost(hi): Ghost<Option<K>>,
    )
        requires
            old(self).wf_in(h, lo, hi),
            !old(self).retired,
            key::ordered_key::<K>(),
            old(self).slot_at(slot, i),
            start_unbounded ==> parts::start_covered(*range, parts::lo_at(lo, old(self).seps(), i)),
            end_bounded ==> !start_unbounded && parts::hi_at(hi, old(self).seps(), i) is Some
                && range.to_end(parts::hi_at(hi, old(self).seps(), i)->0),
        ensures
            final(self).wf_in(h, lo, hi),
            !final(self).retired,
            final(self).seps() == old(self).seps(),
            final(self).children@.len() == old(self).children@.len(),
            final(self).parts(h) == old(self).parts(h).update(
                i,
                parts::rest(*range, old(self).parts(h)[i]),
            ),
            parts::rest(*range, final(self).seq(h)) == parts::rest(*range, old(self).seq(h)),
            parts::disjoint(*range, final(self).parts(h)[i]),
            forall|s: Option<usize>, j: int|
                #[trigger] old(self).slot_at(s, j) ==> final(self).slot_at(s, j),
        decreases h, 0nat, 0nat,
    {
        let ghost s = self.seps();
        let ghost p = self.parts(h);
        let ghost l = parts::lo_at(lo, s, i);
        let ghost u = parts::hi_at(hi, s, i);
        let ghost g = (h - 1) as nat;
        proof {
            self.children.lemma_wf();
            self.lemma_framed(h, lo, hi);
            assert((self.child_at(i)->0).wf_in(g, l, u));
            assert(!(self.child_at(i)->0).retired());
            parts::lemma_rest_update(*range, lo, hi, s, p, i);
            parts::lemma_rest_disjoint(*range, p[i]);
        }
        match slot {
            Some(c) => {
                self.children.value_mut(c).remove_range_in(
                    range,
                    start_unbounded,
                    end_bounded,
                    Ghost(g),
                    Ghost(l),
                    Ghost(u),
                );
            },
            None => match &mut self.unbounded_child {
                Some(unbounded) => {
                    unbounded.remove_range_in(
                        range,
                        start_unbounded,
                        end_bounded,
                        Ghost(g),
                        Ghost(l),
                        Ghost(u),
                    );
                },
                None => {},
            },
        }
        proof {
            let c = self.child_at(i)->0;
            assert(self.seps() =~= s);
            assert forall|j: int|
                #![trigger self.child_at(j)]
                0 <= j <= self.children@.len() && j != i implies self.child_at(j) == old(
                self).child_at(j) by {
            }
            assert(self.parts(h) =~= p.update(i, c.seq(g)));
        }
    }

    /// Removes a range of entries.
    ///
    /// Children that lie in the range are dropped, the ones on its borders lose their entries in
    /// the range. Where `start_unbounded`, no key of the node lies below the range; where
    /// `end_bounded`, none can lie above it.
    ///
    /// Returns the number of remaining children.
    #[verifier::rlimit(40)]
    pub(crate) fn remove_range_in(
        &mut self,
        range: &KeyRange<K>,
        start_unbounded: bool,
        end_bounded: bool,
        Ghost(h): Ghost<nat>,
        Ghost(lo): Ghost<Option<K>>,
        Ghost(hi): Ghost<Option<K>>,
    ) -> (r: usize)
        requires
            old(self).wf_in(h, lo, hi),
            !old(self).retired(),
            key::ordered_key::<K>(),
            start_unbounded ==> parts::start_covered(*range, lo),
            end_bounded ==> !start_unbounded && hi is Some && range.to_end(hi->0),
        ensures
            final(self).wf_in(h, lo, hi),
            final(self).seq(h) == parts::rest(*range, old(self).seq(h)),
            !final(self).retired(),
            r == final(self).num_children(),
        decreases h, 0nat, 1nat,
    {
        let mut current_state = RemoveRangeState::Below;
        let mut lower_border: Option<usize> = None;
        let mut upper_border: Option<usize> = None;
        let slots = self.children.slots();
        let mut j: usize = 0;
        let ghost mut kept: int = 0;
        let ghost seps = self.seps();
        let ghost ps = self.parts(h);
        let ghost n = seps.len() as int;
        proof {
            self.children.lemma_wf();
            self.lemma_framed(h, lo, hi);
        }
        while j < slots.len() && current_state != RemoveRangeState::MaybeAbove
            invariant
                self.wf_in(h, lo, hi),
                !self.retired,
                key::ordered_key::<K>(),
                parts::framed(lo, hi, seps, ps),
                start_unbounded ==> parts::start_covered(*range, lo),
                end_bounded ==> !start_unbounded && hi is Some && range.to_end(hi->0),
                parts::rest(*range, self.seq(h)) == parts::rest(*range, old(self).seq(h)),
                n == seps.len() == slots@.len(),
                0 <= kept <= j <= n,
                self.children@.len() == kept + n - j,
                self.seps().skip(kept) == seps.skip(j as int),
                self.parts(h).skip(kept) == ps.skip(j as int),
                self.parts(h).len() == self.children@.len() + 1,
                current_state != RemoveRangeState::MaybeAbove ==> {
                    &&& parts::seen(*range, seps, j as int, current_state)
                    &&& start_unbounded ==> kept == 0
                    &&& upper_border is None
                    &&& match lower_border {
                        Some(s) => self.slot_at(Some(s), kept - 1) && range.has_key(
                            self.seps()[kept - 1],
                        ) && !start_unbounded && current_state != RemoveRangeState::Below,
                        None => current_state == RemoveRangeState::Below || start_unbounded,
                    }
                    &&& forall|i: int|
                        j <= i < slots@.len() ==> self.children.has(#[trigger] slots@[i] as int)
                            && self.children.at(slots@[i] as int) == kept + i - j && slots@[i]
                            < NUM_ENTRIES
                    &&& forall|i: int|
                        0 <= i < kept && !(lower_border is Some && i == kept - 1)
                            ==> parts::disjoint(*range, #[trigger] self.parts(h)[i])
                },
                current_state == RemoveRangeState::MaybeAbove ==> {
                    &&& !end_bounded
                    &&& self.slot_at(upper_border, kept - 1) && upper_border is Some
                    &&& start_unbounded ==> kept == 1
                    &&& match lower_border {
                        Some(s) => self.slot_at(Some(s), kept - 2) && range.has_key(
                            self.seps()[kept - 2],
                        ) && !start_unbounded,
                        None => true,
                    }
                    &&& forall|i: int|
                        0 <= i < kept - 1 && !(lower_border is Some && i == kept - 2)
                            ==> parts::disjoint(*range, #[trigger] self.parts(h)[i])
                    &&& forall|i: int| j <= i <= n ==> parts::disjoint(*range, #[trigger] ps[i])
                },
            decreases n - j,
        {
            let s = slots[j];
            let ghost before = *self;
            let ghost prev = current_state;
            proof {
                self.children.lemma_wf();
                self.lemma_framed(h, lo, hi);
                assert(self.children.has(slots@[j as int] as int));
                assert(self.children.at(s as int) == kept);
                assert(self.seps().skip(kept)[0] == seps.skip(j as int)[0]);
                assert(self.parts(h).skip(kept)[0] == ps.skip(j as int)[0]);
                assert(self.children@[kept].0 == self.seps()[kept]);
                assert(self.parts(h)[kept] == ps[j as int]);
                assert(self.seps().skip(kept).skip(1) =~= self.seps().skip(kept + 1));
                assert(seps.skip(j as int).skip(1) =~= seps.skip(j as int + 1));
                assert(self.parts(h).skip(kept).skip(1) =~= self.parts(h).skip(kept + 1));
                assert(ps.skip(j as int).skip(1) =~= ps.skip(j as int + 1));
            }
            let (key, _) = self.children.entry_at(s);
            current_state = current_state.next(key, range, start_unbounded);
            proof {
                parts::lemma_border(
                    *range,
                    lo,
                    hi,
                    seps,
                    ps,
                    j as int,
                    prev,
                    current_state,
                    start_unbounded,
                );
                if start_unbounded && current_state == RemoveRangeState::Below {
                    assert(parts::above(lo, seps[j as int]));
                    assert(false);
                }
            }
            match current_state {
                RemoveRangeState::Below => {
                    proof {
                        kept = kept + 1;
                    }
                },
                RemoveRangeState::MaybeBelow => {
                    lower_border = Some(s);
                    proof {
                        kept = kept + 1;
                    }
                },
                RemoveRangeState::FullyContained => {
                    proof {
                        parts::lemma_rest_update(
                            *range,
                            lo,
                            hi,
                            before.seps(),
                            before.parts(h),
                            kept,
                        );
                        parts::lemma_rest(*range, before.parts(h)[kept]);
                        let u = before.parts(h).update(
                            kept,
                            parts::rest(*range, before.parts(h)[kept]),
                        );
                        assert(u[kept].len() == 0);
                        assert(u.remove(kept) =~= before.parts(h).remove(kept));
                        parts::lemma_drop(lo, hi, before.seps(), u, kept);
                    }
                    let _ = self.drop_child(s, Ghost(kept), Ghost(h), Ghost(lo), Ghost(hi));
                    proof {
                        assert forall|i: int|
                            #![trigger self.child_at(i)]
                            0 <= i <= self.children@.len() && self.child_at(i) is Some implies !(
                        self.child_at(i)->0).retired() by {
                            let y = if i < kept { i } else { i + 1 };
                            assert(self.child_at(i) == before.child_at(y));
                        }
                        assert forall|i: int| j + 1 <= i < slots@.len() implies self.children.has(
                            #[trigger] slots@[i] as int,
                        ) && self.children.at(slots@[i] as int) == kept + i - (j + 1) by {
                            assert(before.children.has(slots@[i] as int));
                            assert(before.children.at(slots@[i] as int) == kept + i - j);
                        }
                        assert(self.seps().skip(kept) =~= before.seps().skip(kept + 1));
                        assert(self.parts(h).skip(kept) =~= before.parts(h).skip(kept + 1));
                        if lower_border is Some {
                            assert(before.children.has(lower_border->0 as int));
                            assert(self.seps()[kept - 1] == before.seps()[kept - 1]);
                        }
                        assert forall|i: int| 0 <= i < kept implies #[trigger] self.parts(h)[i]
                            == before.parts(h)[i] by {
                        }
                    }
                },
                RemoveRangeState::MaybeAbove => {
                    upper_border = Some(s);
                    proof {
                        if end_bounded {
                            range.lemma_monotone();
                            assert(parts::below(seps[j as int], hi));
                            assert(key::key_lt(seps[j as int], hi->0));
                            assert(false);
                        }
                        kept = kept + 1;
                    }
                },
            }
            j += 1;
        }
        let ghost m = self.children@.len() as int;
        let ghost up = if upper_border is Some { kept - 1 } else { m };
        proof {
            self.children.lemma_wf();
            self.lemma_framed(h, lo, hi);
            range.lemma_monotone();
            key::lemma_order::<K>();
        }
        if end_bounded {
            // All that follows the lower border lies in the range.
            let ghost before = *self;
            if let Some(s) = lower_border {
                proof {
                    let q = before.parts(h)[m];
                    assert(parts::inside(*range, q)) by {
                        assert forall|x: int| 0 <= x < q.len() implies range.has_key(
                            (#[trigger] q[x]).0,
                        ) by {
                            assert(parts::between(
                                parts::lo_at(lo, before.seps(), m),
                                q[x].0,
                                parts::hi_at(hi, before.seps(), m),
                            ));
                            assert(key::key_lt(before.seps()[m - 1], q[x].0));
                            assert(key::key_lt(q[x].0, hi->0) || key::key_eq(q[x].0, hi->0));
                        }
                    }
                    parts::lemma_rest_update(*range, lo, hi, before.seps(), before.parts(h), m);
                    parts::lemma_rest(*range, q);
                    let w = before.parts(h).update(m, parts::rest(*range, q));
                    assert(w.remove(m) =~= before.parts(h).remove(m));
                    parts::lemma_drop_at(lo, hi, before.seps(), w, m, m - 1);
                }
                let (_, pair) = self.children.take_unchecked(s);
                self.unbounded_child = Some(Box::new(pair.1));
                proof {
                    assert(self.seps() =~= before.seps().remove(m - 1));
                    assert forall|i: int|
                        #![trigger self.child_at(i)]
                        0 <= i <= self.children@.len() implies self.child_at(i) == before.child_at(
                        if i < m { i } else { i + 1 },
                    ) && self.child_at(i) == before.child_at(i) by {
                    }
                    assert(self.parts(h) =~= before.parts(h).remove(m)) by {
                        assert forall|i: int| 0 <= i <= self.children@.len() implies
                            #[trigger] self.parts(h)[i] == before.parts(h).remove(m)[i] by {
                            assert(self.child_at(i) == before.child_at(i));
                        }
                    }
                    self.lemma_dropped(before, m - 1, m, h, lo, hi);
                }
            }
            let ghost before2 = *self;
            let ghost last = self.children@.len() as int;
            self.trim_child(
                None,
                range,
                false,
                true,
                Ghost(last),
                Ghost(h),
                Ghost(lo),
                Ghost(hi),
            );
            proof {
                assert forall|i: int| 0 <= i < self.parts(h).len() implies parts::disjoint(
                    *range,
                    #[trigger] self.parts(h)[i],
                ) by {
                    if i < last {
                        assert(self.parts(h)[i] == before2.parts(h)[i]);
                        assert(before2.parts(h)[i] == before.parts(h)[i]);
                    }
                }
            }
        } else {
            let ghost before = *self;
            let ghost low = if lower_border is Some { up - 1 } else { -1 };
            if let Some(s) = lower_border {
                self.trim_child(
                    Some(s),
                    range,
                    false,
                    true,
                    Ghost(low),
                    Ghost(h),
                    Ghost(lo),
                    Ghost(hi),
                );
            }
            let ghost middle = *self;
            proof {
                if lower_border is Some {
                    assert(range.has_key(self.seps()[up - 1]));
                    assert forall|k: K| #[trigger] parts::above(
                        Some(self.seps()[up - 1]),
                        k,
                    ) implies range.from_start(k) by {
                        assert(key::key_lt(self.seps()[up - 1], k));
                    }
                }
                assert(before.slot_at(upper_border, up));
                assert(self.slot_at(upper_border, up));
            }
            self.trim_child(
                upper_border,
                range,
                start_unbounded || lower_border.is_some(),
                false,
                Ghost(up),
                Ghost(h),
                Ghost(lo),
                Ghost(hi),
            );
            proof {
                assert forall|i: int| 0 <= i < self.parts(h).len() implies parts::disjoint(
                    *range,
                    #[trigger] self.parts(h)[i],
                ) by {
                    if i != up {
                        assert(self.parts(h)[i] == middle.parts(h)[i]);
                        if i != low {
                            assert(middle.parts(h)[i] == before.parts(h)[i]);
                            if i >= kept {
                                assert(before.parts(h).skip(kept)[i - kept] == ps.skip(j as int)[i
                                    - kept]);
                                assert(before.parts(h)[i] == ps[j + i - kept]);
                            }
                        }
                    }
                }
            }
        }
        proof {
            parts::lemma_rest_whole(*range, self.parts(h));
        }
        self.children.count() + 1
    }
}

impl<K: Ord + Clone, V> Node<K, V> {
    /// Returns the leaves in key order.
    pub(crate) fn leaves_in(
        &self,
        Ghost(h): Ghost<nat>,
        Ghost(lo): Ghost<Option<K>>,
        Ghost(hi): Ghost<Option<K>>,
    ) -> (r: Vec<&Leaf<K, V>>)
        requires
            self.wf_in(h, lo, hi),
            key::ordered_key::<K>(),
        ensures
            chain::joined(r@) == self.seq(h),
            chain::all_wf(r@),
        decreases h, 1nat,
    {
        match self {
            Node::Internal(n) => n.leaves_in(Ghost(h), Ghost(lo), Ghost(hi)),
            Node::Leaf(n) => n.leaves_in(Ghost(lo), Ghost(hi)),
        }
    }
}

impl<K: Ord + Clone, V> InternalNode<K, V> {
    /// Returns the leaves in key order.
    pub(crate) fn leaves_in(
        &self,
        Ghost(h): Ghost<nat>,
        Ghost(lo): Ghost<Option<K>>,
        Ghost(hi): Ghost<Option<K>>,
    ) -> (r: Vec<&Leaf<K, V>>)
        requires
            self.wf_in(h, lo, hi),
            key::ordered_key::<K>(),
        ensures
            chain::joined(r@) == self.seq(h),
            chain::all_wf(r@),
        decreases h, 0nat,
    {
        let slots = self.children.slots();
        let mut out: Vec<&Leaf<K, V>> = Vec::new();
        let mut j: usize = 0;
        let ghost g = (h - 1) as nat;
        let ghost s = self.seps();
        let ghost p = self.parts(h);
        proof {
            self.children.lemma_wf();
            assert(chain::views(out@) =~= Seq::empty());
            assert(p.take(0) =~= Seq::empty());
        }
        while j < slots.len()
            invariant
                self.wf_in(h, lo, hi),
                key::ordered_key::<K>(),
                g == h - 1,
                s == self.seps(),
                p == self.parts(h),
                j <= slots@.len() == self.children@.len(),
                p.len() == slots@.len() + 1,
                forall|i: int|
                    0 <= i < slots@.len() ==> self.children.has(#[trigger] slots@[i] as int)
                        && self.children.at(slots@[i] as int) == i && slots@[i] < NUM_ENTRIES,
                chain::joined(out@) == parts::flat(p.take(j as int)),
                chain::all_wf(out@),
            decreases slots@.len() - j, 0nat,
        {
            let c = slots[j];
            let (_, child) = self.children.entry_at(c);
            proof {
                assert(self.child_at(j as int) == Some(*child));
            }
            let mut more = child.leaves_in(
                Ghost(g),
                Ghost(parts::lo_at(lo, s, j as int)),
                Ghost(parts::hi_at(hi, s, j as int)),
            );
            proof {
                chain::lemma_joined(out@, more@);
                assert(p.take(j as int + 1).drop_last() =~= p.take(j as int));
                assert(p.take(j as int + 1).last() == p[j as int]);
            }
            out.append(&mut more);
            j += 1;
        }
        let ghost n = self.children@.len() as int;
        proof {
            assert(p.drop_last() =~= p.take(n));
        }
        match &self.unbounded_child {
            Some(unbounded) => {
                proof {
                    assert(self.child_at(n) == Some(**unbounded));
                }
                let mut more = unbounded.leaves_in(
                    Ghost(g),
                    Ghost(parts::lo_at(lo, s, n)),
                    Ghost(parts::hi_at(hi, s, n)),
                );
                proof {
                    chain::lemma_joined(out@, more@);
                }
                out.append(&mut more);
            },
            None => {
                assert(self.seq(h) =~= chain::joined(out@));
            },
        }
        out
    }
}

impl<K: Ord + Clone, V> Node<K, V> {
    /// Puts an internal node above a node.
    pub(crate) fn above(node: Node<K, V>, Ghost(h): Ghost<nat>) -> (r: Node<K, V>)
        requires
            node.wf_in(h, None, None),
            !node.retired(),
            h == node.height(),
        ensures
            r.wf_in(h + 1, None, None),
            r.seq(h + 1) == node.seq(h),
            r.height() == h + 1,
            !r.retired(),
            r.has_room(),
    {
        let n = InternalNode::with_child(node);
        proof {
            assert(n.wf_in(h + 1, None, None));
        }
        Node::Internal(n)
    }

    /// Takes the last child out of an internal node that has no separator.
    pub(crate) fn lift(self, Ghost(h): Ghost<nat>) -> (r: Result<Node<K, V>, Node<K, V>>)
        requires
            self.wf_in(h, None, None),
            !self.retired(),
            key::ordered_key::<K>(),
        ensures
            match r {
                Ok(child) => h > 0 && self.num_children() == 1 && child.wf_in((h - 1) as nat, None, None)
                    && !child.retired() && child.seq((h - 1) as nat) == self.seq(h),
                Err(node) => node == self && (h == 0 || self.num_children() > 1),
            },
    {
        match self {
            Node::Internal(n) => {
                if n.children.is_empty() {
                    proof {
                        let c = n.child_at(0)->0;
                        assert(n.child_at(0) is Some);
                        assert(n.parts(h) =~= seq![c.seq((h - 1) as nat)]);
                        parts::lemma_flat_one(c.seq((h - 1) as nat));
                    }
                    match n.unbounded_child {
                        Some(child) => Ok(*child),
                        None => vstd::pervasive::unreached(),
                    }
                } else {
                    Err(Node::Internal(n))
                }
            },
            Node::Leaf(n) => Err(Node::Leaf(n)),
        }
    }
}

} // verus!
