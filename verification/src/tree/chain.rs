//! The leaves of a tree in key order, and the way from one to the next.

use vstd::prelude::*;
use crate::tree::key;
use crate::tree::key::{KeyOrder, compare};
use crate::tree::leaf::Leaf;
use crate::tree::leaf_iter::{Iter, RevIter};
use crate::tree::parts;
use crate::tree::sorted;

verus! {

/// The entries of each leaf.
pub open spec fn views<K, V>(leaves: Seq<&Leaf<K, V>>) -> Seq<Seq<(K, V)>> {
    Seq::new(leaves.len(), |i: int| leaves[i]@)
}

/// The entries of all leaves.
pub open spec fn joined<K, V>(leaves: Seq<&Leaf<K, V>>) -> Seq<(K, V)> {
    parts::flat(views(leaves))
}

/// The number of entries before leaf `i`.
pub open spec fn before<K, V>(leaves: Seq<&Leaf<K, V>>, i: int) -> int {
    parts::flat(views(leaves).take(i)).len() as int
}

/// All leaves are sound.
pub open spec fn all_wf<K: Ord + Clone, V>(leaves: Seq<&Leaf<K, V>>) -> bool {
    forall|i: int| 0 <= i < leaves.len() ==> (#[trigger] leaves[i]).wf()
}

/// A chain behind another one holds the entries of both, in that order.
pub proof fn lemma_joined<K, V>(a: Seq<&Leaf<K, V>>, b: Seq<&Leaf<K, V>>)
    ensures
        joined(a + b) == joined(a) + joined(b),
{
    assert(views(a + b) =~= views(a) + views(b));
    parts::lemma_flat_join(views(a), views(b));
}

/// Where the entries of leaf `i` stand among all.
pub proof fn lemma_before<K, V>(leaves: Seq<&Leaf<K, V>>, i: int)
    requires
        0 <= i < leaves.len(),
    ensures
        before(leaves, i + 1) == before(leaves, i) + leaves[i]@.len(),
        0 <= before(leaves, i),
        before(leaves, i + 1) <= joined(leaves).len(),
        forall|x: int|
            0 <= x < leaves[i]@.len() ==> #[trigger] leaves[i]@[x] == joined(leaves)[before(
                leaves,
                i,
            ) + x],
{
    let v = views(leaves);
    assert(v.take(i + 1).drop_last() =~= v.take(i));
    assert(v.take(i + 1).last() == leaves[i]@);
    parts::lemma_flat_at(v, i);
    assert forall|x: int| 0 <= x < leaves[i]@.len() implies #[trigger] leaves[i]@[x] == joined(
        leaves,
    )[before(leaves, i) + x] by {
    }
}

/// Empty leaves hold nothing back.
pub proof fn lemma_between<K, V>(leaves: Seq<&Leaf<K, V>>, i: int, j: int)
    requires
        0 <= i <= j <= leaves.len(),
        forall|x: int| i <= x < j ==> (#[trigger] leaves[x])@.len() == 0,
    ensures
        before(leaves, j) == before(leaves, i),
    decreases j - i,
{
    if i < j {
        lemma_between(leaves, i, j - 1);
        lemma_before(leaves, j - 1);
    }
}

/// Nothing stands before the first leaf, and everything before the end.
pub proof fn lemma_ends<K, V>(leaves: Seq<&Leaf<K, V>>)
    ensures
        before(leaves, 0) == 0,
        before(leaves, leaves.len() as int) == joined(leaves).len(),
{
    assert(views(leaves).take(0) =~= Seq::empty());
    assert(views(leaves).take(leaves.len() as int) =~= views(leaves));
}

/// A place in a chain of leaves: an entry of one of them.
pub struct Cursor<'l, K, V> {
    pub at: usize,
    pub iter: Iter<'l, K, V>,
}

/// A place in a chain of leaves, for going back.
pub struct RevCursor<'l, K, V> {
    pub at: usize,
    pub iter: RevIter<'l, K, V>,
}

impl<'l, K: Ord + Clone, V> Cursor<'l, K, V> {
    /// The cursor points to an entry.
    pub open spec fn on(self, leaves: Seq<&Leaf<K, V>>) -> bool {
        &&& self.at < leaves.len()
        &&& self.iter.wf()
        &&& self.iter.leaf() == *leaves[self.at as int]
        &&& 0 < self.iter.rank() <= self.iter.leaf()@.len()
    }

    /// The position of the entry.
    pub open spec fn index(self, leaves: Seq<&Leaf<K, V>>) -> int {
        before(leaves, self.at as int) + self.iter.rank() - 1
    }
}

impl<'l, K: Ord + Clone, V> RevCursor<'l, K, V> {
    /// The cursor points to an entry.
    pub open spec fn on(self, leaves: Seq<&Leaf<K, V>>) -> bool {
        &&& self.at < leaves.len()
        &&& self.iter.wf()
        &&& self.iter.leaf() == *leaves[self.at as int]
        &&& 0 < self.iter.rev_rank() <= self.iter.leaf()@.len()
    }

    /// The position of the entry.
    pub open spec fn index(self, leaves: Seq<&Leaf<K, V>>) -> int {
        before(leaves, self.at as int) + self.iter.leaf()@.len() - self.iter.rev_rank()
    }
}

/// Goes to the first entry at or after leaf `from`.
pub fn enter<'l, K: Ord + Clone, V>(leaves: &Vec<&'l Leaf<K, V>>, from: usize) -> (r: Option<
    Cursor<'l, K, V>,
>)
    requires
        all_wf(leaves@),
        key::ordered_key::<K>(),
        from <= leaves@.len(),
    ensures
        match r {
            Some(c) => c.on(leaves@) && c.index(leaves@) == before(leaves@, from as int) && c.index(
                leaves@,
            ) < joined(leaves@).len() && c.at >= from && c.iter.rank() == 1,
            None => before(leaves@, from as int) == joined(leaves@).len(),
        },
{
    let mut at: usize = from;
    while at < leaves.len()
        invariant
            all_wf(leaves@),
            key::ordered_key::<K>(),
            from <= at <= leaves@.len(),
            forall|x: int| from <= x < at ==> (#[trigger] leaves@[x])@.len() == 0,
        decreases leaves@.len() - at,
    {
        let mut iter = Iter::new(leaves[at]);
        if iter.next().is_some() {
            proof {
                lemma_between(leaves@, from as int, at as int);
                lemma_before(leaves@, at as int);
            }
            return Some(Cursor { at, iter });
        }
        // Empty leaf: continue.
        at += 1;
    }
    proof {
        lemma_between(leaves@, from as int, at as int);
        lemma_ends(leaves@);
    }
    None
}

/// Goes to the last entry before leaf `to`.
pub fn enter_back<'l, K: Ord + Clone, V>(leaves: &Vec<&'l Leaf<K, V>>, to: usize) -> (r: Option<
    RevCursor<'l, K, V>,
>)
    requires
        all_wf(leaves@),
        key::ordered_key::<K>(),
        to <= leaves@.len(),
    ensures
        match r {
            Some(c) => c.on(leaves@) && c.index(leaves@) == before(leaves@, to as int) - 1 && 0
                <= c.index(leaves@) && c.at < to,
            None => before(leaves@, to as int) == 0,
        },
{
    let mut at: usize = to;
    while at > 0
        invariant
            all_wf(leaves@),
            key::ordered_key::<K>(),
            at <= to <= leaves@.len(),
            forall|x: int| at <= x < to ==> (#[trigger] leaves@[x])@.len() == 0,
        decreases at,
    {
        let mut iter = RevIter::new(leaves[at - 1]);
        if iter.next().is_some() {
            proof {
                lemma_between(leaves@, at as int, to as int);
                lemma_before(leaves@, at - 1);
            }
            return Some(RevCursor { at: at - 1, iter });
        }
        // Empty leaf: continue.
        at -= 1;
    }
    proof {
        lemma_between(leaves@, at as int, to as int);
        lemma_ends(leaves@);
    }
    None
}

/// Goes to the next entry.
pub fn advance<'l, K: Ord + Clone, V>(
    leaves: &Vec<&'l Leaf<K, V>>,
    cursor: Cursor<'l, K, V>,
) -> (r: Option<Cursor<'l, K, V>>)
    requires
        all_wf(leaves@),
        key::ordered_key::<K>(),
        cursor.on(leaves@),
    ensures
        match r {
            Some(c) => c.on(leaves@) && c.index(leaves@) == cursor.index(leaves@) + 1 && c.index(
                leaves@,
            ) < joined(leaves@).len() && (c.at == cursor.at || (c.at > cursor.at && c.iter.rank()
                == 1)),
            None => cursor.index(leaves@) + 1 == joined(leaves@).len(),
        },
{
    proof {
        lemma_before(leaves@, cursor.at as int);
    }
    let at: usize = cursor.at;
    let mut iter = cursor.iter;
    if iter.next().is_some() {
        return Some(Cursor { at, iter });
    }
    // Go to the next leaf.
    assert(at < leaves.len());
    enter(leaves, at + 1)
}

/// Goes to the entry before.
pub fn retreat<'l, K: Ord + Clone, V>(
    leaves: &Vec<&'l Leaf<K, V>>,
    cursor: RevCursor<'l, K, V>,
) -> (r: Option<RevCursor<'l, K, V>>)
    requires
        all_wf(leaves@),
        key::ordered_key::<K>(),
        cursor.on(leaves@),
    ensures
        match r {
            Some(c) => c.on(leaves@) && c.index(leaves@) == cursor.index(leaves@) - 1 && 0
                <= c.index(leaves@),
            None => cursor.index(leaves@) == 0,
        },
{
    proof {
        lemma_before(leaves@, cursor.at as int);
    }
    let at: usize = cursor.at;
    let mut iter = cursor.iter;
    if iter.next().is_some() {
        return Some(RevCursor { at, iter });
    }
    // Go to the leaf before.
    enter_back(leaves, at)
}

/// Goes to the first entry of the last leaf whose first entry does not lie above the given key;
/// there is none where all entries lie above it. The first entry that is not below the key follows
/// in this leaf or at the start of the next one.
pub fn approximate<'l, K: Ord + Clone, V>(leaves: &Vec<&'l Leaf<K, V>>, key: &K) -> (r: Option<
    Cursor<'l, K, V>,
>)
    requires
        all_wf(leaves@),
        key::ordered_key::<K>(),
        sorted::sorted(joined(leaves@)),
    ensures
        match r {
            Some(c) => {
                &&& c.on(leaves@)
                &&& 0 <= c.index(leaves@) < joined(leaves@).len()
                &&& c.iter.rank() == 1
                &&& !key::key_lt(*key, joined(leaves@)[c.index(leaves@)].0)
                &&& forall|x: int|
                    before(leaves@, c.at + 1) <= x < joined(leaves@).len() ==> key::key_lt(
                        *key,
                        (#[trigger] joined(leaves@)[x]).0,
                    )
            },
            None => forall|x: int|
                0 <= x < joined(leaves@).len() ==> key::key_lt(
                    *key,
                    (#[trigger] joined(leaves@)[x]).0,
                ),
        },
{
    let ghost all = joined(leaves@);
    let mut at: usize = leaves.len();
    proof {
        lemma_ends(leaves@);
    }
    while at > 0
        invariant
            all_wf(leaves@),
            key::ordered_key::<K>(),
            sorted::sorted(all),
            all == joined(leaves@),
            at <= leaves@.len(),
            forall|x: int|
                before(leaves@, at as int) <= x < all.len() ==> key::key_lt(
                    *key,
                    (#[trigger] all[x]).0,
                ),
        decreases at,
    {
        proof {
            lemma_before(leaves@, at - 1);
            key::lemma_order::<K>();
        }
        let mut iter = Iter::new(leaves[at - 1]);
        if let Some((k, _)) = iter.next() {
            let ghost first = before(leaves@, at - 1);
            assert(all[first].0 == *k) by {
                assert(leaves@[at - 1]@[0] == all[first]);
            }
            if compare(key, k) != KeyOrder::Less {
                return Some(Cursor { at: at - 1, iter });
            }
            proof {
                assert forall|x: int| first <= x < all.len() implies key::key_lt(
                    *key,
                    (#[trigger] all[x]).0,
                ) by {
                    if x > first {
                        assert(key::key_lt(all[first].0, all[x].0));
                    }
                }
            }
        }
        at -= 1;
    }
    proof {
        lemma_ends(leaves@);
    }
    None
}

} // verus!
