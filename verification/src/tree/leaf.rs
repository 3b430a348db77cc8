//! An ordered array of key-value pairs of fixed capacity.
//!
//! Entries stay in the slot they were written to. The metadata word gives each slot its state:
//! never written, removed, or the rank of its entry among the live ones. Looking up, inserting and
//! removing only read and rewrite ranks.

use vstd::prelude::*;
use crate::tree::key;
use crate::tree::key::{KeyOrder, compare};
use crate::tree::range::{range_contains, KeyRange};
use crate::tree::sorted;
use crate::tree::dimension::{
    dimension, Dimension, FROZEN, NUM_ENTRIES, REMOVED_RANK, RETIRED, UNINIT_RANK,
    UNLINKED,
};

verus! {

/// [`Leaf`] is an ordered array of key-value pairs.
///
/// The state of each entry is as follows.
/// * `0`: never written.
/// * `1..=NUM_ENTRIES`: its rank.
/// * `REMOVED_RANK`: removed.
///
/// A slot is never reused. `order` lists the live slots by rank.
pub struct Leaf<K, V> {
    metadata: u64,
    entries: Vec<Option<(K, V)>>,
    order: Ghost<Seq<int>>,
}

/// Insertion result.
pub enum InsertResult<K, V> {
    /// Insertion succeeded.
    Success,
    /// Duplicate key found.
    Duplicate(K, V),
    /// No vacant slot for the key.
    Full(K, V),
    /// The leaf is frozen.
    ///
    /// This is not a terminal state as a frozen leaf can be unfrozen.
    Frozen(K, V),
}

/// Remove result.
#[derive(Clone, Copy, Debug, PartialEq, Eq, Structural)]
pub enum RemoveResult {
    /// Remove succeeded.
    Success,
    /// Remove succeeded and cleanup required.
    Retired,
    /// Remove failed.
    Fail,
    /// The leaf is frozen.
    Frozen,
}

/// The rank that a metadata word gives to slot `i`.
pub open spec fn rank_in(metadata: u64, i: int) -> int {
    dimension().rank_of(metadata, i) as int
}

/// A rank that is neither that of an unwritten slot nor that of a removed entry is a live one.
pub proof fn lemma_rank_bound(metadata: u64, i: int)
    requires
        0 <= i < NUM_ENTRIES,
    ensures
        0 <= rank_in(metadata, i) <= REMOVED_RANK,
        live_rank(rank_in(metadata, i)) <==> rank_in(metadata, i) != UNINIT_RANK && rank_in(
            metadata,
            i,
        ) != REMOVED_RANK,
{
    let s: u64 = dimension().shift(i) as u64;
    assert((metadata >> s) & (((1u64 << 4u64) - 1) as u64) <= 15) by (bit_vector);
}

fn rank(metadata: u64, i: usize) -> (r: usize)
    requires
        i < NUM_ENTRIES,
    ensures
        r == rank_in(metadata, i as int),
        r <= REMOVED_RANK,
{
    proof {
        lemma_rank_bound(metadata, i as int);
    }
    dimension().rank(metadata, i)
}

fn with_rank(metadata: u64, i: usize, rank: usize) -> (r: u64)
    requires
        i < NUM_ENTRIES,
        rank <= REMOVED_RANK,
    ensures
        rank_in(r, i as int) == rank,
        forall|j: int|
            0 <= j < NUM_ENTRIES && j != i ==> #[trigger] rank_in(r, j) == rank_in(metadata, j),
        Dimension::retired(r) == Dimension::retired(metadata),
        Dimension::frozen(r) == Dimension::frozen(metadata),
{
    let w: u64 = rank as u64;
    assert(w >> 4u64 == 0) by (bit_vector)
        requires
            w <= 15,
    ;
    let r: u64 = dimension().augment(metadata, i, rank);
    proof {
        assert forall|j: int| 0 <= j < NUM_ENTRIES && j != i implies #[trigger] rank_in(r, j)
            == rank_in(metadata, j) by {
            assert(dimension().rank_of(r, j) == dimension().rank_of(metadata, j));
        }
    }
    r
}

/// The rank belongs to a live entry.
pub open spec fn live_rank(rank: int) -> bool {
    UNINIT_RANK < rank < REMOVED_RANK
}

/// The words give every slot the same rank.
spec fn same_ranks(a: u64, b: u64) -> bool {
    forall|i: int| 0 <= i < NUM_ENTRIES ==> #[trigger] rank_in(a, i) == rank_in(b, i)
}

proof fn lemma_same_fields(a: u64, b: u64)
    requires
        forall|s: u64, w: u64|
            w < 61 && s + w <= 61 ==> #[trigger] crate::tree::dimension::field(b, s, w)
                == crate::tree::dimension::field(a, s, w),
    ensures
        same_ranks(a, b),
{
}

proof fn lemma_same_ranks<K: Ord + Clone, V>(a: Leaf<K, V>, b: Leaf<K, V>)
    requires
        a.wf(),
        same_ranks(a.metadata, b.metadata),
        Dimension::retired(a.metadata) == Dimension::retired(b.metadata),
        a.entries == b.entries,
        a.order == b.order,
    ensures
        b.wf(),
        a@ == b@,
        a.boundary() == b.boundary(),
{
    assert forall|i: int| #[trigger] b.live(i) implies a.live(i) by {
        assert(rank_in(a.metadata, i) == rank_in(b.metadata, i));
    }
    assert forall|i: int| #[trigger] a.live(i) implies b.live(i) by {
        assert(rank_in(a.metadata, i) == rank_in(b.metadata, i));
    }
    assert forall|i: int| 0 <= i < NUM_ENTRIES implies (#[trigger] b.rank_at(i) == UNINIT_RANK
        <==> i >= b.entries@.len()) by {
        assert(a.rank_at(i) == b.rank_at(i));
    }
    assert(a@ =~= b@);
    lemma_score_same(a.metadata, b.metadata, NUM_ENTRIES as int);
}

/// Giving a new entry the rank after `low`, the last rank below it, and raising the ranks above by
/// one, puts it in its place.
proof fn lemma_inserted_slot<K: Ord + Clone, V>(
    a: Leaf<K, V>,
    b: Leaf<K, V>,
    key: K,
    val: V,
    low: int,
)
    requires
        a.wf(),
        key::ordered_key::<K>(),
        a.entries@.len() < NUM_ENTRIES,
        !a.retired(),
        !sorted::found(a@, key),
        0 <= low <= a.entries@.len(),
        forall|j: int| #[trigger]
            a.live(j) ==> (if key::key_lt(key, a.key_of(j)) {
                a.rank_at(j) > low
            } else {
                a.rank_at(j) <= low
            }),
        b.entries@ == a.entries@.push(Some((key, val))),
        b.order@ == a.order@.insert(sorted::place(a@, key), a.entries@.len() as int),
        rank_in(b.metadata, a.entries@.len() as int) == low + 1,
        forall|j: int|
            #![trigger rank_in(b.metadata, j)]
            0 <= j < NUM_ENTRIES && j != a.entries@.len() ==> rank_in(b.metadata, j) == (if a.live(
                j,
            ) && key::key_lt(key, a.key_of(j)) {
                a.rank_at(j) + 1
            } else {
                a.rank_at(j)
            }),
        !b.retired(),
    ensures
        b.wf(),
        b@ == sorted::inserted(a@, key, val),
{
    let o = a.order@;
    let n = b.order@;
    let f = a.entries@.len() as int;
    let p = sorted::place(a@, key);
    a.lemma_slots();
    sorted::lemma_inserted(a@, key, val);
    sorted::lemma_place(a@, key);
    assert forall|j: int| 0 <= j < o.len() implies {
        let x = #[trigger] o[j];
        &&& a.live(x)
        &&& b.live(x)
        &&& b.rank_at(x) == a.rank_at(x) + (if j < p { 0int } else { 1int })
        &&& j < p ==> b.rank_at(x) <= low
        &&& j >= p ==> b.rank_at(x) >= low + 2
    } by {
        let x = o[j];
        assert(a.live(x));
        assert(a@[j].0 == a.key_of(x));
        key::lemma_order::<K>();
        if j < p {
            assert(key::key_lt(a@[j].0, key));
        } else {
            assert(!key::key_lt(a@[j].0, key));
            if j == p {
                assert(!key::key_eq(a@[j].0, key));
            } else {
                assert(!key::key_lt(a@[p].0, key));
                assert(!key::key_eq(a@[p].0, key));
                assert(key::key_lt(a@[p].0, a@[j].0));
            }
            assert(key::key_lt(key, a@[j].0));
        }
    }
    assert(b.live(f));
    assert(n[p] == f);
    assert forall|i: int| 0 <= i < NUM_ENTRIES implies (#[trigger] b.rank_at(i) == UNINIT_RANK
        <==> i >= b.entries@.len()) by {
        assert(a.rank_at(i) == UNINIT_RANK <==> i >= f);
    }
    assert forall|i: int| #[trigger] b.live(i) implies b.rank_at(i) <= b.entries@.len()
        && b.entries@[i] is Some && n.contains(i) by {
        if i == f {
            assert(n[p] == i);
        } else {
            assert(a.rank_at(i) != UNINIT_RANK);
            lemma_rank_bound(a.metadata, i);
            if a.live(i) {
                assert(o.contains(i));
                let j = choose|j: int| 0 <= j < o.len() && o[j] == i;
                assert(n[if j < p { j } else { j + 1 }] == i);
            } else {
                assert(false);
            }
        }
    }
    assert forall|j: int| 0 <= j < n.len() implies b.live(#[trigger] n[j]) by {
        if j < p {
            assert(n[j] == o[j]);
        } else if j > p {
            assert(n[j] == o[j - 1]);
        }
    }
    assert forall|j: int, k: int|
        #![trigger n[j], n[k]]
        0 <= j < k < n.len() implies b.rank_at(n[j]) < b.rank_at(n[k]) by {
        let x = if j < p { j } else { j - 1 };
        let y = if k < p { k } else { k - 1 };
        if j != p && k != p {
            assert(n[j] == o[x] && n[k] == o[y]);
            assert(a.rank_at(o[x]) < a.rank_at(o[y]));
        } else if j == p {
            assert(n[k] == o[y]);
        } else {
            assert(n[j] == o[x]);
        }
    }
    assert(b@ =~= sorted::inserted(a@, key, val)) by {
        assert forall|j: int| 0 <= j < b@.len() implies #[trigger] b@[j] == sorted::inserted(
            a@,
            key,
            val,
        )[j] by {
            if j < p {
                assert(n[j] == o[j]);
                assert(a.live(o[j]));
            } else if j > p {
                assert(n[j] == o[j - 1]);
                assert(a.live(o[j - 1]));
            }
        }
    }
}

/// The leaves differ in the value of one entry at most.
spec fn changed_value<K, V>(a: Leaf<K, V>, b: Leaf<K, V>, slot: int) -> bool {
    &&& b.metadata == a.metadata
    &&& b.order == a.order
    &&& b.entries@.len() == a.entries@.len()
    &&& forall|i: int| 0 <= i < a.entries@.len() && i != slot ==> b.entries@[i] == a.entries@[i]
    &&& b.entries@[slot] is Some
    &&& (b.entries@[slot]->0).0 == a.key_of(slot)
}

/// Changing the value of one entry changes nothing else.
proof fn lemma_changed_value<K: Ord + Clone, V>(a: Leaf<K, V>, b: Leaf<K, V>, slot: int)
    requires
        a.wf(),
        key::ordered_key::<K>(),
        a.live(slot),
        changed_value(a, b, slot),
    ensures
        b.wf(),
        b@ == a@.update(a.at(slot), (a@[a.at(slot)].0, (b.entries@[slot]->0).1)),
        b.same_slots(a),
{
    a.lemma_slots();
    let p = a.at(slot);
    assert forall|i: int| #[trigger] b.live(i) implies a.live(i) by {}
    assert forall|i: int| 0 <= i < NUM_ENTRIES implies (#[trigger] b.rank_at(i) == UNINIT_RANK
        <==> i >= b.entries@.len()) by {
        assert(a.rank_at(i) == b.rank_at(i));
    }
    assert forall|j: int| 0 <= j < b.order@.len() implies b.live(#[trigger] b.order@[j]) by {
        assert(a.live(a.order@[j]));
    }
    assert(b@ =~= a@.update(p, (a@[p].0, (b.entries@[slot]->0).1))) by {
        assert forall|j: int| 0 <= j < b@.len() implies #[trigger] b@[j] == a@.update(
            p,
            (a@[p].0, (b.entries@[slot]->0).1),
        )[j] by {
            assert(a.live(a.order@[j]));
            assert(a.at(a.order@[j]) == j);
        }
    }
    assert forall|i: int, j: int|
        #![trigger b@[i], b@[j]]
        0 <= i < j < b@.len() implies key::key_lt(b@[i].0, b@[j].0) by {
        assert(key::key_lt(a@[i].0, a@[j].0));
    }
}

/// The number of live entries among the first `n` slots.
pub open spec fn live_count(metadata: u64, n: int) -> int
    decreases n,
{
    if n <= 0 {
        0
    } else {
        live_count(metadata, n - 1) + (if live_rank(rank_in(metadata, n - 1)) {
            1int
        } else {
            0int
        })
    }
}

spec fn live_slots(metadata: u64, n: int) -> Set<int> {
    Set::new(|i: int| 0 <= i < n && live_rank(rank_in(metadata, i)))
}

proof fn lemma_live_count(metadata: u64, n: int)
    requires
        0 <= n,
    ensures
        live_slots(metadata, n).finite(),
        live_slots(metadata, n).len() == live_count(metadata, n),
    decreases n,
{
    if n == 0 {
        assert(live_slots(metadata, n) =~= Set::empty());
    } else {
        lemma_live_count(metadata, n - 1);
        if live_rank(rank_in(metadata, n - 1)) {
            assert(live_slots(metadata, n) =~= live_slots(metadata, n - 1).insert(n - 1));
        } else {
            assert(live_slots(metadata, n) =~= live_slots(metadata, n - 1));
        }
    }
}

/// Marking a slot as removed takes its entry out.
proof fn lemma_removed_slot<K: Ord + Clone, V>(a: Leaf<K, V>, b: Leaf<K, V>, slot: int)
    requires
        a.wf(),
        key::ordered_key::<K>(),
        a.live(slot),
        b.entries == a.entries,
        b.order@ == a.order@.remove(a.at(slot)),
        rank_in(b.metadata, slot) == REMOVED_RANK,
        forall|j: int|
            0 <= j < NUM_ENTRIES && j != slot ==> #[trigger] rank_in(b.metadata, j) == a.rank_at(j),
        b.retired() ==> a@.len() == 1,
    ensures
        b.wf(),
        b@ == a@.remove(a.at(slot)),
        !b.live(slot),
        forall|i: int|
            #![trigger a.has(i)]
            #![trigger b.has(i)]
            i != slot ==> b.has(i) == a.has(i) && (a.has(i) ==> b.at(i) == (if a.at(i) < a.at(
                slot,
            ) {
                a.at(i)
            } else {
                a.at(i) - 1
            })),
{
    a.lemma_slots();
    let o = a.order@;
    let n = b.order@;
    let p = a.at(slot);
    assert forall|i: int| i != slot implies #[trigger] b.live(i) == a.live(i) by {
        if 0 <= i < a.entries@.len() {
            assert(b.rank_at(i) == a.rank_at(i));
        }
    }
    assert forall|i: int| 0 <= i < NUM_ENTRIES implies (#[trigger] b.rank_at(i) == UNINIT_RANK
        <==> i >= b.entries@.len()) by {
        assert(a.rank_at(i) == UNINIT_RANK <==> i >= a.entries@.len());
    }
    assert forall|i: int| #[trigger] b.live(i) implies b.rank_at(i) <= b.entries@.len()
        && b.entries@[i] is Some && n.contains(i) by {
        assert(a.live(i));
        let j = a.at(i);
        assert(o[j] == i);
        assert(n[if j < p { j } else { j - 1 }] == i);
    }
    assert forall|j: int| 0 <= j < n.len() implies b.live(#[trigger] n[j]) by {
        let x = if j < p { j } else { j + 1 };
        assert(n[j] == o[x]);
        assert(a.live(o[x]));
        assert(a.at(o[x]) == x) by {
            assert(a@[x] == a@[x]);
        }
    }
    assert forall|j: int, k: int|
        #![trigger n[j], n[k]]
        0 <= j < k < n.len() implies b.rank_at(n[j]) < b.rank_at(n[k]) by {
        let x = if j < p { j } else { j + 1 };
        let y = if k < p { k } else { k + 1 };
        assert(n[j] == o[x] && n[k] == o[y]);
        assert(a.rank_at(o[x]) < a.rank_at(o[y]));
        assert(b.live(n[j]) && b.live(n[k]));
    }
    assert(b@ =~= a@.remove(p)) by {
        assert forall|j: int| 0 <= j < b@.len() implies #[trigger] b@[j] == a@.remove(p)[j] by {
            let x = if j < p { j } else { j + 1 };
            assert(n[j] == o[x]);
            assert(a@[x] == a.entries@[o[x]]->0);
        }
    }
    sorted::lemma_removed(a@, p);
    b.lemma_slots();
    assert forall|i: int| i != slot && a.has(i) implies #[trigger] b.at(i) == (if a.at(i) < a.at(
        slot,
    ) {
        a.at(i)
    } else {
        a.at(i) - 1
    }) by {
        assert(a.live(i) && b.live(i));
        let j = a.at(i);
        let y = if j < p { j } else { j - 1 };
        assert(o[j] == i && o[p] == slot);
        assert(n[y] == i);
        assert(b.at(n[y]) == y) by {
            assert(b@[y] == b@[y]);
        }
    }
}

/// What a removed slot holds does not matter.
proof fn lemma_cleared_slot<K: Ord + Clone, V>(a: Leaf<K, V>, b: Leaf<K, V>, slot: int)
    requires
        a.wf(),
        key::ordered_key::<K>(),
        !a.live(slot),
        b.metadata == a.metadata,
        b.order == a.order,
        b.entries@.len() == a.entries@.len(),
        forall|i: int| 0 <= i < a.entries@.len() && i != slot ==> b.entries@[i] == a.entries@[i],
    ensures
        b.wf(),
        b@ == a@,
        b.same_slots(a),
{
    a.lemma_slots();
    assert forall|i: int| #[trigger] b.live(i) == a.live(i) by {
        assert(a.rank_at(i) == b.rank_at(i));
    }
    assert forall|i: int| 0 <= i < NUM_ENTRIES implies (#[trigger] b.rank_at(i) == UNINIT_RANK
        <==> i >= b.entries@.len()) by {
        assert(a.rank_at(i) == b.rank_at(i));
    }
    assert forall|j: int| 0 <= j < b.order@.len() implies b.live(#[trigger] b.order@[j]) by {
        assert(a.live(a.order@[j]));
    }
    assert(b@ =~= a@) by {
        assert forall|j: int| 0 <= j < b@.len() implies #[trigger] b@[j] == a@[j] by {
            assert(a.live(a.order@[j]));
        }
    }
}

/// The entry's key lies outside the range.
pub open spec fn outside<K: Ord + Clone, V>(range: KeyRange<K>) -> spec_fn((K, V)) -> bool {
    |e: (K, V)| !range.has_key(e.0)
}

/// The last live rank among the first `n` slots; 0 where there is none.
pub open spec fn last_rank(metadata: u64, n: int) -> int
    decreases n,
{
    if n <= 0 {
        0
    } else if live_rank(rank_in(metadata, n - 1)) {
        rank_in(metadata, n - 1)
    } else {
        last_rank(metadata, n - 1)
    }
}

/// The number of times that the rank rises from one live slot to the next, less the number of
/// times that it falls, over the first `n` slots.
pub open spec fn score(metadata: u64, n: int) -> int
    decreases n,
{
    if n <= 0 {
        0
    } else {
        let r = rank_in(metadata, n - 1);
        let prev = last_rank(metadata, n - 1);
        score(metadata, n - 1) + (if !live_rank(r) || prev == 0 {
            0int
        } else if prev < r {
            1int
        } else {
            -1int
        })
    }
}

/// The score brought into the middle of the leaf: at least one entry goes to the left, and at
/// least one slot stays free there.
pub open spec fn boundary_in(metadata: u64) -> int {
    let half = NUM_ENTRIES as int / 2;
    let b = NUM_ENTRIES + score(metadata, NUM_ENTRIES as int);
    (if b < half + 1 {
        half + 1
    } else if b > NUM_ENTRIES + half - 1 {
        NUM_ENTRIES + half - 1
    } else {
        b
    }) - half
}

proof fn lemma_score_same(a: u64, b: u64, n: int)
    requires
        same_ranks(a, b),
        n <= NUM_ENTRIES,
    ensures
        score(a, n) == score(b, n),
        last_rank(a, n) == last_rank(b, n),
    decreases n,
{
    if n > 0 {
        assert(rank_in(a, n - 1) == rank_in(b, n - 1));
        lemma_score_same(a, b, n - 1);
    }
}

proof fn lemma_count_same(a: u64, b: u64, n: int)
    requires
        same_ranks(a, b),
        n <= NUM_ENTRIES,
    ensures
        live_count(a, n) == live_count(b, n),
    decreases n,
{
    if n > 0 {
        assert(rank_in(a, n - 1) == rank_in(b, n - 1));
        lemma_count_same(a, b, n - 1);
    }
}

/// The words describe the same number of entries, to be cut at the same place.
pub open spec fn same_entries(a: u64, b: u64) -> bool {
    live_count(a, NUM_ENTRIES as int) == live_count(b, NUM_ENTRIES as int) && boundary_in(a)
        == boundary_in(b)
}

/// The flags of a leaf count neither for the number of its entries nor for where they are cut.
pub proof fn flags_do_not_count(metadata: u64)
    ensures
        same_entries(metadata | FROZEN, metadata),
        same_entries(metadata & !FROZEN, metadata),
        same_entries(metadata | RETIRED, metadata),
        same_entries(metadata | UNLINKED, metadata),
{
    let n = NUM_ENTRIES as int;
    assert forall|i: int| 0 <= i < n implies #[trigger] rank_in(metadata | FROZEN, i) == rank_in(
        metadata,
        i,
    ) by {
        dimension().lemma_flags(metadata, i);
    }
    assert forall|i: int| 0 <= i < n implies #[trigger] rank_in(metadata & !FROZEN, i) == rank_in(
        metadata,
        i,
    ) by {
        dimension().lemma_flags(metadata, i);
    }
    assert forall|i: int| 0 <= i < n implies #[trigger] rank_in(metadata | RETIRED, i) == rank_in(
        metadata,
        i,
    ) by {
        dimension().lemma_flags(metadata, i);
    }
    assert forall|i: int| 0 <= i < n implies #[trigger] rank_in(metadata | UNLINKED, i) == rank_in(
        metadata,
        i,
    ) by {
        dimension().lemma_flags(metadata, i);
    }
    lemma_count_same(metadata | FROZEN, metadata, n);
    lemma_score_same(metadata | FROZEN, metadata, n);
    lemma_count_same(metadata & !FROZEN, metadata, n);
    lemma_score_same(metadata & !FROZEN, metadata, n);
    lemma_count_same(metadata | RETIRED, metadata, n);
    lemma_score_same(metadata | RETIRED, metadata, n);
    lemma_count_same(metadata | UNLINKED, metadata, n);
    lemma_score_same(metadata | UNLINKED, metadata, n);
}

impl<K, V> Leaf<K, V> {
    spec fn rank_at(self, i: int) -> int {
        rank_in(self.metadata, i)
    }

    spec fn live(self, i: int) -> bool {
        0 <= i < self.entries@.len() && live_rank(self.rank_at(i))
    }

    spec fn key_of(self, i: int) -> K {
        (self.entries@[i]->0).0
    }

    /// The number of slots that were ever written.
    pub closed spec fn used(self) -> nat {
        self.entries@.len()
    }

    /// No entry will ever be added.
    pub closed spec fn retired(self) -> bool {
        Dimension::retired(self.metadata)
    }

    /// No entry can be added or removed for the time being.
    pub closed spec fn frozen(self) -> bool {
        Dimension::frozen(self.metadata)
    }

    /// A key that is not in the leaf can be added to it.
    pub open spec fn has_room(self) -> bool {
        self.used() < NUM_ENTRIES && !self.retired()
    }

    /// The slot holds an entry.
    pub closed spec fn has(self, slot: int) -> bool {
        self.live(slot)
    }

    /// The position of the slot's entry in key order.
    pub closed spec fn at(self, slot: int) -> int {
        self.order@.index_of(slot)
    }

    /// The slots and their ranks agree with `order`.
    spec fn shape(self) -> bool {
        &&& self.entries@.len() <= NUM_ENTRIES
        &&& forall|i: int|
            0 <= i < NUM_ENTRIES ==> (#[trigger] self.rank_at(i) == UNINIT_RANK <==> i
                >= self.entries@.len())
        &&& forall|i: int| #[trigger]
            self.live(i) ==> self.rank_at(i) <= self.entries@.len() && self.entries@[i] is Some
                && self.order@.contains(i)
        &&& forall|j: int| 0 <= j < self.order@.len() ==> self.live(#[trigger] self.order@[j])
        &&& forall|j: int, k: int|
            #![trigger self.order@[j], self.order@[k]]
            0 <= j < k < self.order@.len() ==> self.rank_at(self.order@[j]) < self.rank_at(
                self.order@[k],
            )
    }
}

impl<K, V> View for Leaf<K, V> {
    type V = Seq<(K, V)>;

    /// The live entries, in key order.
    closed spec fn view(&self) -> Seq<(K, V)> {
        Seq::new(self.order@.len(), |j: int| self.entries@[self.order@[j]]->0)
    }
}

impl<K: Ord + Clone, V> Leaf<K, V> {
    /// Ranks agree with the order of the keys, and a retired leaf is empty.
    pub closed spec fn wf(self) -> bool {
        &&& self.shape()
        &&& sorted::sorted(self@)
        &&& self.retired() ==> self@.len() == 0
    }

    /// Each live slot has a position, and ranks compare as positions and as keys do.
    proof fn lemma_slots(self)
        requires
            self.wf(),
            key::ordered_key::<K>(),
        ensures
            self@.len() == self.order@.len(),
            self@.len() <= self.used(),
            forall|j: int|
                0 <= j < self@.len() ==> {
                    &&& #[trigger] self@[j] == self.entries@[self.order@[j]]->0
                    &&& self@[j].0 == self.key_of(self.order@[j])
                    &&& self.at(self.order@[j]) == j
                },
            forall|i: int| #[trigger]
                self.live(i) ==> 0 <= self.at(i) < self@.len() && self.order@[self.at(i)] == i
                    && self@[self.at(i)] == self.entries@[i]->0,
            forall|i: int, k: int|
                #![trigger self.rank_at(i), self.rank_at(k)]
                self.live(i) && self.live(k) ==> {
                    &&& self.rank_at(i) < self.rank_at(k) <==> key::key_lt(
                        self.key_of(i),
                        self.key_of(k),
                    )
                    &&& self.rank_at(i) < self.rank_at(k) <==> self.at(i) < self.at(k)
                    &&& self.rank_at(i) == self.rank_at(k) <==> i == k
                },
    {
        key::lemma_order::<K>();
        let o = self.order@;
        assert forall|j: int| 0 <= j < o.len() implies self.at(#[trigger] o[j]) == j by {
            assert(self.live(o[j]));
            let x = self.at(o[j]);
            assert(o.contains(o[j]));
            if x < j {
                assert(self.rank_at(o[x]) < self.rank_at(o[j]));
            } else if j < x {
                assert(self.rank_at(o[j]) < self.rank_at(o[x]));
            }
        }
        assert forall|j: int| 0 <= j < self@.len() implies {
            &&& #[trigger] self@[j] == self.entries@[self.order@[j]]->0
            &&& self@[j].0 == self.key_of(self.order@[j])
            &&& self.at(self.order@[j]) == j
        } by {
            assert(self.at(o[j]) == j);
        }
        assert forall|i: int| #[trigger] self.live(i) implies 0 <= self.at(i) < self@.len()
            && self.order@[self.at(i)] == i && self@[self.at(i)] == self.entries@[i]->0 by {
            assert(o.contains(i));
        }
        assert forall|i: int, k: int|
            #![trigger self.rank_at(i), self.rank_at(k)]
            self.live(i) && self.live(k) implies {
            &&& self.rank_at(i) < self.rank_at(k) <==> key::key_lt(self.key_of(i), self.key_of(k))
            &&& self.rank_at(i) < self.rank_at(k) <==> self.at(i) < self.at(k)
            &&& self.rank_at(i) == self.rank_at(k) <==> i == k
        } by {
            let a = self.at(i);
            let b = self.at(k);
            assert(o[a] == i && o[b] == k);
            if a < b {
                assert(key::key_lt(self@[a].0, self@[b].0));
            } else if b < a {
                assert(key::key_lt(self@[b].0, self@[a].0));
            } else {
                assert(key::key_eq(self.key_of(i), self.key_of(k)));
            }
        }
        assert(self@.len() <= self.used()) by {
            assert(o.no_duplicates()) by {
                assert forall|i: int, j: int| 0 <= i < o.len() && 0 <= j < o.len() && i != j implies o[i]
                    != o[j] by {
                    if i < j {
                        assert(self.rank_at(o[i]) < self.rank_at(o[j]));
                    } else {
                        assert(self.rank_at(o[j]) < self.rank_at(o[i]));
                    }
                }
            }
            let n = self.entries@.len();
            let r = vstd::set_lib::set_int_range(0, n as int);
            vstd::set_lib::lemma_int_range(0, n as int);
            o.unique_seq_to_set();
            assert(o.to_set().subset_of(r)) by {
                assert forall|i: int| o.to_set().contains(i) implies r.contains(i) by {
                    let j = choose|j: int| 0 <= j < o.len() && o[j] == i;
                    assert(self.live(o[j]));
                }
            }
            vstd::set_lib::lemma_len_subset(o.to_set(), r);
        }
    }

    /// What holds of every leaf.
    pub proof fn lemma_wf(self)
        requires
            self.wf(),
            key::ordered_key::<K>(),
        ensures
            sorted::sorted(self@),
            self@.len() <= self.used() <= NUM_ENTRIES,
            self.retired() ==> self@.len() == 0,
            forall|slot: int| #[trigger] self.has(slot) ==> 0 <= self.at(slot) < self@.len(),
    {
        self.lemma_slots();
        assert forall|slot: int| #[trigger] self.has(slot) implies 0 <= self.at(slot)
            < self@.len() by {
            assert(self.live(slot));
        }
    }

    /// Creates a new [`Leaf`].
    pub fn new() -> (leaf: Leaf<K, V>)
        ensures
            leaf.wf(),
            leaf@ == Seq::<(K, V)>::empty(),
            leaf.used() == 0,
            !leaf.retired(),
            !leaf.frozen(),
    {
        let leaf: Leaf<K, V> = Leaf {
            metadata: 0,
            entries: Vec::new(),
            order: Ghost(Seq::empty()),
        };
        proof {
            assert(0u64 & RETIRED == 0 && 0u64 & FROZEN == 0) by (bit_vector);
            assert forall|i: int| 0 <= i < NUM_ENTRIES implies #[trigger] leaf.rank_at(i)
                == UNINIT_RANK by {
                let s: u64 = dimension().shift(i) as u64;
                assert((0u64 >> s) & (((1u64 << 4u64) - 1) as u64) == 0) by (bit_vector);
            }
        }
        leaf
    }

    /// Searches for a slot in which the key is stored.
    fn search_slot(&self, key: &K) -> (r: Option<usize>)
        requires
            self.wf(),
            key::ordered_key::<K>(),
        ensures
            match r {
                Some(i) => self.live(i as int) && key::key_eq(self.key_of(i as int), *key)
                    && sorted::found(self@, *key) && self.at(i as int) == sorted::place(self@, *key),
                None => !sorted::found(self@, *key),
            },
    {
        proof {
            self.lemma_slots();
            key::lemma_order::<K>();
        }
        let mut min_max_rank: usize = REMOVED_RANK;
        let mut max_min_rank: usize = 0;
        let mut i: usize = 0;
        while i < self.entries.len()
            invariant
                self.wf(),
                key::ordered_key::<K>(),
                i <= self.entries@.len() <= NUM_ENTRIES,
                max_min_rank < min_max_rank <= REMOVED_RANK,
                forall|j: int|
                    #![trigger self.rank_at(j)]
                    self.live(j) && self.rank_at(j) <= max_min_rank ==> key::key_lt(
                        self.key_of(j),
                        *key,
                    ),
                forall|j: int|
                    #![trigger self.rank_at(j)]
                    self.live(j) && self.rank_at(j) >= min_max_rank ==> key::key_lt(
                        *key,
                        self.key_of(j),
                    ),
                forall|j: int|
                    #![trigger self.rank_at(j)]
                    self.live(j) && j < i ==> self.rank_at(j) <= max_min_rank || self.rank_at(j)
                        >= min_max_rank,
            decreases self.entries@.len() - i,
        {
            let r: usize = rank(self.metadata, i);
            proof {
                self.lemma_slots();
                key::lemma_order::<K>();
            }
            if r < min_max_rank && r > max_min_rank {
                assert(self.live(i as int));
                let o = match &self.entries[i] {
                    Some((k, _)) => compare(k, key),
                    None => KeyOrder::Less,
                };
                match o {
                    KeyOrder::Less => {
                        max_min_rank = r;
                    },
                    KeyOrder::Greater => {
                        min_max_rank = r;
                    },
                    KeyOrder::Equal => {
                        proof {
                            sorted::lemma_found_at(self@, *key, self.at(i as int));
                        }
                        return Some(i);
                    },
                }
            }
            i += 1;
        }
        proof {
            key::lemma_order::<K>();
            self.lemma_slots();
            assert forall|j: int| 0 <= j < self@.len() implies !key::key_eq(
                #[trigger] self@[j].0,
                *key,
            ) by {
                let s = self.order@[j];
                assert(self.live(s));
                assert(self.rank_at(s) <= max_min_rank || self.rank_at(s) >= min_max_rank);
            }
            sorted::lemma_not_found(self@, *key);
        }
        None
    }

    /// Checks if the leaf is full or retired.
    pub fn is_full(&self) -> (r: bool)
        requires
            self.wf(),
        ensures
            r == !self.has_room(),
    {
        let r: usize = rank(self.metadata, NUM_ENTRIES - 1);
        assert(self.rank_at(NUM_ENTRIES - 1) == r);
        r != Dimension::uninit_rank() || Dimension::retired(self.metadata)
    }

    /// Returns `true` if the [`Leaf`] has retired.
    pub fn is_retired(&self) -> (r: bool)
        ensures
            r == self.retired(),
    {
        Dimension::retired(self.metadata)
    }

    /// Freezes the [`Leaf`] temporarily.
    ///
    /// A frozen [`Leaf`] cannot store more entries.
    pub fn freeze(&mut self) -> (r: bool)
        requires
            old(self).wf(),
        ensures
            final(self).wf(),
            r == !old(self).frozen(),
            final(self).frozen(),
            final(self).same_but_freezing(*old(self)),
    {
        if Dimension::frozen(self.metadata) {
            false
        } else {
            let m: u64 = Dimension::freeze(self.metadata);
            proof {
                lemma_same_fields(self.metadata, m);
            }
            self.metadata = m;
            proof {
                lemma_same_ranks(*old(self), *self);
            }
            true
        }
    }

    /// Unfreezes the [`Leaf`].
    pub fn unfreeze(&mut self) -> (r: bool)
        requires
            old(self).wf(),
        ensures
            final(self).wf(),
            r == old(self).frozen(),
            !final(self).frozen(),
            final(self).same_but_freezing(*old(self)),
    {
        if Dimension::frozen(self.metadata) {
            let m: u64 = Dimension::unfreeze(self.metadata);
            proof {
                lemma_same_fields(self.metadata, m);
            }
            self.metadata = m;
            proof {
                lemma_same_ranks(*old(self), *self);
            }
            true
        } else {
            false
        }
    }

    /// Nothing but the frozen flag differs.
    pub open spec fn same_but_freezing(self, other: Self) -> bool {
        &&& self@ == other@
        &&& self.used() == other.used()
        &&& self.retired() == other.retired()
        &&& self.boundary() == other.boundary()
    }

    /// Nothing that can be observed differs.
    pub open spec fn same(self, other: Self) -> bool {
        &&& self.same_but_freezing(other)
        &&& self.frozen() == other.frozen()
    }

    /// Inserts a key value pair.
    pub fn insert(&mut self, key: K, val: V) -> (r: InsertResult<K, V>)
        requires
            old(self).wf(),
            key::ordered_key::<K>(),
        ensures
            final(self).wf(),
            final(self).frozen() == old(self).frozen(),
            final(self).retired() == old(self).retired(),
            if old(self).retired() {
                r == InsertResult::Full(key, val) && final(self).same(*old(self))
            } else if old(self).frozen() {
                r == InsertResult::Frozen(key, val) && final(self).same(*old(self))
            } else if sorted::found(old(self)@, key) {
                r == InsertResult::Duplicate(key, val) && final(self).same(*old(self))
            } else if old(self).used() == NUM_ENTRIES {
                r == InsertResult::Full(key, val) && final(self).same(*old(self))
            } else {
                &&& r == InsertResult::<K, V>::Success
                &&& final(self)@ == sorted::inserted(old(self)@, key, val)
                &&& final(self).used() == old(self).used() + 1
            },
    {
        if Dimension::retired(self.metadata) {
            return InsertResult::Full(key, val);
        }
        if Dimension::frozen(self.metadata) {
            return InsertResult::Frozen(key, val);
        }
        if self.entries.len() < NUM_ENTRIES {
            return self.post_insert(key, val);
        }
        if self.search_slot(&key).is_some() {
            return InsertResult::Duplicate(key, val);
        }
        InsertResult::Full(key, val)
    }

    /// Ranks the entry that is to be stored in the first free slot.
    fn post_insert(&mut self, key: K, val: V) -> (r: InsertResult<K, V>)
        requires
            old(self).wf(),
            key::ordered_key::<K>(),
            old(self).has_room(),
        ensures
            final(self).wf(),
            final(self).frozen() == old(self).frozen(),
            final(self).retired() == old(self).retired(),
            if sorted::found(old(self)@, key) {
                r == InsertResult::Duplicate(key, val) && *final(self) == *old(self)
            } else {
                &&& r == InsertResult::<K, V>::Success
                &&& final(self)@ == sorted::inserted(old(self)@, key, val)
                &&& final(self).used() == old(self).used() + 1
            },
    {
        let free_slot_index: usize = self.entries.len();
        let mut min_max_rank: usize = REMOVED_RANK;
        let mut max_min_rank: usize = 0;
        let mut new_metadata: u64 = self.metadata;
        let mut i: usize = 0;
        while i < free_slot_index
            invariant
                *self == *old(self),
                self.wf(),
                key::ordered_key::<K>(),
                free_slot_index == self.entries@.len() < NUM_ENTRIES,
                i <= free_slot_index,
                max_min_rank < min_max_rank <= REMOVED_RANK,
                max_min_rank <= free_slot_index,
                forall|j: int|
                    #![trigger self.rank_at(j)]
                    self.live(j) && self.rank_at(j) <= max_min_rank ==> key::key_lt(
                        self.key_of(j),
                        key,
                    ),
                forall|j: int|
                    #![trigger self.rank_at(j)]
                    self.live(j) && self.rank_at(j) >= min_max_rank ==> key::key_lt(
                        key,
                        self.key_of(j),
                    ),
                forall|j: int|
                    #![trigger self.rank_at(j)]
                    self.live(j) && j < i ==> self.rank_at(j) <= max_min_rank || self.rank_at(j)
                        >= min_max_rank,
                min_max_rank == REMOVED_RANK || exists|j: int|
                    j < i && #[trigger] self.live(j) && self.rank_at(j) == min_max_rank,
                Dimension::retired(new_metadata) == Dimension::retired(self.metadata),
                Dimension::frozen(new_metadata) == Dimension::frozen(self.metadata),
                forall|j: int|
                    #![trigger rank_in(new_metadata, j)]
                    0 <= j < NUM_ENTRIES ==> rank_in(new_metadata, j) == (if j < i && self.live(j)
                        && key::key_lt(key, self.key_of(j)) {
                        self.rank_at(j) + 1
                    } else {
                        self.rank_at(j)
                    }),
            decreases free_slot_index - i,
        {
            let r: usize = rank(self.metadata, i);
            proof {
                self.lemma_slots();
                key::lemma_order::<K>();
                assert(self.rank_at(i as int) == r);
                assert(r != UNINIT_RANK);
            }
            if r < min_max_rank && r > max_min_rank {
                assert(self.live(i as int));
                let o = match &self.entries[i] {
                    Some((k, _)) => compare(k, &key),
                    None => KeyOrder::Less,
                };
                match o {
                    KeyOrder::Less => {
                        max_min_rank = r;
                    },
                    KeyOrder::Greater => {
                        min_max_rank = r;
                        new_metadata = with_rank(new_metadata, i, r + 1);
                    },
                    KeyOrder::Equal => {
                        // Duplicate key.
                        proof {
                            sorted::lemma_found_at(self@, key, self.at(i as int));
                        }
                        return InsertResult::Duplicate(key, val);
                    },
                }
            } else if r != REMOVED_RANK && r > min_max_rank {
                assert(self.live(i as int));
                new_metadata = with_rank(new_metadata, i, r + 1);
            }
            i += 1;
        }

        // Make the newly inserted value reachable.
        let final_metadata: u64 = with_rank(new_metadata, free_slot_index, max_min_rank + 1);
        let ghost p = sorted::place(self@, key);
        proof {
            self.lemma_slots();
            key::lemma_order::<K>();
            assert forall|j: int| 0 <= j < self@.len() implies !key::key_eq(
                #[trigger] self@[j].0,
                key,
            ) by {
                let s = self.order@[j];
                assert(self.live(s));
                assert(self.rank_at(s) <= max_min_rank || self.rank_at(s) >= min_max_rank);
            }
            sorted::lemma_not_found(self@, key);
            sorted::lemma_inserted(self@, key, val);
            sorted::lemma_place(self@, key);
        }
        self.metadata = final_metadata;
        self.entries.push(Some((key, val)));
        self.order = Ghost(self.order@.insert(p, free_slot_index as int));
        proof {
            assert forall|j: int| #[trigger] old(self).live(j) implies (if key::key_lt(
                key,
                old(self).key_of(j),
            ) {
                old(self).rank_at(j) > max_min_rank
            } else {
                old(self).rank_at(j) <= max_min_rank
            }) by {
                assert(old(self).rank_at(j) <= max_min_rank || old(self).rank_at(j)
                    >= min_max_rank);
            }
            lemma_inserted_slot(*old(self), *self, key, val, max_min_rank as int);
        }
        InsertResult::Success
    }

    /// Returns the recommended number of entries that the left-side node should store when a
    /// [`Leaf`] is split.
    pub closed spec fn boundary(self) -> int {
        boundary_in(self.metadata)
    }

    /// The same slots hold entries, in the same positions.
    pub open spec fn same_slots(self, other: Self) -> bool {
        forall|i: int|
            #![trigger self.has(i)]
            #![trigger other.has(i)]
            #![trigger self.at(i)]
            #![trigger other.at(i)]
            self.has(i) == other.has(i) && self.at(i) == other.at(i)
    }

    /// Returns the value in the slot, to be changed.
    pub fn value_mut(&mut self, slot: usize) -> (v: &mut V)
        requires
            old(self).wf(),
            key::ordered_key::<K>(),
            old(self).has(slot as int),
        ensures
            *v == old(self)@[old(self).at(slot as int)].1,
            final(self).wf(),
            final(self)@ == old(self)@.update(
                old(self).at(slot as int),
                (old(self)@[old(self).at(slot as int)].0, *final(v)),
            ),
            final(self).used() == old(self).used(),
            final(self).retired() == old(self).retired(),
            final(self).frozen() == old(self).frozen(),
            final(self).boundary() == old(self).boundary(),
            final(self).same_slots(*old(self)),
    {
        proof {
            self.lemma_slots();
            assert(self.live(slot as int));
        }
        let ghost before = *self;
        proof {
            assert forall|b: Leaf<K, V>|
                #![trigger b.wf()]
                #![trigger b@]
                #![trigger b.same_slots(before)]
                changed_value(before, b, slot as int) implies b.wf() && b.same_slots(before)
                && b@ == before@.update(
                before.at(slot as int),
                (before@[before.at(slot as int)].0, (b.entries@[slot as int]->0).1),
            ) by {
                lemma_changed_value(before, b, slot as int);
            }
        }
        match &mut self.entries[slot] {
            Some(pair) => &mut pair.1,
            None => vstd::pervasive::unreached(),
        }
    }

    /// Returns a reference to the key in the slot.
    fn key_at(&self, slot: usize) -> (k: &K)
        requires
            self.wf(),
            self.live(slot as int),
        ensures
            *k == self.key_of(slot as int),
    {
        match &self.entries[slot] {
            Some((k, _)) => k,
            None => vstd::pervasive::unreached(),
        }
    }

    /// Returns a reference to the value in the slot.
    fn value_at(&self, slot: usize) -> (v: &V)
        requires
            self.wf(),
            self.live(slot as int),
        ensures
            *v == (self.entries@[slot as int]->0).1,
    {
        match &self.entries[slot] {
            Some((_, v)) => v,
            None => vstd::pervasive::unreached(),
        }
    }

    /// Returns references to the key and value in the slot.
    pub fn entry_at(&self, slot: usize) -> (e: (&K, &V))
        requires
            self.wf(),
            key::ordered_key::<K>(),
            self.has(slot as int),
        ensures
            (*e.0, *e.1) == self@[self.at(slot as int)],
    {
        proof {
            self.lemma_slots();
            assert(self.live(slot as int));
        }
        (self.key_at(slot), self.value_at(slot))
    }

    /// Returns an entry containing the specified key.
    pub fn search_entry(&self, key: &K) -> (r: Option<(&K, &V)>)
        requires
            self.wf(),
            key::ordered_key::<K>(),
        ensures
            match r {
                Some((k, v)) => sorted::lookup(self@, *key) == Some((*k, *v)),
                None => sorted::lookup(self@, *key) is None,
            },
    {
        proof {
            self.lemma_slots();
        }
        match self.search_slot(key) {
            Some(i) => Some((self.key_at(i), self.value_at(i))),
            None => None,
        }
    }

    /// Returns the value associated with the specified key.
    pub fn search_value(&self, key: &K) -> (r: Option<&V>)
        requires
            self.wf(),
            key::ordered_key::<K>(),
        ensures
            match r {
                Some(v) => sorted::lookup(self@, *key) is Some && *v == (sorted::lookup(
                    self@,
                    *key,
                )->0).1,
                None => sorted::lookup(self@, *key) is None,
            },
    {
        proof {
            self.lemma_slots();
        }
        match self.search_slot(key) {
            Some(i) => Some(self.value_at(i)),
            None => None,
        }
    }

    /// Returns the slot of the minimum entry among those that do not come before the given key.
    pub fn slot_greater_equal(&self, key: &K) -> (r: Option<usize>)
        requires
            self.wf(),
            key::ordered_key::<K>(),
        ensures
            match r {
                Some(i) => self.has(i as int) && i < self.used() && self.at(i as int)
                    == sorted::place(self@, *key) < self@.len(),
                None => sorted::place(self@, *key) == self@.len(),
            },
    {
        let mut min_max_rank: usize = REMOVED_RANK;
        let mut max_min_rank: usize = 0;
        let mut min_max_index: usize = NUM_ENTRIES;
        let mut i: usize = 0;
        while i < self.entries.len()
            invariant
                self.wf(),
                key::ordered_key::<K>(),
                i <= self.entries@.len() <= NUM_ENTRIES,
                max_min_rank < min_max_rank <= REMOVED_RANK,
                forall|j: int|
                    #![trigger self.rank_at(j)]
                    self.live(j) && self.rank_at(j) <= max_min_rank ==> key::key_lt(
                        self.key_of(j),
                        *key,
                    ),
                forall|j: int|
                    #![trigger self.rank_at(j)]
                    self.live(j) && self.rank_at(j) >= min_max_rank ==> key::key_lt(
                        *key,
                        self.key_of(j),
                    ),
                forall|j: int|
                    #![trigger self.rank_at(j)]
                    self.live(j) && j < i ==> self.rank_at(j) <= max_min_rank || self.rank_at(j)
                        >= min_max_rank,
                if min_max_index == NUM_ENTRIES {
                    min_max_rank == REMOVED_RANK
                } else {
                    self.live(min_max_index as int) && self.rank_at(min_max_index as int)
                        == min_max_rank
                },
            decreases self.entries@.len() - i,
        {
            let r: usize = rank(self.metadata, i);
            proof {
                self.lemma_slots();
                key::lemma_order::<K>();
            }
            if r < min_max_rank && r > max_min_rank {
                assert(self.live(i as int));
                match compare(key, self.key_at(i)) {
                    KeyOrder::Greater => {
                        max_min_rank = r;
                    },
                    KeyOrder::Less => {
                        min_max_rank = r;
                        min_max_index = i;
                    },
                    KeyOrder::Equal => {
                        proof {
                            sorted::lemma_found_at(self@, *key, self.at(i as int));
                        }
                        return Some(i);
                    },
                }
            }
            i += 1;
        }
        proof {
            key::lemma_order::<K>();
            self.lemma_slots();
            let q = if min_max_index == NUM_ENTRIES {
                self@.len() as int
            } else {
                self.at(min_max_index as int)
            };
            assert forall|j: int| 0 <= j < self@.len() implies (if j < q {
                key::key_lt(#[trigger] self@[j].0, *key)
            } else {
                !key::key_lt(self@[j].0, *key)
            }) by {
                let s = self.order@[j];
                assert(self.live(s) && self.at(s) == j);
                assert(self.rank_at(s) <= max_min_rank || self.rank_at(s) >= min_max_rank);
                if min_max_index != NUM_ENTRIES {
                    assert(self.rank_at(s) < self.rank_at(min_max_index as int) <==> j < q);
                }
            }
            assert(sorted::parts_at(self@, *key, q));
            sorted::lemma_place_unique(self@, *key, q);
        }
        if min_max_index != NUM_ENTRIES {
            Some(min_max_index)
        } else {
            None
        }
    }

    /// Returns the minimum entry among those that do not come before the given key.
    ///
    /// It additionally returns the current version of its metadata so the caller can validate the
    /// correctness of the result.
    pub fn min_greater_equal(&self, key: &K) -> (r: (Option<(&K, &V)>, u64))
        requires
            self.wf(),
            key::ordered_key::<K>(),
        ensures
            match r.0 {
                Some((k, v)) => sorted::place(self@, *key) < self@.len() && self@[sorted::place(
                    self@,
                    *key,
                )] == (*k, *v),
                None => sorted::place(self@, *key) == self@.len(),
            },
            self.valid(r.1),
    {
        match self.slot_greater_equal(key) {
            Some(i) => (Some(self.entry_at(i)), self.metadata),
            None => (None, self.metadata),
        }
    }

    /// The word is the metadata of the leaf.
    pub closed spec fn valid(self, metadata: u64) -> bool {
        self.metadata == metadata
    }

    /// Compares the given metadata value with the current one.
    pub fn validate(&self, metadata: u64) -> (r: bool)
        ensures
            r == self.valid(metadata),
    {
        self.metadata == metadata
    }

    /// Returns the current metadata.
    pub fn metadata(&self) -> (r: u64)
        ensures
            self.valid(r),
    {
        self.metadata
    }

    /// Marks the entry in the slot as removed.
    fn mark_removed(&mut self, index: usize) -> (r: RemoveResult)
        requires
            old(self).wf(),
            key::ordered_key::<K>(),
            old(self).live(index as int),
        ensures
            final(self).wf(),
            final(self).entries == old(self).entries,
            final(self).without(*old(self), index as int, r),
            !final(self).live(index as int),
    {
        let mut empty: bool = true;
        let mut j: usize = 0;
        while j < self.entries.len()
            invariant
                *self == *old(self),
                self.wf(),
                j <= self.entries@.len() <= NUM_ENTRIES,
                empty <==> forall|i: int| #[trigger] self.live(i) && i < j ==> i == index,
            decreases self.entries@.len() - j,
        {
            if index != j {
                let r: usize = rank(self.metadata, j);
                if r != Dimension::uninit_rank() && r != REMOVED_RANK {
                    assert(self.live(j as int));
                    empty = false;
                }
            }
            j += 1;
        }
        let removed: u64 = with_rank(self.metadata, index, REMOVED_RANK);
        let new_metadata: u64 = if empty {
            Dimension::retire(removed)
        } else {
            removed
        };
        proof {
            if empty {
                lemma_same_fields(removed, new_metadata);
            }
            assert forall|i: int| 0 <= i < NUM_ENTRIES implies #[trigger] rank_in(new_metadata, i)
                == rank_in(removed, i) by {
            }
            self.lemma_slots();
            assert(empty <==> self@.len() == 1) by {
                let p = self.at(index as int);
                if self@.len() != 1 {
                    let q = if p == 0 { 1int } else { 0int };
                    assert(self.live(self.order@[q]));
                    assert(self.at(self.order@[q]) == q);
                    assert(!empty);
                } else {
                    assert forall|i: int| #[trigger] self.live(i) implies i == index by {
                        assert(self.at(i) == 0 && self.at(index as int) == 0);
                    }
                }
            }
        }
        self.metadata = new_metadata;
        self.order = Ghost(self.order@.remove(old(self).at(index as int)));
        proof {
            lemma_removed_slot(*old(self), *self, index as int);
        }
        if empty {
            RemoveResult::Retired
        } else {
            RemoveResult::Success
        }
    }

    /// `self` is `before` without the entry of a slot, and retired where that was the last one.
    pub open spec fn without(self, before: Self, slot: int, r: RemoveResult) -> bool {
        &&& self@ == before@.remove(before.at(slot))
        &&& self.used() == before.used()
        &&& self.frozen() == before.frozen()
        &&& self.retired() == (before@.len() == 1)
        &&& r == (if before@.len() == 1 {
            RemoveResult::Retired
        } else {
            RemoveResult::Success
        })
        &&& !self.has(slot)
        &&& forall|i: int|
            #![trigger before.has(i)]
            #![trigger self.has(i)]
            i != slot ==> self.has(i) == before.has(i) && (before.has(i) ==> self.at(i) == (if before.at(
                i,
            ) < before.at(slot) {
                before.at(i)
            } else {
                before.at(i) - 1
            }))
    }

    /// Removes the entry at the specified position without checking the metadata.
    pub fn remove_unchecked(&mut self, index: usize) -> (r: RemoveResult)
        requires
            old(self).wf(),
            key::ordered_key::<K>(),
            old(self).has(index as int),
        ensures
            final(self).wf(),
            final(self).without(*old(self), index as int, r),
    {
        self.mark_removed(index)
    }

    /// Removes the entry at the specified position without checking the metadata, and hands it
    /// over.
    pub fn take_unchecked(&mut self, index: usize) -> (r: (RemoveResult, (K, V)))
        requires
            old(self).wf(),
            key::ordered_key::<K>(),
            old(self).has(index as int),
        ensures
            final(self).wf(),
            final(self).without(*old(self), index as int, r.0),
            r.1 == old(self)@[old(self).at(index as int)],
    {
        proof {
            self.lemma_slots();
            assert(self.live(index as int));
        }
        let r: RemoveResult = self.mark_removed(index);
        let ghost marked = *self;
        let e: Option<(K, V)> = self.entries[index].take();
        proof {
            lemma_cleared_slot(marked, *self, index as int);
        }
        match e {
            Some(pair) => (r, pair),
            None => vstd::pervasive::unreached(),
        }
    }

    /// Removes the key if the condition is met. Only the value of the key is shown to the
    /// condition.
    pub fn remove_if<F: Fn(&V) -> bool>(&mut self, key: &K, condition: &F) -> (r: RemoveResult)
        requires
            old(self).wf(),
            key::ordered_key::<K>(),
            !old(self).frozen() && sorted::found(old(self)@, *key) ==> call_requires(
                *condition,
                (&old(self)@[sorted::place(old(self)@, *key)].1,),
            ),
        ensures
            final(self).wf(),
            final(self).frozen() == old(self).frozen(),
            final(self).used() == old(self).used(),
            if old(self).frozen() {
                r == RemoveResult::Frozen && *final(self) == *old(self)
            } else if !sorted::found(old(self)@, *key) {
                r == RemoveResult::Fail && *final(self) == *old(self)
            } else {
                let v = old(self)@[sorted::place(old(self)@, *key)].1;
                ||| r == RemoveResult::Fail && *final(self) == *old(self) && call_ensures(
                    *condition,
                    (&v,),
                    false,
                )
                ||| {
                    &&& call_ensures(*condition, (&v,), true)
                    &&& final(self)@ == sorted::removed(old(self)@, *key)
                    &&& final(self).retired() == (old(self)@.len() == 1)
                    &&& r == (if old(self)@.len() == 1 {
                        RemoveResult::Retired
                    } else {
                        RemoveResult::Success
                    })
                }
            },
    {
        if Dimension::frozen(self.metadata) {
            return RemoveResult::Frozen;
        }
        proof {
            self.lemma_slots();
        }
        match self.search_slot(key) {
            Some(i) => {
                // Found the key.
                if !condition(self.value_at(i)) {
                    // The given condition is not met.
                    return RemoveResult::Fail;
                }
                self.mark_removed(i)
            },
            None => RemoveResult::Fail,
        }
    }

    /// Returns the number of reachable entries that the metadata describes.
    pub fn len(metadata: u64) -> (r: usize)
        ensures
            r == live_count(metadata, NUM_ENTRIES as int),
    {
        let mut count: usize = 0;
        let mut i: usize = 0;
        while i != NUM_ENTRIES
            invariant
                i <= NUM_ENTRIES,
                count == live_count(metadata, i as int),
                count <= i,
            decreases NUM_ENTRIES - i,
        {
            let r: usize = rank(metadata, i);
            if r != Dimension::uninit_rank() && r != REMOVED_RANK {
                count += 1;
            }
            i += 1;
        }
        count
    }

    /// The metadata tells the number of entries.
    pub proof fn lemma_len(self, metadata: u64)
        requires
            self.wf(),
            key::ordered_key::<K>(),
            self.valid(metadata),
        ensures
            live_count(metadata, NUM_ENTRIES as int) == self@.len(),
    {
        self.lemma_slots();
        let n = NUM_ENTRIES as int;
        lemma_live_count(metadata, n);
        let o = self.order@;
        assert(o.no_duplicates()) by {
            assert forall|i: int, j: int| 0 <= i < o.len() && 0 <= j < o.len() && i != j implies o[i]
                != o[j] by {
                assert(self.at(o[i]) == i && self.at(o[j]) == j) by {
                    assert(self@[i] == self@[i] && self@[j] == self@[j]);
                }
            }
        }
        o.unique_seq_to_set();
        assert(o.to_set() =~= live_slots(metadata, n)) by {
            assert forall|i: int| o.to_set().contains(i) implies live_slots(metadata, n).contains(
                i,
            ) by {
                let j = choose|j: int| 0 <= j < o.len() && o[j] == i;
                assert(self.live(o[j]));
            }
            assert forall|i: int| live_slots(metadata, n).contains(i) implies o.to_set().contains(
                i,
            ) by {
                assert(self.rank_at(i) != UNINIT_RANK);
                assert(self.live(i));
            }
        }
    }

    /// Returns `true` if the [`Leaf`] has no reachable entry.
    pub fn is_empty(&self) -> (r: bool)
        requires
            self.wf(),
            key::ordered_key::<K>(),
        ensures
            r == (self@.len() == 0),
    {
        proof {
            self.lemma_len(self.metadata);
        }
        Self::len(self.metadata) == 0
    }

    /// Returns the number of reachable entries.
    pub fn count(&self) -> (r: usize)
        requires
            self.wf(),
            key::ordered_key::<K>(),
        ensures
            r == self@.len(),
    {
        proof {
            self.lemma_len(self.metadata);
        }
        Self::len(self.metadata)
    }

    /// Returns a reference to the max key.
    pub fn max_key(&self) -> (r: Option<&K>)
        requires
            self.wf(),
            key::ordered_key::<K>(),
        ensures
            match r {
                Some(k) => self@.len() > 0 && *k == self@.last().0,
                None => self@.len() == 0,
            },
    {
        let mut max_rank: usize = 0;
        let mut max_index: usize = NUM_ENTRIES;
        let mut i: usize = 0;
        while i < self.entries.len()
            invariant
                self.wf(),
                i <= self.entries@.len() <= NUM_ENTRIES,
                max_rank < REMOVED_RANK,
                forall|j: int| #[trigger] self.live(j) && j < i ==> self.rank_at(j) <= max_rank,
                if max_index == NUM_ENTRIES {
                    max_rank == 0
                } else {
                    self.live(max_index as int) && self.rank_at(max_index as int) == max_rank
                },
            decreases self.entries@.len() - i,
        {
            let r: usize = rank(self.metadata, i);
            if r > max_rank && r != REMOVED_RANK {
                max_rank = r;
                max_index = i;
                assert(self.live(i as int));
            }
            i += 1;
        }
        proof {
            self.lemma_slots();
            if self@.len() > 0 {
                let s = self.order@[self@.len() - 1];
                assert(self.live(s));
                assert(self@[self@.len() - 1].0 == self.key_of(s));
                assert(self.at(s) == self@.len() - 1);
                if max_index != NUM_ENTRIES {
                    assert(self.rank_at(s) <= self.rank_at(max_index as int));
                }
            }
        }
        if max_index != NUM_ENTRIES {
            return Some(self.key_at(max_index));
        }
        None
    }

    /// Returns the recommended number of entries that the left-side node should store when a
    /// [`Leaf`] is split.
    ///
    /// Returns a number in `[1, NUM_ENTRIES)` that represents the recommended number of entries
    /// in the left-side node. The number is calculated as follows for each adjacent slot:
    /// - Initial `score = NUM_ENTRIES`.
    /// - Rank increased: `score += 1`.
    /// - Rank decreased: `score -= 1`.
    /// - Clamp `score` in `[NUM_ENTRIES / 2 + 1, NUM_ENTRIES / 2 + NUM_ENTRIES - 1]`.
    /// - Take `score - NUM_ENTRIES / 2`.
    ///
    /// For instance, when the ranks of a full [`Leaf`] of 14 entries
    /// - rise from slot to slot, returns 13.
    /// - fall from slot to slot, returns 1.
    pub fn optimal_boundary(metadata: u64) -> (r: usize)
        ensures
            r == boundary_in(metadata),
            1 <= r < NUM_ENTRIES,
    {
        let mut boundary: usize = NUM_ENTRIES;
        let mut prev_rank: usize = 0;
        let mut i: usize = 0;
        while i < NUM_ENTRIES
            invariant
                i <= NUM_ENTRIES,
                prev_rank == last_rank(metadata, i as int),
                boundary == NUM_ENTRIES + score(metadata, i as int),
                NUM_ENTRIES - i <= boundary <= NUM_ENTRIES + i,
            decreases NUM_ENTRIES - i,
        {
            let r: usize = rank(metadata, i);
            if r != 0 && r != REMOVED_RANK {
                if prev_rank >= r {
                    boundary -= 1;
                } else if prev_rank != 0 {
                    boundary += 1;
                }
                prev_rank = r;
            }
            i += 1;
        }
        let low: usize = NUM_ENTRIES / 2 + 1;
        let high: usize = NUM_ENTRIES + NUM_ENTRIES / 2 - 1;
        let clamped: usize = if boundary < low {
            low
        } else if boundary > high {
            high
        } else {
            boundary
        };
        clamped - NUM_ENTRIES / 2
    }

    /// Returns the recommended number of entries that the left-side node should store when this
    /// leaf is split.
    pub fn split_point(&self) -> (r: usize)
        ensures
            r == self.boundary(),
            1 <= r < NUM_ENTRIES,
    {
        Self::optimal_boundary(self.metadata)
    }

    /// Inserts a key value pair at the specified position without checking the metadata.
    ///
    /// `rank` is calculated as `index + 1`: positions are filled in key order.
    pub fn insert_unchecked(&mut self, key: K, val: V, index: usize)
        requires
            old(self).wf(),
            key::ordered_key::<K>(),
            index == old(self).used(),
            index < NUM_ENTRIES,
            !old(self).retired(),
            forall|i: int| 0 <= i < old(self)@.len() ==> key::key_lt(#[trigger] old(self)@[i].0, key),
        ensures
            final(self).wf(),
            final(self)@ == old(self)@.push((key, val)),
            final(self).used() == old(self).used() + 1,
            final(self).retired() == old(self).retired(),
            final(self).frozen() == old(self).frozen(),
    {
        let new_metadata: u64 = with_rank(self.metadata, index, index + 1);
        self.metadata = new_metadata;
        self.entries.push(Some((key, val)));
        self.order = Ghost(self.order@.insert(sorted::place(old(self)@, key), index as int));
        proof {
            old(self).lemma_slots();
            key::lemma_order::<K>();
            assert(sorted::parts_at(old(self)@, key, old(self)@.len() as int));
            sorted::lemma_place_unique(old(self)@, key, old(self)@.len() as int);
            assert forall|j: int| #[trigger] old(self).live(j) implies (if key::key_lt(
                key,
                old(self).key_of(j),
            ) {
                old(self).rank_at(j) > index
            } else {
                old(self).rank_at(j) <= index
            }) by {
                assert(key::key_lt(old(self)@[old(self).at(j)].0, key));
            }
            assert forall|j: int|
                #![trigger rank_in(self.metadata, j)]
                0 <= j < NUM_ENTRIES && j != index implies rank_in(self.metadata, j) == (if old(self).live(
                j,
            ) && key::key_lt(key, old(self).key_of(j)) {
                old(self).rank_at(j) + 1
            } else {
                old(self).rank_at(j)
            }) by {
                if old(self).live(j) {
                    assert(key::key_lt(old(self)@[old(self).at(j)].0, key));
                }
            }
            lemma_inserted_slot(*old(self), *self, key, val, index as int);
            assert(self@ =~= old(self)@.push((key, val)));
        }
    }

    /// The map gives for each rank one more than the slot that has it, and 0 where none has.
    spec fn indexed(self, index: Seq<u8>) -> bool {
        &&& index.len() == NUM_ENTRIES
        &&& forall|r: int|
            0 <= r < NUM_ENTRIES ==> #[trigger] index[r] <= NUM_ENTRIES && (index[r] != 0
                ==> self.live(index[r] - 1) && self.rank_at(index[r] - 1) == r + 1)
        &&& forall|i: int| #[trigger] self.live(i) ==> index[self.rank_at(i) - 1] == i + 1
    }

    /// Builds a rank to index map from metadata.
    fn build_index(&self) -> (index: Vec<u8>)
        requires
            self.wf(),
            key::ordered_key::<K>(),
        ensures
            self.indexed(index@),
    {
        let mut index: Vec<u8> = Vec::new();
        let mut n: usize = 0;
        while n < NUM_ENTRIES
            invariant
                n == index@.len() <= NUM_ENTRIES,
                forall|r: int| 0 <= r < n ==> #[trigger] index@[r] == 0,
            decreases NUM_ENTRIES - n,
        {
            index.push(0);
            n += 1;
        }
        let mut i: usize = 0;
        while i < self.entries.len()
            invariant
                self.wf(),
                key::ordered_key::<K>(),
                index@.len() == NUM_ENTRIES,
                i <= self.entries@.len() <= NUM_ENTRIES,
                forall|r: int|
                    0 <= r < NUM_ENTRIES ==> #[trigger] index@[r] <= i && (index@[r] != 0
                        ==> self.live(index@[r] - 1) && self.rank_at(index@[r] - 1) == r + 1),
                forall|j: int| #[trigger]
                    self.live(j) && j < i ==> index@[self.rank_at(j) - 1] == j + 1,
            decreases self.entries@.len() - i,
        {
            let r: usize = rank(self.metadata, i);
            if r != Dimension::uninit_rank() && r != REMOVED_RANK {
                proof {
                    self.lemma_slots();
                    assert(self.live(i as int));
                    assert forall|j: int| #[trigger] self.live(j) && j < i implies self.rank_at(j)
                        != r by {
                        assert(self.rank_at(i as int) == r);
                    }
                }
                index.set(r - 1, (i + 1) as u8);
            }
            i += 1;
        }
        index
    }

    /// Returns the slots that hold entries, in key order.
    pub fn slots(&self) -> (slots: Vec<usize>)
        requires
            self.wf(),
            key::ordered_key::<K>(),
        ensures
            slots@.len() == self@.len(),
            forall|j: int|
                0 <= j < slots@.len() ==> self.has(#[trigger] slots@[j] as int) && self.at(
                    slots@[j] as int,
                ) == j && slots@[j] < NUM_ENTRIES,
    {
        let index: Vec<u8> = self.build_index();
        let mut slots: Vec<usize> = Vec::new();
        let mut r: usize = 0;
        proof {
            self.lemma_slots();
        }
        while r < NUM_ENTRIES
            invariant
                self.wf(),
                key::ordered_key::<K>(),
                self.indexed(index@),
                r <= NUM_ENTRIES,
                slots@.len() <= self@.len(),
                self@.len() == self.order@.len(),
                forall|j: int|
                    0 <= j < slots@.len() ==> #[trigger] slots@[j] == self.order@[j],
                forall|j: int|
                    0 <= j < self.order@.len() ==> (self.rank_at(#[trigger] self.order@[j]) <= r
                        <==> j < slots@.len()),
            decreases NUM_ENTRIES - r,
        {
            let ghost c = slots@.len() as int;
            let ghost o = self.order@;
            proof {
                self.lemma_slots();
                assert forall|j: int| 0 <= j < o.len() implies index@[self.rank_at(#[trigger] o[j])
                    - 1] == o[j] + 1 by {
                    assert(self.live(o[j]));
                }
            }
            if index[r] != 0 {
                let slot: usize = (index[r] - 1) as usize;
                proof {
                    assert(self.live(slot as int));
                    let j = self.at(slot as int);
                    assert(o[j] == slot);
                    assert(j >= c);
                    if j > c {
                        assert(self.rank_at(o[c]) < self.rank_at(o[j]));
                        assert(self.rank_at(o[c]) > r);
                    }
                    assert forall|i: int| 0 <= i < o.len() implies (self.rank_at(#[trigger] o[i])
                        <= r + 1 <==> i < c + 1) by {
                        if i > c {
                            assert(self.rank_at(o[c]) < self.rank_at(o[i]));
                        }
                    }
                }
                slots.push(slot);
            } else {
                proof {
                    assert forall|i: int| 0 <= i < o.len() implies (self.rank_at(#[trigger] o[i])
                        <= r + 1 <==> i < c) by {
                        assert(self.live(o[i]));
                        assert(index@[self.rank_at(o[i]) - 1] == o[i] + 1);
                    }
                }
            }
            r += 1;
        }
        proof {
            self.lemma_slots();
            assert(slots@.len() == self@.len()) by {
                if slots@.len() < self@.len() {
                    let x = self.order@[slots@.len() as int];
                    assert(self.live(x));
                    assert(self.rank_at(x) <= NUM_ENTRIES);
                }
            }
            assert forall|j: int| 0 <= j < slots@.len() implies self.has(#[trigger] slots@[j] as int)
                && self.at(slots@[j] as int) == j && slots@[j] < NUM_ENTRIES by {
                assert(self.live(self.order@[j]));
                assert(self@[j] == self@[j]);
            }
        }
        slots
    }

    /// Removes a range of entries.
    ///
    /// A frozen leaf keeps its entries.
    pub fn remove_range(&mut self, range: &KeyRange<K>)
        requires
            old(self).wf(),
            key::ordered_key::<K>(),
        ensures
            final(self).wf(),
            final(self).frozen() == old(self).frozen(),
            final(self).used() == old(self).used(),
            final(self)@ == (if old(self).frozen() {
                old(self)@
            } else {
                old(self)@.filter(outside(*range))
            }),
            final(self).retired() == (old(self).retired() || (old(self)@.len() > 0
                && final(self)@.len() == 0)),
    {
        if Dimension::frozen(self.metadata) {
            proof {
                self.lemma_slots();
            }
            return;
        }
        let slots: Vec<usize> = self.slots();
        let mut j: usize = 0;
        let ghost all = self@;
        let ghost mut kept: int = 0;
        proof {
            reveal(Seq::filter);
            assert(all.take(0).filter(outside(*range)) =~= Seq::empty());
            assert(all =~= Seq::empty() + all.skip(0));
        }
        while j < slots.len()
            invariant
                self.wf(),
                key::ordered_key::<K>(),
                all == old(self)@,
                slots@.len() == all.len(),
                j <= slots@.len(),
                self@ == all.take(j as int).filter(outside(*range)) + all.skip(j as int),
                kept == all.take(j as int).filter(outside(*range)).len(),
                forall|i: int|
                    j <= i < slots@.len() ==> self.has(#[trigger] slots@[i] as int) && self.at(
                        slots@[i] as int,
                    ) == kept + i - j && slots@[i] < NUM_ENTRIES,
                self.frozen() == old(self).frozen(),
                self.used() == old(self).used(),
                self.retired() == (old(self).retired() || all.len() > 0 && self@.len() == 0),
                old(self).retired() ==> all.len() == 0,
            decreases slots@.len() - j,
        {
            let slot: usize = slots[j];
            let ghost before = *self;
            let ghost q = outside(*range);
            proof {
                self.lemma_slots();
                assert(self.live(slot as int));
                assert(self.at(slot as int) == kept);
                assert(self@[kept] == all.skip(j as int)[0]);
                assert(all.skip(j as int)[0] == all[j as int]);
                let t = all.take(j as int + 1);
                assert(t.drop_last() =~= all.take(j as int));
                assert(t.last() == all[j as int]);
                reveal(Seq::filter);
            }
            if range_contains(range, self.key_at(slot)) {
                self.mark_removed(slot);
                proof {
                    assert(self@ =~= all.take(j as int + 1).filter(q) + all.skip(j as int + 1)) by {
                        assert(before@.remove(kept) =~= all.take(j as int).filter(q) + all.skip(
                            j as int + 1,
                        ));
                    }
                    assert forall|i: int| j + 1 <= i < slots@.len() implies self.has(
                        #[trigger] slots@[i] as int,
                    ) && self.at(slots@[i] as int) == kept + i - (j + 1) by {
                        assert(before.has(slots@[i] as int));
                        assert(before.at(slots@[i] as int) == kept + i - j);
                    }
                }
            } else {
                proof {
                    assert(self@ =~= all.take(j as int + 1).filter(q) + all.skip(j as int + 1)) by {
                        assert(all.take(j as int + 1).filter(q) == all.take(j as int).filter(q).push(
                            all[j as int],
                        ));
                        assert(all.skip(j as int) =~= seq![all[j as int]] + all.skip(j as int + 1));
                    }
                    kept = kept + 1;
                }
            }
            j += 1;
        }
        proof {
            assert(all.take(all.len() as int) =~= all);
            assert(all.skip(all.len() as int) =~= Seq::empty());
            assert(self@ =~= all.filter(outside(*range)));
        }
    }

    /// Hands out the entries in key order for them to be distributed to two leaves, along with
    /// the recommended number of entries in the left-side one.
    pub fn distribute(&self) -> (r: (Vec<(&K, &V)>, usize))
        requires
            self.wf(),
            key::ordered_key::<K>(),
        ensures
            r.0@.len() == self@.len(),
            forall|i: int|
                0 <= i < r.0@.len() ==> (*(#[trigger] r.0@[i]).0, *r.0@[i].1) == self@[i],
            r.1 == self.boundary(),
            1 <= r.1 < NUM_ENTRIES,
    {
        let slots: Vec<usize> = self.slots();
        let boundary: usize = Self::optimal_boundary(self.metadata);
        let mut out: Vec<(&K, &V)> = Vec::new();
        let mut j: usize = 0;
        while j < slots.len()
            invariant
                self.wf(),
                key::ordered_key::<K>(),
                j == out@.len() <= slots@.len(),
                slots@.len() == self@.len(),
                forall|i: int|
                    0 <= i < slots@.len() ==> self.has(#[trigger] slots@[i] as int) && self.at(
                        slots@[i] as int,
                    ) == i && slots@[i] < NUM_ENTRIES,
                forall|i: int|
                    0 <= i < j ==> (*(#[trigger] out@[i]).0, *out@[i].1) == self@[i],
            decreases slots@.len() - j,
        {
            let slot: usize = slots[j];
            out.push(self.entry_at(slot));
            j += 1;
        }
        (out, boundary)
    }

    /// The entry at position `j` comes behind those before it, wherever they went.
    proof fn lemma_next_entry(all: Seq<(K, V)>, boundary: int, j: int)
        requires
            sorted::sorted(all),
            0 <= j < all.len(),
            0 <= boundary,
        ensures
            forall|m: int, i: int|
                0 <= i < m <= j ==> key::key_lt(#[trigger] all.take(m)[i].0, all[j].0),
            forall|i: int|
                0 <= i < j - boundary ==> key::key_lt(
                    #[trigger] all.subrange(boundary, j)[i].0,
                    all[j].0,
                ),
            all.take(j + 1) == all.take(j).push(all[j]),
            boundary <= j ==> all.subrange(boundary, j + 1) == all.subrange(boundary, j).push(
                all[j],
            ),
            boundary <= all.len() ==> all.subrange(boundary, boundary) == Seq::<(K, V)>::empty(),
    {
        assert forall|m: int, i: int| 0 <= i < m <= j implies key::key_lt(
            #[trigger] all.take(m)[i].0,
            all[j].0,
        ) by {
            assert(all.take(m)[i] == all[i]);
        }
        assert forall|i: int| 0 <= i < j - boundary implies key::key_lt(
            #[trigger] all.subrange(boundary, j)[i].0,
            all[j].0,
        ) by {
            assert(all.subrange(boundary, j)[i] == all[boundary + i]);
        }
        assert(all.take(j + 1) =~= all.take(j).push(all[j]));
        if boundary <= j {
            assert(all.subrange(boundary, j + 1) =~= all.subrange(boundary, j).push(all[j]));
        }
        if boundary <= all.len() {
            assert(all.subrange(boundary, boundary) =~= Seq::empty());
        }
    }

    /// The entries in the slots from position `j` on are still where they were.
    spec fn remain(self, slots: Seq<usize>, entries: Seq<Option<(K, V)>>, j: int) -> bool {
        &&& slots.len() == self@.len()
        &&& entries.len() == self.entries@.len()
        &&& forall|i: int|
            0 <= i < slots.len() ==> self.has(#[trigger] slots[i] as int) && self.at(
                slots[i] as int,
            ) == i && slots[i] < NUM_ENTRIES
        &&& forall|i: int|
            j <= i < slots.len() ==> entries[#[trigger] slots[i] as int] == Some(self@[i])
    }

    /// Once the next entry was taken out of its slot, the others are still where they were.
    proof fn lemma_remain(self, slots: Seq<usize>, entries: Seq<Option<(K, V)>>, j: int)
        requires
            self.wf(),
            key::ordered_key::<K>(),
            self.remain(slots, entries, j),
            0 <= j < slots.len(),
        ensures
            slots[j] < entries.len(),
            entries[slots[j] as int] == Some(self@[j]),
            self.remain(slots, entries.update(slots[j] as int, None), j + 1),
    {
        self.lemma_slots();
        assert(self.has(slots[j] as int));
        let e = entries.update(slots[j] as int, None);
        assert forall|i: int| j + 1 <= i < slots.len() implies e[#[trigger] slots[i] as int]
            == Some(self@[i]) by {
            assert(self.at(slots[i] as int) == i);
            assert(self.at(slots[j] as int) == j);
        }
    }

    /// Moves the entries to two fresh leaves: the first `boundary` of them to the one, the rest to
    /// the other.
    pub fn split(self, boundary: usize) -> (r: (Leaf<K, V>, Leaf<K, V>))
        requires
            self.wf(),
            key::ordered_key::<K>(),
        ensures
            r.0.wf(),
            r.1.wf(),
            !r.0.frozen() && !r.0.retired(),
            !r.1.frozen() && !r.1.retired(),
            boundary <= self@.len() ==> r.0@ == self@.take(boundary as int) && r.1@ == self@.skip(
                boundary as int,
            ),
            boundary > self@.len() ==> r.0@ == self@ && r.1@.len() == 0,
            r.0.used() == r.0@.len(),
            r.1.used() == r.1@.len(),
    {
        let slots: Vec<usize> = self.slots();
        let ghost before = self;
        let mut entries: Vec<Option<(K, V)>> = self.entries;
        let mut low: Leaf<K, V> = Leaf::new();
        let mut high: Leaf<K, V> = Leaf::new();
        let mut j: usize = 0;
        proof {
            before.lemma_slots();
        }
        while j < slots.len()
            invariant
                before.wf(),
                key::ordered_key::<K>(),
                low.wf(),
                high.wf(),
                !low.frozen() && !low.retired(),
                !high.frozen() && !high.retired(),
                j <= slots@.len() == before@.len() <= NUM_ENTRIES,
                before.remain(slots@, entries@, j as int),
                low.used() == low@.len(),
                high.used() == high@.len(),
                j <= boundary ==> low@ == before@.take(j as int) && high@.len() == 0,
                j > boundary ==> low@ == before@.take(boundary as int) && high@
                    == before@.subrange(boundary as int, j as int),
            decreases slots@.len() - j,
        {
            let slot: usize = slots[j];
            proof {
                before.lemma_slots();
                before.lemma_remain(slots@, entries@, j as int);
                Self::lemma_next_entry(before@, boundary as int, j as int);
            }
            match entries[slot].take() {
                Some((k, v)) => {
                    if j < boundary {
                        low.insert_unchecked(k, v, j);
                    } else {
                        high.insert_unchecked(k, v, j - boundary);
                    }
                },
                None => {},
            }
            j += 1;
        }
        proof {
            if boundary <= before@.len() {
                assert(before@.skip(boundary as int) =~= before@.subrange(
                    boundary as int,
                    before@.len() as int,
                ));
                assert(boundary == before@.len() ==> high@ =~= before@.skip(boundary as int));
            } else {
                assert(before@.take(before@.len() as int) =~= before@);
            }
        }
        (low, high)
    }

    /// Moves the entries to two fresh leaves and hands the one between them over: the leaf on the
    /// left gets `boundary - 1` of them.
    pub fn split_around(self, boundary: usize) -> (r: (Leaf<K, V>, (K, V), Leaf<K, V>))
        requires
            self.wf(),
            key::ordered_key::<K>(),
            1 <= boundary <= self@.len(),
        ensures
            r.0.wf(),
            r.2.wf(),
            !r.0.frozen() && !r.0.retired(),
            !r.2.frozen() && !r.2.retired(),
            r.0@ == self@.take(boundary - 1),
            r.1 == self@[boundary - 1],
            r.2@ == self@.skip(boundary as int),
            r.0.used() == r.0@.len(),
            r.2.used() == r.2@.len(),
    {
        let slots: Vec<usize> = self.slots();
        let ghost before = self;
        let mut entries: Vec<Option<(K, V)>> = self.entries;
        let mut low: Leaf<K, V> = Leaf::new();
        let mut pivot: Option<(K, V)> = None;
        let mut high: Leaf<K, V> = Leaf::new();
        let mut j: usize = 0;
        proof {
            before.lemma_slots();
        }
        while j < slots.len()
            invariant
                before.wf(),
                key::ordered_key::<K>(),
                low.wf(),
                high.wf(),
                !low.frozen() && !low.retired(),
                !high.frozen() && !high.retired(),
                j <= slots@.len() == before@.len() <= NUM_ENTRIES,
                1 <= boundary <= before@.len(),
                before.remain(slots@, entries@, j as int),
                low.used() == low@.len(),
                high.used() == high@.len(),
                j < boundary ==> low@ == before@.take(j as int) && high@.len() == 0,
                j >= boundary ==> low@ == before@.take(boundary - 1) && pivot == Some(
                    before@[boundary - 1],
                ) && high@ == before@.subrange(boundary as int, j as int),
            decreases slots@.len() - j,
        {
            let slot: usize = slots[j];
            proof {
                before.lemma_slots();
                before.lemma_remain(slots@, entries@, j as int);
                Self::lemma_next_entry(before@, boundary as int, j as int);
            }
            match entries[slot].take() {
                Some((k, v)) => {
                    if j < boundary - 1 {
                        low.insert_unchecked(k, v, j);
                    } else if j == boundary - 1 {
                        pivot = Some((k, v));
                        assert(high@ =~= before@.subrange(boundary as int, boundary as int));
                    } else {
                        high.insert_unchecked(k, v, j - boundary);
                    }
                },
                None => {},
            }
            j += 1;
        }
        proof {
            assert(before@.skip(boundary as int) =~= before@.subrange(
                boundary as int,
                before@.len() as int,
            ));
        }
        match pivot {
            Some(pair) => (low, pair, high),
            None => vstd::pervasive::unreached(),
        }
    }
}

} // verus!
