//! What the parts of the tree do by themselves: the word that describes a leaf, leaves, the nodes
//! above them, and the ways along them.

use vstd::prelude::*;
use crate::tree::chain;
use crate::tree::dimension;
use crate::tree::dimension::Dimension;
use crate::tree::index_laws;
use crate::tree::internal_node::{InternalNode, Node};
use crate::tree::key;
use crate::tree::leaf;
use crate::tree::leaf::{InsertResult, Leaf, RemoveResult};
use crate::tree::leaf_iter::{Iter, RevIter};
use crate::tree::leaf_node::LeafNode;
use crate::tree::range::KeyRange;
use crate::tree::sorted;

verus! {

/// A leaf holds as many entries as fit: the ranks and the two other states fit in the bits of an
/// entry, the entries and the three flags in the word, and one entry more would not.
pub proof fn leaves_hold_what_fits(d: Dimension)
    requires
        call_ensures(dimension::dimension, (), d),
    ensures
        d.wf(),
        d.num_bits_per_entry == 4,
        d.num_entries + 2 <= 16,
        d.num_entries * d.num_bits_per_entry + 3 <= 64,
        d.num_entries + 1 + 2 > 16,
{
    assert(d.num_entries * d.num_bits_per_entry == 56) by (nonlinear_arith)
        requires
            d.num_entries == 14,
            d.num_bits_per_entry == 4,
    ;
}

/// Freezing, thawing and retiring set one flag, and leave the other flags and all ranks alone.
pub proof fn flags_are_set_by_themselves(
    d: Dimension,
    m: u64,
    frozen: u64,
    thawed: u64,
    retired: u64,
    index: usize,
    rank: usize,
    a: usize,
    b: usize,
    c: usize,
)
    requires
        call_ensures(dimension::dimension, (), d),
        call_ensures(Dimension::freeze, (m,), frozen),
        call_ensures(Dimension::unfreeze, (m,), thawed),
        call_ensures(Dimension::retire, (m,), retired),
        index < d.num_entries,
        call_ensures(Dimension::rank, (&d, m, index), rank),
        call_ensures(Dimension::rank, (&d, frozen, index), a),
        call_ensures(Dimension::rank, (&d, thawed, index), b),
        call_ensures(Dimension::rank, (&d, retired, index), c),
    ensures
        Dimension::frozen(frozen) && !Dimension::frozen(thawed) && Dimension::retired(retired),
        Dimension::retired(frozen) == Dimension::retired(m),
        Dimension::retired(thawed) == Dimension::retired(m),
        Dimension::frozen(retired) == Dimension::frozen(m),
        Dimension::unlinked(frozen) == Dimension::unlinked(m),
        Dimension::unlinked(thawed) == Dimension::unlinked(m),
        Dimension::unlinked(retired) == Dimension::unlinked(m),
        a == rank && b == rank && c == rank,
{
    d.lemma_flags(m, index as int);
}

/// The flags are different bits, and a word without bits has none of them.
pub proof fn flags_are_apart(m: u64)
    ensures
        Dimension::frozen(0x4000_0000_0000_0000) && !Dimension::retired(0x4000_0000_0000_0000)
            && !Dimension::unlinked(0x4000_0000_0000_0000),
        Dimension::retired(0x8000_0000_0000_0000) && !Dimension::frozen(0x8000_0000_0000_0000)
            && !Dimension::unlinked(0x8000_0000_0000_0000),
        Dimension::unlinked(0x2000_0000_0000_0000) && !Dimension::frozen(0x2000_0000_0000_0000)
            && !Dimension::retired(0x2000_0000_0000_0000),
        !Dimension::frozen(0) && !Dimension::retired(0) && !Dimension::unlinked(0),
{
    assert(0x4000_0000_0000_0000u64 & 0x4000_0000_0000_0000u64 != 0 && 0x4000_0000_0000_0000u64
        & 0x8000_0000_0000_0000u64 == 0 && 0x4000_0000_0000_0000u64 & 0x2000_0000_0000_0000u64 == 0
        && 0x8000_0000_0000_0000u64 & 0x8000_0000_0000_0000u64 != 0 && 0x8000_0000_0000_0000u64
        & 0x4000_0000_0000_0000u64 == 0 && 0x8000_0000_0000_0000u64 & 0x2000_0000_0000_0000u64 == 0
        && 0x2000_0000_0000_0000u64 & 0x2000_0000_0000_0000u64 != 0 && 0x2000_0000_0000_0000u64
        & 0x4000_0000_0000_0000u64 == 0 && 0x2000_0000_0000_0000u64 & 0x8000_0000_0000_0000u64 == 0
        && 0u64 & 0x4000_0000_0000_0000u64 == 0 && 0u64 & 0x8000_0000_0000_0000u64 == 0 && 0u64
        & 0x2000_0000_0000_0000u64 == 0) by (bit_vector);
}

/// The rank that was given to an entry is the one that it has; the other entries keep theirs. The
/// state of an entry that was never written lies below all ranks, that of a removed one above.
pub proof fn ranks_are_read_back(
    d: Dimension,
    m: u64,
    index: usize,
    rank: usize,
    r: u64,
    other: usize,
    before: usize,
    after: usize,
    unwritten: usize,
    removed: usize,
)
    requires
        call_ensures(dimension::dimension, (), d),
        index < d.num_entries,
        other < d.num_entries,
        rank < 16,
        call_ensures(Dimension::augment, (&d, m, index, rank), r),
        call_ensures(Dimension::rank, (&d, m, other), before),
        call_ensures(Dimension::rank, (&d, r, other), after),
        call_ensures(Dimension::uninit_rank, (), unwritten),
        call_ensures(Dimension::removed_rank, (&d,), removed),
    ensures
        other == index ==> after == rank,
        other != index ==> after == before,
        unwritten == 0,
        removed == 15,
        before <= removed,
{
    assert((1u64 << 4u64) - 1 == 15) by (bit_vector);
    leaf::lemma_rank_bound(m, other as int);
}

/// The number of entries that a word describes is the number of its slots that are neither unwritten
/// nor removed: giving a slot a rank adds one, and taking it away takes one.
pub proof fn words_count_their_entries<K: Ord + Clone, V>(
    d: Dimension,
    m: u64,
    index: usize,
    rank: usize,
    r: u64,
    old_rank: usize,
    before: usize,
    after: usize,
)
    requires
        call_ensures(dimension::dimension, (), d),
        index < d.num_entries,
        rank < 16,
        call_ensures(Dimension::augment, (&d, m, index, rank), r),
        call_ensures(Dimension::rank, (&d, m, index), old_rank),
        call_ensures(Leaf::<K, V>::len, (m,), before),
        call_ensures(Leaf::<K, V>::len, (r,), after),
    ensures
        ({
            let held = 0 < old_rank < 15;
            let holds = 0 < rank < 15;
            &&& held == holds ==> after == before
            &&& !held && holds ==> after == before + 1
            &&& held && !holds ==> after == before - 1
        }),
{
    assert forall|j: int| 0 <= j < 14 && j != index implies #[trigger] leaf::rank_in(r, j)
        == leaf::rank_in(m, j) by {
        assert(d.rank_of(r, j) == d.rank_of(m, j));
    }
    lemma_count(m, r, index as int, 14);
}

proof fn lemma_count(a: u64, b: u64, i: int, n: int)
    requires
        0 <= n <= 14,
        0 <= i < 14,
        forall|j: int|
            0 <= j < 14 && j != i ==> #[trigger] leaf::rank_in(b, j) == leaf::rank_in(a, j),
    ensures
        leaf::live_count(b, n) == leaf::live_count(a, n) + (if i < n {
            (if 0 < leaf::rank_in(b, i) < 15 {
                1int
            } else {
                0
            }) - (if 0 < leaf::rank_in(a, i) < 15 {
                1int
            } else {
                0
            })
        } else {
            0
        }),
    decreases n,
{
    if n > 0 {
        lemma_count(a, b, i, n - 1);
        assert(leaf::rank_in(b, n - 1) == leaf::rank_in(b, n - 1));
    }
}

/// The slot before this one that holds an entry; nothing where there is none.
pub open spec fn entry_before(m: u64, i: int) -> Option<int>
    decreases i,
{
    if i <= 0 {
        None
    } else if 0 < leaf::rank_in(m, i - 1) < 15 {
        Some(i - 1)
    } else {
        entry_before(m, i - 1)
    }
}

/// The slot holds an entry that ranks above the entry before it.
pub open spec fn rises(m: u64, i: int) -> bool {
    0 < leaf::rank_in(m, i) < 15 && (entry_before(m, i) matches Some(j) && leaf::rank_in(m, j)
        < leaf::rank_in(m, i))
}

/// The slot holds an entry that does not rank above the entry before it.
pub open spec fn falls(m: u64, i: int) -> bool {
    0 < leaf::rank_in(m, i) < 15 && (entry_before(m, i) matches Some(j) && leaf::rank_in(m, j)
        >= leaf::rank_in(m, i))
}

/// How many of the first slots rise, less how many fall.
pub open spec fn balance(m: u64, n: int) -> int
    decreases n,
{
    if n <= 0 {
        0
    } else {
        balance(m, n - 1) + (if rises(m, n - 1) {
            1int
        } else if falls(m, n - 1) {
            -1int
        } else {
            0int
        })
    }
}

proof fn lemma_score(m: u64, n: int)
    requires
        0 <= n <= 14,
    ensures
        leaf::score(m, n) == balance(m, n),
        leaf::last_rank(m, n) == (match entry_before(m, n) {
            Some(j) => leaf::rank_in(m, j),
            None => 0,
        }),
        entry_before(m, n) matches Some(j) ==> 0 <= j < n && 0 < leaf::rank_in(m, j) < 15,
    decreases n,
{
    if n > 0 {
        lemma_score(m, n - 1);
    }
}

/// A leaf is cut in the middle, further to the right the more its keys came in rising order, further
/// to the left the more they came in falling order; at least one entry goes to either side.
pub proof fn leaves_are_cut_by_their_order<K: Ord + Clone, V>(m: u64, r: usize)
    requires
        call_ensures(Leaf::<K, V>::optimal_boundary, (m,), r),
    ensures
        1 <= r <= 13,
        ({
            let b = 7 + balance(m, 14);
            &&& b < 1 ==> r == 1
            &&& b > 13 ==> r == 13
            &&& 1 <= b <= 13 ==> r == b
        }),
{
    lemma_score(m, 14);
}

/// A new leaf is empty and takes entries; a leaf is full once all its slots were written or it is
/// retired.
pub proof fn leaves_get_full<K: Ord + Clone, V>(
    fresh: Leaf<K, V>,
    l: &Leaf<K, V>,
    full: bool,
    retired: bool,
    empty: bool,
    n: usize,
    top: Option<&K>,
)
    requires
        call_ensures(Leaf::<K, V>::new, (), fresh),
        call_ensures(Leaf::<K, V>::is_full, (l,), full),
        call_ensures(Leaf::<K, V>::is_retired, (l,), retired),
        call_ensures(Leaf::<K, V>::is_empty, (l,), empty),
        call_ensures(Leaf::<K, V>::count, (l,), n),
        call_ensures(Leaf::<K, V>::max_key, (l,), top),
    ensures
        fresh@.len() == 0 && fresh.used() == 0 && !fresh.retired() && !fresh.frozen(),
        full <==> l.used() >= 14 || retired,
        n == l@.len(),
        empty <==> n == 0,
        top is None <==> n == 0,
        top matches Some(k) ==> *k == l@[l@.len() - 1].0,
{
}

/// Freezing and thawing a leaf tell whether they changed it, and leave its entries.
pub proof fn freezing_keeps_the_entries<K: Ord + Clone, V>(
    a: &mut Leaf<K, V>,
    r: bool,
    b: &mut Leaf<K, V>,
    s: bool,
)
    requires
        call_ensures(Leaf::<K, V>::freeze, (a,), r),
        call_ensures(Leaf::<K, V>::unfreeze, (b,), s),
    ensures
        final(a).frozen() && !final(b).frozen(),
        r <==> !old(a).frozen(),
        s <==> old(b).frozen(),
        final(a)@ == old(a)@ && final(b)@ == old(b)@,
        final(a).used() == old(a).used() && final(b).used() == old(b).used(),
        final(a).retired() == old(a).retired() && final(b).retired() == old(b).retired(),
{
}

/// Why an entry was not inserted; the entry is handed back.
pub open spec fn handed_back<K, V>(r: InsertResult<K, V>, k: K, v: V) -> bool {
    &&& r matches InsertResult::Duplicate(a, b) ==> a == k && b == v
    &&& r matches InsertResult::Full(a, b) ==> a == k && b == v
    &&& r matches InsertResult::Frozen(a, b) ==> a == k && b == v
}

/// A leaf takes an entry where it is neither retired nor frozen, does not have the key, and has a slot
/// left, and it tells the first of these that stops it; otherwise it stays as it is, and hands the
/// entry back.
pub proof fn leaves_take_new_keys<K: Ord + Clone, V>(
    l: &mut Leaf<K, V>,
    k: K,
    v: V,
    r: InsertResult<K, V>,
    e: (K, V),
)
    requires
        call_ensures(Leaf::<K, V>::insert, (l, k, v), r),
        old(l).wf(),
        key::ordered_key::<K>(),
        sorted::sorted(old(l)@),
    ensures
        handed_back(r, k, v),
        r is Success <==> !old(l).retired() && !old(l).frozen() && !index_laws::has_entry(
            old(l)@,
            k,
        ) && old(l).used() != 14,
        old(l).retired() ==> r is Full,
        !old(l).retired() && old(l).frozen() ==> r is Frozen,
        !old(l).retired() && !old(l).frozen() && index_laws::has_entry(old(l)@, k)
            ==> r is Duplicate,
        !(r is Success) ==> final(l)@ == old(l)@ && final(l).used() == old(l).used(),
        r is Success ==> final(l)@.len() == old(l)@.len() + 1 && final(l).used() == old(l).used()
            + 1 && (final(l)@.contains(e) <==> e == (k, v) || old(l)@.contains(e)),
{
    index_laws::lemma_found(old(l)@, k);
    if r is Success {
        index_laws::lemma_inserted(old(l)@, k, v, e);
    }
}

/// Looking a key up in a leaf finds the entry with the key; looking for what is not below a key finds
/// the first such entry.
pub proof fn leaves_find_keys<K: Ord + Clone, V>(
    l: &Leaf<K, V>,
    k: &K,
    entry: Option<(&K, &V)>,
    value: Option<&V>,
    least: (Option<(&K, &V)>, u64),
    e: (K, V),
)
    requires
        call_ensures(Leaf::<K, V>::search_entry, (l, k), entry),
        call_ensures(Leaf::<K, V>::search_value, (l, k), value),
        call_ensures(Leaf::<K, V>::min_greater_equal, (l, k), least),
        key::ordered_key::<K>(),
        sorted::sorted(l@),
    ensures
        entry is Some <==> index_laws::has_entry(l@, *k),
        value is Some <==> entry is Some,
        l@.contains(e) && index_laws::same(e.0, *k) ==> entry == Some((&e.0, &e.1)) && value
            == Some(&e.1),
        least.0 is None && l@.contains(e) ==> index_laws::below(e.0, *k),
        least.0 matches Some(x) ==> l@.contains((*x.0, *x.1)) && !index_laws::below(*x.0, *k),
        least.0 matches Some(x) ==> (l@.contains(e) && !index_laws::below(e.0, *k)
            ==> !index_laws::below(e.0, *x.0)),
{
    let s = l@;
    index_laws::lemma_found(s, *k);
    sorted::lemma_place(s, *k);
    key::lemma_order::<K>();
    let p = sorted::place(s, *k);
    if s.contains(e) {
        let i = choose|i: int| 0 <= i < s.len() && s[i] == e;
        if index_laws::same(e.0, *k) {
            sorted::lemma_found_at(s, *k, i);
        }
        if p < s.len() && i > p {
            assert(key::key_lt(s[p].0, s[i].0));
        }
        if p < s.len() {
            assert(key::key_eq(s[p].0, s[p].0));
        }
    }
    if p < s.len() {
        assert(s.contains(s[p]));
        assert(!key::key_lt(s[p].0, *k));
    }
}

/// A removal from a leaf takes away the entry with the key and no other, where the leaf is not frozen
/// and the condition says so; the last entry to go retires the leaf.
pub proof fn leaves_remove_keys<K: Ord + Clone, V, F: Fn(&V) -> bool>(
    l: &mut Leaf<K, V>,
    k: &K,
    condition: &F,
    r: RemoveResult,
    e: (K, V),
)
    requires
        call_ensures(Leaf::<K, V>::remove_if::<F>, (l, k, condition), r),
        key::ordered_key::<K>(),
        sorted::sorted(old(l)@),
    ensures
        old(l).frozen() <==> r is Frozen,
        !old(l).frozen() && !index_laws::has_entry(old(l)@, *k) ==> r is Fail,
        r is Fail || r is Frozen ==> final(l)@ == old(l)@,
        r is Success || r is Retired ==> index_laws::has_entry(old(l)@, *k) && (final(l)@.contains(
            e,
        ) <==> old(l)@.contains(e) && !index_laws::same(e.0, *k)),
        r is Retired <==> (r is Success || r is Retired) && old(l)@.len() == 1,
        !old(l).frozen() && old(l)@.contains(e) && index_laws::same(e.0, *k) ==> call_ensures(
            *condition,
            (&e.1,),
            r is Success || r is Retired,
        ),
{
    let s = old(l)@;
    index_laws::lemma_found(s, *k);
    index_laws::lemma_removed(s, *k, e);
    if s.contains(e) && index_laws::same(e.0, *k) {
        let i = choose|i: int| 0 <= i < s.len() && s[i] == e;
        sorted::lemma_found_at(s, *k, i);
    }
}

/// A bulk removal from a leaf takes away the entries in the range, and no other; a frozen leaf stays
/// as it is.
pub proof fn leaves_remove_ranges<K: Ord + Clone, V>(
    l: &mut Leaf<K, V>,
    range: &KeyRange<K>,
    e: (K, V),
)
    requires
        call_ensures(Leaf::<K, V>::remove_range, (l, range), ()),
        key::ordered_key::<K>(),
    ensures
        old(l).frozen() ==> final(l)@ == old(l)@,
        !old(l).frozen() ==> (final(l)@.contains(e) <==> old(l)@.contains(e) && !(
        index_laws::started(range.start, e.0) && index_laws::unended(range.end, e.0))),
{
    index_laws::lemma_kept(old(l)@, leaf::outside::<K, V>(*range), e);
    index_laws::endpoints_decide_alone(*range, e.0);
}

/// Cutting a leaf gives two that hold its entries between them, in order: as many in the first as the
/// boundary says.
pub proof fn leaves_are_cut_in_two<K: Ord + Clone, V>(
    l: Leaf<K, V>,
    boundary: usize,
    r: (Leaf<K, V>, Leaf<K, V>),
    m: Leaf<K, V>,
    s: (Leaf<K, V>, (K, V), Leaf<K, V>),
)
    requires
        call_ensures(Leaf::<K, V>::split, (l, boundary), r),
        call_ensures(Leaf::<K, V>::split_around, (m, boundary), s),
        1 <= boundary <= m@.len(),
    ensures
        l@ == r.0@ + r.1@,
        r.0@.len() == (if boundary <= l@.len() {
            boundary as nat
        } else {
            l@.len()
        }),
        m@ == s.0@ + seq![s.1] + s.2@,
        s.0@.len() == boundary - 1,
        !r.0.frozen() && !r.1.frozen() && !s.0.frozen() && !s.2.frozen(),
        !r.0.retired() && !r.1.retired() && !s.0.retired() && !s.2.retired(),
{
    assert(l@ =~= r.0@ + r.1@);
    assert(m@ =~= s.0@ + seq![s.1] + s.2@);
}

/// The entries of a leaf, listed, are all of them in order, and where it is to be cut.
pub proof fn leaves_list_their_entries<K: Ord + Clone, V>(
    l: &Leaf<K, V>,
    r: (Vec<(&K, &V)>, usize),
    point: usize,
    i: int,
)
    requires
        call_ensures(Leaf::<K, V>::distribute, (l,), r),
        call_ensures(Leaf::<K, V>::split_point, (l,), point),
    ensures
        r.0@.len() == l@.len(),
        0 <= i < r.0@.len() ==> *r.0@[i].0 == l@[i].0 && *r.0@[i].1 == l@[i].1,
        r.1 == point,
        1 <= point <= 13,
{
    if 0 <= i < r.0@.len() {
        assert((*r.0@[i].0, *r.0@[i].1) == l@[i]);
    }
}

/// A way along a leaf begins before its first entry, hands the entries out one by one, and begins anew
/// behind the last one; the entry that was handed out last is the one that it stands on.
pub proof fn ways_along_a_leaf<'l, K: Ord + Clone, V>(
    l: &'l Leaf<K, V>,
    begun: Iter<'l, K, V>,
    way: &mut Iter<'l, K, V>,
    r: Option<(&'l K, &'l V)>,
    here: Option<(&'l K, &'l V)>,
    first: bool,
    top: Option<&'l K>,
    again: &mut Iter<'l, K, V>,
)
    requires
        call_ensures(Iter::<'l, K, V>::new, (l,), begun),
        call_ensures(Iter::<'l, K, V>::next, (way,), r),
        call_ensures(Iter::<'l, K, V>::get, (final(way),), here),
        call_ensures(Iter::<'l, K, V>::rank_is_first, (final(way),), first),
        call_ensures(Iter::<'l, K, V>::max_key, (final(way),), top),
        call_ensures(Iter::<'l, K, V>::rewind, (again,), ()),
    ensures
        begun.rank() == 0 && begun.leaf() == *l,
        final(way).leaf() == old(way).leaf(),
        r is None <==> old(way).rank() == old(way).leaf()@.len(),
        r matches Some((k, v)) ==> (*k, *v) == old(way).leaf()@[old(way).rank()]
            && final(way).rank() == old(way).rank() + 1,
        old(way).rank() >= 0 ==> here == r,
        r is None ==> final(way).rank() == 0,
        first <==> final(way).rank() == 1,
        top is None <==> old(way).leaf()@.len() == 0,
        top matches Some(k) ==> *k == old(way).leaf()@.last().0,
        final(again).rank() == 0 && final(again).leaf() == old(again).leaf(),
{
}

/// A way back along a leaf hands its entries out from the last one; turned round, a way stands on the
/// same entry.
pub proof fn ways_back_along_a_leaf<'l, K: Ord + Clone, V>(
    l: &'l Leaf<K, V>,
    begun: RevIter<'l, K, V>,
    way: &mut RevIter<'l, K, V>,
    r: Option<(&'l K, &'l V)>,
    here: Option<(&'l K, &'l V)>,
    turned: Iter<'l, K, V>,
    there: Option<(&'l K, &'l V)>,
    forth: Iter<'l, K, V>,
    before: Option<(&'l K, &'l V)>,
    back: RevIter<'l, K, V>,
    after: Option<(&'l K, &'l V)>,
)
    requires
        call_ensures(RevIter::<'l, K, V>::new, (l,), begun),
        call_ensures(RevIter::<'l, K, V>::next, (way,), r),
        call_ensures(RevIter::<'l, K, V>::get, (final(way),), here),
        old(way).rev_rank() >= 0,
        call_ensures(RevIter::<'l, K, V>::rev, (*final(way),), turned),
        call_ensures(Iter::<'l, K, V>::get, (&turned,), there),
        call_ensures(Iter::<'l, K, V>::get, (&forth,), before),
        0 <= forth.rank() <= forth.leaf()@.len(),
        call_ensures(Iter::<'l, K, V>::rev, (forth,), back),
        call_ensures(RevIter::<'l, K, V>::get, (&back,), after),
    ensures
        begun.rev_rank() == 0 && begun.leaf() == *l,
        r is None <==> old(way).rev_rank() == old(way).leaf()@.len(),
        r matches Some((k, v)) ==> (*k, *v) == old(way).leaf()@[old(way).leaf()@.len() - 1 - old(
            way
        ).rev_rank()] && final(way).rev_rank() == old(way).rev_rank() + 1,
        here == r,
        there == r,
        after == before,
{
}

/// A node of leaves takes an entry where it does not have the key and has not to be split, and looks
/// keys up among the entries of all its leaves.
pub proof fn leaf_nodes_take_and_find_keys<K: Ord + Clone, V>(
    n: &mut LeafNode<K, V>,
    k: K,
    v: V,
    r: InsertResult<K, V>,
    fresh: LeafNode<K, V>,
    m: &LeafNode<K, V>,
    key: &K,
    entry: Option<(&K, &V)>,
    value: Option<&V>,
    e: (K, V),
)
    requires
        call_ensures(LeafNode::<K, V>::insert, (n, k, v), r),
        call_ensures(LeafNode::<K, V>::new, (), fresh),
        call_ensures(LeafNode::<K, V>::search_entry, (m, key), entry),
        call_ensures(LeafNode::<K, V>::search_value, (m, key), value),
        key::ordered_key::<K>(),
        sorted::sorted(old(n)@),
        sorted::sorted(m@),
    ensures
        fresh@.len() == 0 && !fresh.retired(),
        handed_back(r, k, v),
        r is Duplicate <==> index_laws::has_entry(old(n)@, k),
        r is Success <==> !index_laws::has_entry(old(n)@, k) && !old(n).must_split(k),
        !(r is Success) ==> final(n)@ == old(n)@,
        r is Success ==> final(n)@.len() == old(n)@.len() + 1 && (final(n)@.contains(e) <==> e == (
        k, v) || old(n)@.contains(e)),
        entry is Some <==> index_laws::has_entry(m@, *key),
        value is Some <==> entry is Some,
        m@.contains(e) && index_laws::same(e.0, *key) ==> entry == Some((&e.0, &e.1)) && value
            == Some(&e.1),
{
    index_laws::lemma_found(old(n)@, k);
    if r is Success {
        index_laws::lemma_inserted(old(n)@, k, v, e);
    }
    let s = m@;
    index_laws::lemma_found(s, *key);
    if s.contains(e) && index_laws::same(e.0, *key) {
        let i = choose|i: int| 0 <= i < s.len() && s[i] == e;
        sorted::lemma_found_at(s, *key, i);
    }
}

/// The nodes above take and find keys in the same way.
pub proof fn internal_nodes_take_and_find_keys<K: Ord + Clone, V>(
    n: &mut InternalNode<K, V>,
    k: K,
    v: V,
    r: InsertResult<K, V>,
    m: &InternalNode<K, V>,
    key: &K,
    entry: Option<(&K, &V)>,
    e: (K, V),
)
    requires
        call_ensures(InternalNode::<K, V>::insert, (n, k, v), r),
        call_ensures(InternalNode::<K, V>::search_entry, (m, key), entry),
        key::ordered_key::<K>(),
        sorted::sorted(old(n).entries()),
        sorted::sorted(m.entries()),
    ensures
        handed_back(r, k, v),
        r is Duplicate <==> index_laws::has_entry(old(n).entries(), k),
        !(r is Success) ==> final(n).entries() == old(n).entries(),
        r is Success ==> final(n).entries().len() == old(n).entries().len() + 1 && (final(
            n
        ).entries().contains(e) <==> e == (k, v) || old(n).entries().contains(e)),
        entry is Some <==> index_laws::has_entry(m.entries(), *key),
        m.entries().contains(e) && index_laws::same(e.0, *key) ==> entry == Some((&e.0, &e.1)),
{
    index_laws::lemma_found(old(n).entries(), k);
    if r is Success {
        index_laws::lemma_inserted(old(n).entries(), k, v, e);
    }
    let s = m.entries();
    index_laws::lemma_found(s, *key);
    if s.contains(e) && index_laws::same(e.0, *key) {
        let i = choose|i: int| 0 <= i < s.len() && s[i] == e;
        sorted::lemma_found_at(s, *key, i);
    }
}

/// Removals from the nodes take away the entry with the key and no other, where the condition says so.
pub proof fn nodes_remove_keys<K: Ord + Clone, V, F: Fn(&V) -> bool>(
    a: &mut LeafNode<K, V>,
    b: &mut InternalNode<K, V>,
    k: &K,
    condition: &F,
    r: RemoveResult,
    q: RemoveResult,
    e: (K, V),
)
    requires
        call_ensures(LeafNode::<K, V>::remove_if::<F>, (a, k, condition), r),
        call_ensures(InternalNode::<K, V>::remove_if::<F>, (b, k, condition), q),
        key::ordered_key::<K>(),
        sorted::sorted(old(a)@),
        sorted::sorted(old(b).entries()),
    ensures
        r is Fail ==> final(a)@ == old(a)@,
        !(r is Fail) ==> index_laws::has_entry(old(a)@, *k) && (final(a)@.contains(e) <==> old(
            a
        )@.contains(e) && !index_laws::same(e.0, *k)),
        r is Retired <==> !(r is Fail) && old(a)@.len() == 1,
        old(a)@.contains(e) && index_laws::same(e.0, *k) ==> call_ensures(
            *condition,
            (&e.1,),
            !(r is Fail),
        ),
        q is Fail ==> final(b).entries() == old(b).entries(),
        !(q is Fail) ==> index_laws::has_entry(old(b).entries(), *k) && (final(
            b
        ).entries().contains(e) <==> old(b).entries().contains(e) && !index_laws::same(e.0, *k)),
        old(b).entries().contains(e) && index_laws::same(e.0, *k) ==> call_ensures(
            *condition,
            (&e.1,),
            !(q is Fail),
        ),
{
    let s = old(a)@;
    index_laws::lemma_found(s, *k);
    index_laws::lemma_removed(s, *k, e);
    if s.contains(e) && index_laws::same(e.0, *k) {
        let i = choose|i: int| 0 <= i < s.len() && s[i] == e;
        sorted::lemma_found_at(s, *k, i);
    }
    let t = old(b).entries();
    index_laws::lemma_found(t, *k);
    index_laws::lemma_removed(t, *k, e);
    if t.contains(e) && index_laws::same(e.0, *k) {
        let i = choose|i: int| 0 <= i < t.len() && t[i] == e;
        sorted::lemma_found_at(t, *k, i);
    }
}

/// A node above another one lies one level deeper in all that counts levels; a node of leaves lies at
/// the bottom.
pub proof fn levels_are_counted<K: Ord + Clone, V>(
    child: Node<K, V>,
    parent: InternalNode<K, V>,
    bottom: Node<K, V>,
    d: usize,
    r: usize,
    s: usize,
    h: nat,
)
    requires
        call_ensures(InternalNode::<K, V>::with_child, (child,), parent),
        child.wf_in(h, None, None),
        !child.retired(),
        key::ordered_key::<K>(),
        call_ensures(Node::<K, V>::depth, (&child, d), r),
        call_ensures(InternalNode::<K, V>::depth, (&parent, d), s),
        call_ensures(Node::<K, V>::new_leaf_node, (), bottom),
    ensures
        r == d + h,
        s == r + 1,
        parent.seq(h + 1) == child.seq(h),
        bottom.height() == 0 && bottom.seq(0).len() == 0,
{
    child.lemma_wf(h, None, None);
    assert(parent.wf_in(h + 1, None, None));
    parent.lemma_wf(h + 1, None, None);
}

/// Going along a chain of leaves goes from each entry to the next one, and back to the one before; it
/// begins with the first entry behind a leaf, and ends behind the last.
pub proof fn ways_along_a_chain<'l, K: Ord + Clone, V>(
    leaves: &Vec<&'l Leaf<K, V>>,
    from: usize,
    first: Option<chain::Cursor<'l, K, V>>,
    last: Option<chain::RevCursor<'l, K, V>>,
    c: chain::Cursor<'l, K, V>,
    next: Option<chain::Cursor<'l, K, V>>,
    d: chain::RevCursor<'l, K, V>,
    back: Option<chain::RevCursor<'l, K, V>>,
)
    requires
        call_ensures(chain::enter::<K, V>, (leaves, from), first),
        call_ensures(chain::enter_back::<K, V>, (leaves, from), last),
        call_ensures(chain::advance::<K, V>, (leaves, c), next),
        call_ensures(chain::retreat::<K, V>, (leaves, d), back),
    ensures
        first matches Some(x) ==> x.index(leaves@) == chain::before(leaves@, from as int),
        first is None ==> chain::before(leaves@, from as int) == chain::joined(leaves@).len(),
        last matches Some(x) ==> x.index(leaves@) + 1 == chain::before(leaves@, from as int),
        last is None ==> chain::before(leaves@, from as int) == 0,
        next matches Some(x) ==> x.index(leaves@) == c.index(leaves@) + 1,
        next is None ==> c.index(leaves@) == chain::joined(leaves@).len() - 1,
        back matches Some(x) ==> x.index(leaves@) == d.index(leaves@) - 1,
        back is None ==> d.index(leaves@) == 0,
{
}

} // verus!
