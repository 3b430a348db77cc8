//! What callers of the tree see: which keys a range takes in, and what each operation finds,
//! changes and leaves alone, in the order that the keys have themselves.

use core::cmp::Ordering;
use vstd::prelude::*;
use vstd::std_specs::cmp::{OrdSpec, PartialEqSpec};
use crate::tree::key;
use crate::tree::key::{compare, KeyOrder};
use crate::tree::leaf;
use crate::tree::range::{range_contains, KeyBound, KeyRange, RemoveRangeState};
use crate::tree::sorted;
use crate::tree::tree_index;
use crate::tree::tree_index::{Iter, Range, TreeIndex};

verus! {

/// The key comes before the other one.
pub open spec fn below<K: Ord>(a: K, b: K) -> bool {
    a.cmp_spec(&b) == Ordering::Less
}

/// The keys have the same place.
pub open spec fn same<K: Ord>(a: K, b: K) -> bool {
    a.cmp_spec(&b) == Ordering::Equal
}

/// The order of the tree is that of the keys.
pub proof fn order_is_that_of_the_keys<K: Ord + Clone>(a: &K, b: &K, o: KeyOrder)
    requires
        call_ensures(compare::<K>, (a, b), o),
        key::ordered_key::<K>(),
    ensures
        o == KeyOrder::Less <==> a.cmp_spec(b) == Ordering::Less,
        o == KeyOrder::Equal <==> a.cmp_spec(b) == Ordering::Equal,
        o == KeyOrder::Greater <==> a.cmp_spec(b) == Ordering::Greater,
{
    key::lemma_order::<K>();
    assert(key::key_lt(*a, *b) || key::key_eq(*a, *b) || key::key_lt(*b, *a));
}

/// The key does not come before the start.
pub open spec fn started<K: Ord>(start: KeyBound<K>, k: K) -> bool {
    &&& start matches KeyBound::Included(s) ==> below(s, k) || same(s, k)
    &&& start matches KeyBound::Excluded(s) ==> below(s, k)
}

/// The key does not come behind the end.
pub open spec fn unended<K: Ord>(end: KeyBound<K>, k: K) -> bool {
    &&& end matches KeyBound::Included(e) ==> below(k, e) || same(k, e)
    &&& end matches KeyBound::Excluded(e) ==> below(k, e)
}

/// A key lies in a range exactly where it does not come before the start and not behind the end;
/// what each endpoint says does not depend on the other one.
pub proof fn endpoints_decide_alone<K: Ord + Clone>(range: KeyRange<K>, k: K)
    requires
        key::ordered_key::<K>(),
    ensures
        range.has_key(k) <==> started(range.start, k) && unended(range.end, k),
        range.from_start(k) <==> started(range.start, k),
        range.to_end(k) <==> unended(range.end, k),
{
    key::lemma_order::<K>();
    match range.start {
        KeyBound::Included(s) => {
            assert(key::key_lt(s, k) || key::key_eq(s, k) || key::key_lt(k, s));
        },
        _ => {},
    }
    match range.end {
        KeyBound::Included(e) => {
            assert(key::key_lt(e, k) || key::key_eq(e, k) || key::key_lt(k, e));
        },
        _ => {},
    }
}

/// Whatever the start of a range is, a key that equals an included end and does not come before the
/// start lies in the range, and one that equals an excluded end does not.
pub proof fn end_is_in_where_included<K: Ord + Clone>(range: KeyRange<K>, e: K, k: K)
    requires
        key::ordered_key::<K>(),
        same(k, e),
    ensures
        range.end == KeyBound::Included(e) && started(range.start, k) ==> range.has_key(k),
        range.end == KeyBound::Excluded(e) ==> !range.has_key(k),
{
    endpoints_decide_alone(range, k);
}

/// Whatever the end of a range is, a key that equals an included start and does not come behind the
/// end lies in the range, and one that equals an excluded start does not.
pub proof fn start_is_in_where_included<K: Ord + Clone>(range: KeyRange<K>, s: K, k: K)
    requires
        key::ordered_key::<K>(),
        same(s, k),
    ensures
        range.start == KeyBound::Included(s) && unended(range.end, k) ==> range.has_key(k),
        range.start == KeyBound::Excluded(s) ==> !range.has_key(k),
{
    endpoints_decide_alone(range, k);
}

/// Ranges with the same end agree on the keys that come before neither start, and ranges with the
/// same start on those that come behind neither end.
pub proof fn ranges_agree_at_a_shared_endpoint<K: Ord + Clone>(
    a: KeyRange<K>,
    b: KeyRange<K>,
    k: K,
)
    requires
        key::ordered_key::<K>(),
    ensures
        a.end == b.end && started(a.start, k) && started(b.start, k) ==> a.has_key(k)
            == b.has_key(k),
        a.start == b.start && unended(a.end, k) && unended(b.end, k) ==> a.has_key(k)
            == b.has_key(k),
{
    endpoints_decide_alone(a, k);
    endpoints_decide_alone(b, k);
}

/// An unbounded endpoint takes in every key on its side.
pub proof fn unbounded_takes_all<K: Ord + Clone>(range: KeyRange<K>, k: K)
    requires
        key::ordered_key::<K>(),
    ensures
        range.start is Unbounded && range.end is Unbounded ==> range.has_key(k),
        range.start is Unbounded && unended(range.end, k) ==> range.has_key(k),
        range.end is Unbounded && started(range.start, k) ==> range.has_key(k),
{
    endpoints_decide_alone(range, k);
}

/// Asking whether a range contains a key is answered by its endpoints.
pub proof fn containing_is_lying_between<K: Ord + Clone>(range: &KeyRange<K>, k: &K, r: bool)
    requires
        call_ensures(range_contains::<K>, (range, k), r),
        key::ordered_key::<K>(),
    ensures
        r <==> started(range.start, *k) && unended(range.end, *k),
{
    endpoints_decide_alone(*range, *k);
}

/// The usual ranges reach from the one key to the other.
pub proof fn usual_ranges_reach<K: Ord + Clone>(
    start: K,
    end: K,
    between: KeyRange<K>,
    through: KeyRange<K>,
    full: KeyRange<K>,
    k: K,
)
    requires
        call_ensures(KeyRange::<K>::between, (start, end), between),
        call_ensures(KeyRange::<K>::through, (start, end), through),
        call_ensures(KeyRange::<K>::full, (), full),
        key::ordered_key::<K>(),
    ensures
        between.has_key(k) <==> (below(start, k) || same(start, k)) && below(k, end),
        through.has_key(k) <==> (below(start, k) || same(start, k)) && (below(k, end) || same(
            k,
            end,
        )),
        full.has_key(k),
{
    endpoints_decide_alone(between, k);
    endpoints_decide_alone(through, k);
    endpoints_decide_alone(full, k);
}

/// A bulk removal takes a node as wholly contained only where its largest key lies in the range.
pub proof fn removal_goes_by_the_endpoints<K: Ord + Clone>(
    state: RemoveRangeState,
    k: &K,
    range: &KeyRange<K>,
    start_unbounded: bool,
    r: RemoveRangeState,
)
    requires
        call_ensures(RemoveRangeState::next::<K>, (state, k, range, start_unbounded), r),
        key::ordered_key::<K>(),
    ensures
        r is FullyContained || r is MaybeBelow <==> started(range.start, *k) && unended(
            range.end,
            *k,
        ),
        r is MaybeBelow ==> state is Below && !start_unbounded,
        r is FullyContained ==> start_unbounded || !(state is Below),
        r is Below ==> state is Below && !started(range.start, *k),
        r is MaybeAbove ==> !unended(range.end, *k) || !(state is Below) || started(
            range.start,
            *k,
        ),
{
    endpoints_decide_alone(*range, *k);
}

/// What is left of a sequence is what it holds and what is to be kept.
pub proof fn lemma_kept<E>(s: Seq<E>, f: spec_fn(E) -> bool, e: E)
    ensures
        s.filter(f).contains(e) <==> s.contains(e) && f(e),
    decreases s.len(),
{
    reveal(Seq::filter);
    if s.len() > 0 {
        let d = s.drop_last();
        lemma_kept(d, f, e);
        assert(s =~= d.push(s.last()));
        let kept = d.filter(f);
        if s.contains(e) {
            let i = choose|i: int| 0 <= i < s.len() && s[i] == e;
            if i < d.len() {
                assert(d[i] == e);
            }
        }
        if d.contains(e) {
            let i = choose|i: int| 0 <= i < d.len() && d[i] == e;
            assert(s[i] == e);
        }
        if f(s.last()) {
            assert(s.filter(f) == kept.push(s.last()));
            assert(kept.push(s.last())[kept.len() as int] == s.last());
            if kept.contains(e) {
                let i = choose|i: int| 0 <= i < kept.len() && kept[i] == e;
                assert(kept.push(s.last())[i] == e);
            }
            if s.filter(f).contains(e) {
                let i = choose|i: int| 0 <= i < s.filter(f).len() && s.filter(f)[i] == e;
                if i < kept.len() {
                    assert(kept[i] == e);
                }
            }
            assert(s[s.len() - 1] == s.last());
        }
    }
}

/// The entries are in the order of their keys, each key once.
pub open spec fn ascending<K: Ord, V>(s: Seq<(K, V)>) -> bool {
    forall|i: int, j: int| 0 <= i < j < s.len() ==> below((#[trigger] s[i]).0, (#[trigger] s[j]).0)
}

/// The entries of a tree are in the order of their keys.
pub proof fn entries_ascend<K: Ord + Clone, V>(index: TreeIndex<K, V>)
    requires
        index.wf(),
        key::ordered_key::<K>(),
    ensures
        ascending(index@),
{
    index.lemma_sorted();
}

/// A scan of a range hands out exactly the entries whose keys lie between the endpoints, in the
/// order of their keys.
pub proof fn scans_keep_to_the_range<'t, K: Ord + Clone, V>(
    index: &'t TreeIndex<K, V>,
    range: KeyRange<K>,
    r: Range<'t, K, V>,
    e: (K, V),
)
    requires
        call_ensures(TreeIndex::<K, V>::range, (index, range), r),
        index.wf(),
        key::ordered_key::<K>(),
    ensures
        r.wf(),
        ascending(r.rest()),
        r.rest().contains(e) <==> index@.contains(e) && started(range.start, e.0) && unended(
            range.end,
            e.0,
        ),
{
    index.lemma_sorted();
    let f = tree_index::within::<K, V>(range);
    sorted::lemma_filter_sorted(index@, f);
    lemma_kept(index@, f, e);
    endpoints_decide_alone(range, e.0);
}

/// Each step of a scan hands out the first of the entries that are left, and ends where none is.
pub proof fn scans_go_forward<'t, K: Ord + Clone, V>(
    range: &mut Range<'t, K, V>,
    r: Option<(&'t K, &'t V)>,
)
    requires
        call_ensures(Range::<'t, K, V>::next, (range,), r),
    ensures
        r is Some <==> old(range).rest().len() > 0,
        r matches Some((k, v)) ==> old(range).rest() == seq![(*k, *v)] + final(range).rest(),
        r is None ==> final(range).rest().len() == 0,
{
    if let Some((k, v)) = r {
        assert(old(range).rest() =~= seq![(*k, *v)] + final(range).rest());
    }
}

/// A scan of all entries hands them out from either end, each of them once.
pub proof fn iteration_goes_both_ways<'t, K: Ord + Clone, V>(
    index: &'t TreeIndex<K, V>,
    whole: Iter<'t, K, V>,
    iter: &mut Iter<'t, K, V>,
    r: Option<(&'t K, &'t V)>,
    back: &mut Iter<'t, K, V>,
    s: Option<(&'t K, &'t V)>,
)
    requires
        call_ensures(TreeIndex::<K, V>::iter, (index,), whole),
        call_ensures(Iter::<'t, K, V>::next, (iter,), r),
        call_ensures(Iter::<'t, K, V>::next_back, (back,), s),
    ensures
        whole.rest() == index@,
        r is Some <==> old(iter).rest().len() > 0,
        r matches Some((k, v)) ==> old(iter).rest() == seq![(*k, *v)] + final(iter).rest(),
        s is Some <==> old(back).rest().len() > 0,
        s matches Some((k, v)) ==> old(back).rest() == final(back).rest() + seq![(*k, *v)],
        r is None ==> final(iter).rest().len() == 0,
        s is None ==> final(back).rest().len() == 0,
{
    if let Some((k, v)) = r {
        assert(old(iter).rest() =~= seq![(*k, *v)] + final(iter).rest());
    }
    if let Some((k, v)) = s {
        assert(old(back).rest() =~= final(back).rest() + seq![(*k, *v)]);
    }
}

/// A bulk removal takes away exactly the entries whose keys lie between the endpoints, and leaves
/// the others in their order.
pub proof fn bulk_removal_keeps_to_the_range<K: Ord + Clone, V>(
    index: &mut TreeIndex<K, V>,
    range: KeyRange<K>,
    e: (K, V),
)
    requires
        call_ensures(TreeIndex::<K, V>::remove_range_sync, (index, range), ()),
        old(index).wf(),
        key::ordered_key::<K>(),
    ensures
        final(index).wf(),
        ascending(final(index)@),
        final(index)@.contains(e) <==> old(index)@.contains(e) && !(started(range.start, e.0)
            && unended(range.end, e.0)),
{
    old(index).lemma_sorted();
    let f = leaf::outside::<K, V>(range);
    sorted::lemma_filter_sorted(old(index)@, f);
    lemma_kept(old(index)@, f, e);
    endpoints_decide_alone(range, e.0);
}

/// An entry has the key.
pub open spec fn has_entry<K: Ord, V>(s: Seq<(K, V)>, k: K) -> bool {
    exists|i: int| 0 <= i < s.len() && same((#[trigger] s[i]).0, k)
}

/// A key is found where an entry has it.
pub proof fn lemma_found<K: Ord + Clone, V>(s: Seq<(K, V)>, k: K)
    requires
        key::ordered_key::<K>(),
        sorted::sorted(s),
    ensures
        sorted::found(s, k) <==> has_entry(s, k),
        0 <= sorted::place(s, k) <= s.len(),
        sorted::found(s, k) ==> s.contains(s[sorted::place(s, k)]),
{
    sorted::lemma_place(s, k);
    if has_entry(s, k) {
        let i = choose|i: int| 0 <= i < s.len() && same((#[trigger] s[i]).0, k);
        sorted::lemma_found_at(s, k, i);
    }
    if sorted::found(s, k) {
        assert(same(s[sorted::place(s, k)].0, k));
    }
}

/// An insertion succeeds exactly where no entry has the key, and then the entries are those from
/// before and the new one; otherwise it hands back what was to be inserted and changes nothing.
pub proof fn insertion_adds_the_entry<K: Ord + Clone, V>(
    index: &mut TreeIndex<K, V>,
    k: K,
    v: V,
    r: Result<(), (K, V)>,
    e: (K, V),
)
    requires
        call_ensures(TreeIndex::<K, V>::insert_sync, (index, k, v), r),
        old(index).wf(),
        key::ordered_key::<K>(),
    ensures
        final(index).wf(),
        ascending(final(index)@),
        r is Err <==> has_entry(old(index)@, k),
        r matches Err(x) ==> x == (k, v) && final(index)@ == old(index)@,
        r is Ok ==> final(index)@.len() == old(index)@.len() + 1 && (final(index)@.contains(e)
            <==> e == (k, v) || old(index)@.contains(e)),
{
    old(index).lemma_sorted();
    final(index).lemma_sorted();
    let s = old(index)@;
    lemma_found(s, k);
    if r is Ok {
        lemma_inserted(s, k, v, e);
    }
}

/// What is there after an insertion is what was there and the new entry.
pub proof fn lemma_inserted<K: Ord + Clone, V>(s: Seq<(K, V)>, k: K, v: V, e: (K, V))
    requires
        key::ordered_key::<K>(),
        sorted::sorted(s),
    ensures
        sorted::inserted(s, k, v).len() == s.len() + 1,
        sorted::inserted(s, k, v).contains(e) <==> e == (k, v) || s.contains(e),
{
    sorted::lemma_place(s, k);
    let p = sorted::place(s, k);
    let t = sorted::inserted(s, k, v);
    assert(t[p] == (k, v));
    if s.contains(e) {
        let i = choose|i: int| 0 <= i < s.len() && s[i] == e;
        assert(t[if i < p { i } else { i + 1 }] == e);
    }
    if t.contains(e) {
        let i = choose|i: int| 0 <= i < t.len() && t[i] == e;
        if i != p {
            assert(s[if i < p { i } else { i - 1 }] == e);
        }
    }
}

/// A removal succeeds exactly where an entry has the key, and takes away that entry and no other.
pub proof fn removal_takes_the_entry<K: Ord + Clone, V>(
    index: &mut TreeIndex<K, V>,
    k: &K,
    r: bool,
    e: (K, V),
)
    requires
        call_ensures(TreeIndex::<K, V>::remove_sync, (index, k), r),
        old(index).wf(),
        key::ordered_key::<K>(),
    ensures
        final(index).wf(),
        ascending(final(index)@),
        r <==> has_entry(old(index)@, *k),
        final(index)@.contains(e) <==> old(index)@.contains(e) && !same(e.0, *k),
{
    old(index).lemma_sorted();
    final(index).lemma_sorted();
    lemma_found(old(index)@, *k);
    lemma_removed(old(index)@, *k, e);
}

/// What is left after a removal is what has another key.
pub proof fn lemma_removed<K: Ord + Clone, V>(s: Seq<(K, V)>, k: K, e: (K, V))
    requires
        key::ordered_key::<K>(),
        sorted::sorted(s),
    ensures
        sorted::found(s, k) ==> (sorted::removed(s, k).contains(e) <==> s.contains(e) && !same(
            e.0,
            k,
        )),
        !sorted::found(s, k) && s.contains(e) ==> !same(e.0, k),
{
    lemma_found(s, k);
    let p = sorted::place(s, k);
    if s.contains(e) {
        let i = choose|i: int| 0 <= i < s.len() && s[i] == e;
        if same(e.0, k) {
            sorted::lemma_found_at(s, k, i);
        } else if sorted::found(s, k) {
            let t = sorted::removed(s, k);
            assert(i != p);
            assert(t[if i < p { i } else { i - 1 }] == e);
        }
    }
    if sorted::found(s, k) {
        let t = sorted::removed(s, k);
        if t.contains(e) {
            let i = choose|i: int| 0 <= i < t.len() && t[i] == e;
            let j = if i < p { i } else { i + 1 };
            assert(s[j] == e);
            if same(e.0, k) {
                sorted::lemma_found_at(s, k, j);
            }
        }
    }
}

/// A removal under a condition changes nothing where no entry has the key or the condition says no;
/// otherwise the entry with the key goes, and no other. The condition is asked of the value of that
/// entry alone.
pub proof fn conditional_removal_asks_the_value<K: Ord + Clone, V, F: Fn(&V) -> bool>(
    index: &mut TreeIndex<K, V>,
    k: &K,
    condition: F,
    r: bool,
    e: (K, V),
)
    requires
        call_ensures(TreeIndex::<K, V>::remove_if_sync::<F>, (index, k, condition), r),
        old(index).wf(),
        key::ordered_key::<K>(),
    ensures
        final(index).wf(),
        r ==> has_entry(old(index)@, *k),
        old(index)@.contains(e) && same(e.0, *k) ==> call_ensures(condition, (&e.1,), r),
        !r ==> final(index)@ == old(index)@,
        r ==> (final(index)@.contains(e) <==> old(index)@.contains(e) && !same(e.0, *k)),
{
    old(index).lemma_sorted();
    let s = old(index)@;
    lemma_found(s, *k);
    lemma_removed(s, *k, e);
    if s.contains(e) && same(e.0, *k) {
        let i = choose|i: int| 0 <= i < s.len() && s[i] == e;
        sorted::lemma_found_at(s, *k, i);
    }
}

/// Looking a key up finds the entry with the key, where there is one.
pub proof fn lookups_find_the_entry<K: Ord + Clone, V>(
    index: &TreeIndex<K, V>,
    k: &K,
    value: Option<&V>,
    entry: Option<(&K, &V)>,
    there: bool,
    e: (K, V),
)
    requires
        call_ensures(TreeIndex::<K, V>::peek, (index, k), value),
        call_ensures(TreeIndex::<K, V>::peek_entry, (index, k), entry),
        call_ensures(TreeIndex::<K, V>::contains, (index, k), there),
        index.wf(),
        key::ordered_key::<K>(),
    ensures
        there <==> has_entry(index@, *k),
        value is Some <==> there,
        entry is Some <==> there,
        entry matches Some(x) ==> index@.contains((*x.0, *x.1)) && same(*x.0, *k),
        index@.contains(e) && same(e.0, *k) ==> value == Some(&e.1) && entry == Some((&e.0, &e.1)),
{
    index.lemma_sorted();
    let s = index@;
    lemma_found(s, *k);
    if s.contains(e) && same(e.0, *k) {
        let i = choose|i: int| 0 <= i < s.len() && s[i] == e;
        sorted::lemma_found_at(s, *k, i);
    }
}

/// A reader is shown the entry with the key.
pub proof fn readers_see_the_entry<K: Ord + Clone, V, R, F: FnOnce(&K, &V) -> R>(
    index: &TreeIndex<K, V>,
    k: &K,
    reader: F,
    r: Option<R>,
    e: (K, V),
)
    requires
        call_ensures(TreeIndex::<K, V>::peek_with::<R, F>, (index, k, reader), r),
        index.wf(),
        key::ordered_key::<K>(),
    ensures
        r is Some <==> has_entry(index@, *k),
        index@.contains(e) && same(e.0, *k) ==> r is Some && call_ensures(
            reader,
            (&e.0, &e.1),
            r->0,
        ),
{
    index.lemma_sorted();
    let s = index@;
    lemma_found(s, *k);
    if s.contains(e) && same(e.0, *k) {
        let i = choose|i: int| 0 <= i < s.len() && s[i] == e;
        sorted::lemma_found_at(s, *k, i);
    }
}

/// A new tree and a cleared one hold nothing; the length counts the entries.
pub proof fn length_counts_entries<K: Ord + Clone, V>(
    fresh: TreeIndex<K, V>,
    cleared: &mut TreeIndex<K, V>,
    index: &TreeIndex<K, V>,
    n: usize,
    empty: bool,
)
    requires
        call_ensures(TreeIndex::<K, V>::new, (), fresh),
        call_ensures(TreeIndex::<K, V>::clear, (cleared,), ()),
        call_ensures(TreeIndex::<K, V>::len, (index,), n),
        call_ensures(TreeIndex::<K, V>::is_empty, (index,), empty),
    ensures
        fresh@.len() == 0,
        final(cleared)@.len() == 0,
        n == index@.len(),
        empty <==> n == 0,
{
}

/// An empty tree has no level, and one after its first entry; each further entry adds a level at most.
pub proof fn levels_grow_one_by_one<K: Ord + Clone, V>(
    fresh: TreeIndex<K, V>,
    none: usize,
    index: &mut TreeIndex<K, V>,
    k: K,
    v: V,
    r: Result<(), (K, V)>,
    before: usize,
    after: usize,
)
    requires
        call_ensures(TreeIndex::<K, V>::new, (), fresh),
        call_ensures(TreeIndex::<K, V>::depth, (&fresh,), none),
        call_ensures(TreeIndex::<K, V>::insert_sync, (index, k, v), r),
        call_ensures(TreeIndex::<K, V>::depth, (old(index),), before),
        call_ensures(TreeIndex::<K, V>::depth, (final(index),), after),
    ensures
        none == 0,
        before == 0 ==> after == 1,
        before > 0 ==> after == before || (r is Ok && after == before + 1),
{
}

/// A clone holds a clone of each entry, in the same place.
pub proof fn clones_hold_clones<K: Ord + Clone, V: Clone>(
    index: &TreeIndex<K, V>,
    r: TreeIndex<K, V>,
    i: int,
)
    requires
        call_ensures(TreeIndex::<K, V>::clone, (index,), r),
        key::ordered_key::<K>(),
    ensures
        r@.len() == index@.len(),
        0 <= i < r@.len() ==> cloned(index@[i].0, r@[i].0) && cloned(index@[i].1, r@[i].1) && same(
            index@[i].0,
            r@[i].0,
        ),
{
    if 0 <= i < r@.len() {
        assert(cloned(index@[i].0, r@[i].0));
    }
}

/// Trees are equal exactly where they hold as many entries, with keys and values that are equal one
/// by one.
pub proof fn equality_compares_entries<K: Ord + Clone, V: PartialEq>(
    a: &TreeIndex<K, V>,
    b: &TreeIndex<K, V>,
    r: bool,
    i: int,
)
    requires
        call_ensures(TreeIndex::<K, V>::eq, (a, b), r),
    ensures
        r ==> a@.len() == b@.len(),
        r && 0 <= i < a@.len() ==> same(a@[i].0, b@[i].0) && a@[i].1.eq_spec(&b@[i].1),
        !r && a@.len() == b@.len() ==> exists|j: int|
            0 <= j < a@.len() && !(same((#[trigger] a@[j]).0, b@[j].0) && a@[j].1.eq_spec(
                &b@[j].1,
            )),
{
    if r && 0 <= i < a@.len() {
        assert(tree_index::equal_entries(a@[i], b@[i]));
    }
}

} // verus!
