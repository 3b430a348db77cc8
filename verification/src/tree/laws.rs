//! What holds of the tree as a whole, whatever operations it went through.

use vstd::prelude::*;
use crate::tree::key;
use crate::tree::parts;
use crate::tree::range::KeyRange;
use crate::tree::sorted;
use crate::tree::tree_index;

verus! {

/// What was inserted is found, and nothing else changes: every other key is answered as before.
pub proof fn insert_lookup<K: Ord + Clone, V>(s: Seq<(K, V)>, k: K, v: V, other: K)
    requires
        key::ordered_key::<K>(),
        sorted::sorted(s),
        !sorted::found(s, k),
    ensures
        sorted::sorted(sorted::inserted(s, k, v)),
        sorted::lookup(sorted::inserted(s, k, v), k) == Some((k, v)),
        !key::key_eq(other, k) ==> sorted::lookup(sorted::inserted(s, k, v), other)
            == sorted::lookup(s, other),
{
    key::lemma_order::<K>();
    sorted::lemma_inserted(s, k, v);
    let p = sorted::place(s, k);
    let t = sorted::inserted(s, k, v);
    sorted::lemma_place(s, k);
    assert(t[p] == (k, v));
    sorted::lemma_found_at(t, k, p);
    if !key::key_eq(other, k) {
        if sorted::found(s, other) {
            let q = sorted::place(s, other);
            sorted::lemma_place(s, other);
            let r = if q < p { q } else { q + 1 };
            assert(t[r] == s[q]);
            sorted::lemma_found_at(t, other, r);
        } else {
            assert forall|i: int| 0 <= i < t.len() implies !key::key_eq(
                #[trigger] t[i].0,
                other,
            ) by {
                if i == p {
                    assert(key::key_eq(k, other) ==> key::key_eq(other, k));
                } else {
                    let j = if i < p { i } else { i - 1 };
                    assert(t[i] == s[j]);
                    if key::key_eq(s[j].0, other) {
                        sorted::lemma_found_at(s, other, j);
                    }
                }
            }
            sorted::lemma_not_found(t, other);
        }
    }
}

/// What was removed is gone, and every other key is answered as before.
pub proof fn remove_lookup<K: Ord + Clone, V>(s: Seq<(K, V)>, k: K, other: K)
    requires
        key::ordered_key::<K>(),
        sorted::sorted(s),
        sorted::found(s, k),
    ensures
        sorted::sorted(sorted::removed(s, k)),
        !sorted::found(sorted::removed(s, k), k),
        !key::key_eq(other, k) ==> sorted::lookup(sorted::removed(s, k), other) == sorted::lookup(
            s,
            other,
        ),
{
    key::lemma_order::<K>();
    let p = sorted::place(s, k);
    let t = sorted::removed(s, k);
    sorted::lemma_place(s, k);
    sorted::lemma_removed(s, p);
    assert forall|i: int| 0 <= i < t.len() implies !key::key_eq(#[trigger] t[i].0, k) by {
        let j = if i < p { i } else { i + 1 };
        assert(t[i] == s[j]);
        if key::key_eq(s[j].0, k) {
            sorted::lemma_found_at(s, k, j);
        }
    }
    sorted::lemma_not_found(t, k);
    if !key::key_eq(other, k) {
        if sorted::found(s, other) {
            let q = sorted::place(s, other);
            sorted::lemma_place(s, other);
            if q == p {
                assert(key::key_eq(other, s[p].0));
                assert(key::key_eq(s[p].0, k));
            }
            let r = if q < p { q } else { q - 1 };
            assert(t[r] == s[q]);
            sorted::lemma_found_at(t, other, r);
        } else {
            assert forall|i: int| 0 <= i < t.len() implies !key::key_eq(
                #[trigger] t[i].0,
                other,
            ) by {
                let j = if i < p { i } else { i + 1 };
                assert(t[i] == s[j]);
                if key::key_eq(s[j].0, other) {
                    sorted::lemma_found_at(s, other, j);
                }
            }
            sorted::lemma_not_found(t, other);
        }
    }
}

/// A removal undoes an insertion.
pub proof fn remove_undoes_insert<K: Ord + Clone, V>(s: Seq<(K, V)>, k: K, v: V)
    requires
        key::ordered_key::<K>(),
        sorted::sorted(s),
        !sorted::found(s, k),
    ensures
        sorted::removed(sorted::inserted(s, k, v), k) == s,
{
    key::lemma_order::<K>();
    sorted::lemma_inserted(s, k, v);
    sorted::lemma_place(s, k);
    let p = sorted::place(s, k);
    let t = sorted::inserted(s, k, v);
    assert(t[p] == (k, v));
    sorted::lemma_found_at(t, k, p);
    assert(t.remove(p) =~= s);
}

/// A bulk removal answers keys in the range with nothing, and every other key as before.
pub proof fn remove_range_lookup<K: Ord + Clone, V>(s: Seq<(K, V)>, range: KeyRange<K>, k: K)
    requires
        key::ordered_key::<K>(),
        sorted::sorted(s),
    ensures
        sorted::lookup(parts::rest(range, s), k) == (if range.has_key(k) {
            None
        } else {
            sorted::lookup(s, k)
        }),
{
    key::lemma_order::<K>();
    range.lemma_monotone();
    let r = parts::rest(range, s);
    let f = crate::tree::leaf::outside::<K, V>(range);
    sorted::lemma_filter_sorted(s, f);
    if !range.has_key(k) && sorted::found(s, k) {
        let q = sorted::place(s, k);
        sorted::lemma_place(s, k);
        assert(key::key_eq(k, s[q].0));
        assert(f(s[q]));
        lemma_filter_keeps(s, f, q);
        let i = choose|i: int| 0 <= i < r.len() && r[i] == s[q];
        sorted::lemma_found_at(r, k, i);
    } else {
        assert forall|i: int| 0 <= i < r.len() implies !key::key_eq(#[trigger] r[i].0, k) by {
            assert(f(r[i]) && s.contains(r[i]));
            let j = choose|j: int| 0 <= j < s.len() && s[j] == r[i];
            if key::key_eq(r[i].0, k) {
                assert(key::key_eq(k, r[i].0));
                sorted::lemma_found_at(s, k, j);
            }
        }
        sorted::lemma_not_found(r, k);
    }
}

proof fn lemma_filter_keeps<E>(s: Seq<E>, f: spec_fn(E) -> bool, q: int)
    requires
        0 <= q < s.len(),
        f(s[q]),
    ensures
        exists|i: int| 0 <= i < s.filter(f).len() && s.filter(f)[i] == s[q],
    decreases s.len(),
{
    reveal(Seq::filter);
    let d = s.drop_last();
    if q == s.len() - 1 {
        let n = d.filter(f).len() as int;
        assert(s.filter(f)[n] == s[q]);
    } else {
        lemma_filter_keeps(d, f, q);
        let i = choose|i: int| 0 <= i < d.filter(f).len() && d.filter(f)[i] == d[q];
        assert(s.filter(f)[i] == s[q]);
    }
}

/// A scan of a range yields exactly the entries of the range, in order: what a bulk removal of
/// the range would take away.
pub proof fn range_and_rest<K: Ord + Clone, V>(s: Seq<(K, V)>, range: KeyRange<K>)
    requires
        sorted::sorted(s),
    ensures
        sorted::sorted(s.filter(tree_index::within(range))),
        s.filter(tree_index::within(range)).len() + parts::rest(range, s).len() == s.len(),
    decreases s.len(),
{
    sorted::lemma_filter_sorted(s, tree_index::within::<K, V>(range));
    reveal(Seq::filter);
    if s.len() > 0 {
        let d = s.drop_last();
        assert forall|i: int, j: int|
            #![trigger d[i], d[j]]
            0 <= i < j < d.len() implies key::key_lt(d[i].0, d[j].0) by {
            assert(d[i] == s[i] && d[j] == s[j]);
        }
        range_and_rest(d, range);
    }
}

} // verus!
