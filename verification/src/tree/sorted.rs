//! Strictly ordered sequences of key-value pairs: what every part of the tree is a view of.

use vstd::prelude::*;
use crate::tree::key;

verus! {

/// Keys strictly increase.
pub open spec fn sorted<K: Ord + Clone, V>(s: Seq<(K, V)>) -> bool {
    forall|i: int, j: int|
        #![trigger s[i], s[j]]
        0 <= i < j < s.len() ==> key::key_lt(s[i].0, s[j].0)
}

/// The number of leading entries of a sorted sequence whose keys come before `k`.
pub open spec fn place<K: Ord + Clone, V>(s: Seq<(K, V)>, k: K) -> int
    decreases s.len(),
{
    if s.len() == 0 {
        0
    } else if key::key_lt(s.last().0, k) {
        s.len() as int
    } else {
        place(s.drop_last(), k)
    }
}

/// The key `k` occurs in the sorted sequence.
pub open spec fn found<K: Ord + Clone, V>(s: Seq<(K, V)>, k: K) -> bool {
    place(s, k) < s.len() && key::key_eq(s[place(s, k)].0, k)
}

/// The entry with key `k`.
pub open spec fn lookup<K: Ord + Clone, V>(s: Seq<(K, V)>, k: K) -> Option<(K, V)> {
    if found(s, k) {
        Some(s[place(s, k)])
    } else {
        None
    }
}

/// The sequence with the entry `(k, v)` put in its place.
pub open spec fn inserted<K: Ord + Clone, V>(s: Seq<(K, V)>, k: K, v: V) -> Seq<(K, V)> {
    s.insert(place(s, k), (k, v))
}

/// The sequence without the entry at the place of `k`.
pub open spec fn removed<K: Ord + Clone, V>(s: Seq<(K, V)>, k: K) -> Seq<(K, V)> {
    s.remove(place(s, k))
}

/// `p` parts the sequence into keys before `k` and the others.
pub open spec fn parts_at<K: Ord + Clone, V>(s: Seq<(K, V)>, k: K, p: int) -> bool {
    &&& 0 <= p <= s.len()
    &&& forall|i: int| 0 <= i < p ==> key::key_lt(#[trigger] s[i].0, k)
    &&& forall|i: int| p <= i < s.len() ==> !key::key_lt(#[trigger] s[i].0, k)
}

/// A key has a place in sorted entries.
pub proof fn lemma_place<K: Ord + Clone, V>(s: Seq<(K, V)>, k: K)
    requires
        key::ordered_key::<K>(),
        sorted(s),
    ensures
        parts_at(s, k, place(s, k)),
    decreases s.len(),
{
    key::lemma_order::<K>();
    if s.len() > 0 {
        if key::key_lt(s.last().0, k) {
            assert forall|i: int| 0 <= i < s.len() implies key::key_lt(#[trigger] s[i].0, k) by {
                if i < s.len() - 1 {
                    assert(key::key_lt(s[i].0, s[s.len() - 1].0));
                }
            }
        } else {
            lemma_place(s.drop_last(), k);
            assert forall|i: int| 0 <= i < s.len() - 1 implies s.drop_last()[i] == #[trigger] s[i] by {
            }
        }
    }
}

/// A key has only one place.
pub proof fn lemma_place_unique<K: Ord + Clone, V>(s: Seq<(K, V)>, k: K, p: int)
    requires
        key::ordered_key::<K>(),
        sorted(s),
        parts_at(s, k, p),
    ensures
        place(s, k) == p,
{
    lemma_place(s, k);
    let q = place(s, k);
    if p < q {
        assert(key::key_lt(s[p].0, k));
    }
    if q < p {
        assert(key::key_lt(s[q].0, k));
    }
}

/// An index with an equal key is the place of the key.
pub proof fn lemma_found_at<K: Ord + Clone, V>(s: Seq<(K, V)>, k: K, p: int)
    requires
        key::ordered_key::<K>(),
        sorted(s),
        0 <= p < s.len(),
        key::key_eq(s[p].0, k),
    ensures
        place(s, k) == p,
        found(s, k),
{
    key::lemma_order::<K>();
    assert(parts_at(s, k, p)) by {
        assert forall|i: int| 0 <= i < p implies key::key_lt(#[trigger] s[i].0, k) by {
            assert(key::key_lt(s[i].0, s[p].0));
        }
        assert forall|i: int| p <= i < s.len() implies !key::key_lt(#[trigger] s[i].0, k) by {
            if i > p {
                assert(key::key_lt(s[p].0, s[i].0));
                assert(key::key_eq(k, s[p].0));
            }
        }
    }
    lemma_place_unique(s, k, p);
}

/// Where no key equals `k`, it is not found.
pub proof fn lemma_not_found<K: Ord + Clone, V>(s: Seq<(K, V)>, k: K)
    requires
        key::ordered_key::<K>(),
        sorted(s),
        forall|i: int| 0 <= i < s.len() ==> !key::key_eq(#[trigger] s[i].0, k),
    ensures
        !found(s, k),
{
    lemma_place(s, k);
}

/// Inserting an absent key keeps the order.
pub proof fn lemma_inserted<K: Ord + Clone, V>(s: Seq<(K, V)>, k: K, v: V)
    requires
        key::ordered_key::<K>(),
        sorted(s),
        !found(s, k),
    ensures
        sorted(inserted(s, k, v)),
        0 <= place(s, k) <= s.len(),
{
    key::lemma_order::<K>();
    lemma_place(s, k);
    let p = place(s, k);
    let t = inserted(s, k, v);
    assert forall|i: int| p <= i < s.len() implies key::key_lt(k, #[trigger] s[i].0) by {
        if i == p {
            assert(!key::key_eq(s[p].0, k));
        } else {
            assert(key::key_lt(s[p].0, s[i].0));
            assert(key::key_lt(k, s[p].0));
        }
    }
    assert forall|i: int, j: int| 0 <= i < j < t.len() implies key::key_lt(
        (#[trigger] t[i]).0,
        (#[trigger] t[j]).0,
    ) by {
        let a = if i < p { i } else { i - 1 };
        let b = if j < p { j } else { j - 1 };
        if i != p && j != p {
            assert(key::key_lt(s[a].0, s[b].0));
        }
    }
}

/// Removing an entry leaves the others sorted.
pub proof fn lemma_removed<K: Ord + Clone, V>(s: Seq<(K, V)>, p: int)
    requires
        sorted(s),
        0 <= p < s.len(),
    ensures
        sorted(s.remove(p)),
{
    let t = s.remove(p);
    assert forall|i: int, j: int| 0 <= i < j < t.len() implies key::key_lt(
        (#[trigger] t[i]).0,
        (#[trigger] t[j]).0,
    ) by {
        let a = if i < p { i } else { i + 1 };
        let b = if j < p { j } else { j + 1 };
        assert(key::key_lt(s[a].0, s[b].0));
    }
}

/// Looking up a key in a concatenation whose outer parts lie strictly on either side of it is
/// looking it up in the middle part.
pub proof fn lemma_place_within<K: Ord + Clone, V>(
    a: Seq<(K, V)>,
    b: Seq<(K, V)>,
    c: Seq<(K, V)>,
    k: K,
)
    requires
        key::ordered_key::<K>(),
        sorted(a + b + c),
        forall|i: int| 0 <= i < a.len() ==> key::key_lt(#[trigger] a[i].0, k),
        forall|i: int| 0 <= i < c.len() ==> key::key_lt(k, #[trigger] c[i].0),
    ensures
        sorted(b),
        place(a + b + c, k) == a.len() + place(b, k),
        found(a + b + c, k) == found(b, k),
        lookup(a + b + c, k) == lookup(b, k),
        0 <= place(b, k) <= b.len(),
        forall|v: V| #[trigger] inserted(a + b + c, k, v) =~= a + inserted(b, k, v) + c,
        found(b, k) ==> removed(a + b + c, k) =~= a + removed(b, k) + c,
{
    key::lemma_order::<K>();
    let s = a + b + c;
    assert(sorted(b)) by {
        assert forall|i: int, j: int| 0 <= i < j < b.len() implies key::key_lt(
            (#[trigger] b[i]).0,
            (#[trigger] b[j]).0,
        ) by {
            assert(s[a.len() + i] == b[i]);
            assert(s[a.len() + j] == b[j]);
        }
    }
    lemma_place(b, k);
    let p = a.len() + place(b, k);
    assert(parts_at(s, k, p)) by {
        assert forall|i: int| 0 <= i < p implies key::key_lt(#[trigger] s[i].0, k) by {
            if i < a.len() {
                assert(s[i] == a[i]);
            } else {
                assert(s[i] == b[i - a.len()]);
            }
        }
        assert forall|i: int| p <= i < s.len() implies !key::key_lt(#[trigger] s[i].0, k) by {
            if i < a.len() + b.len() {
                assert(s[i] == b[i - a.len()]);
            } else {
                assert(s[i] == c[i - a.len() - b.len()]);
                assert(key::key_lt(k, c[i - a.len() - b.len()].0));
            }
        }
    }
    lemma_place_unique(s, k, p);
    if p < s.len() {
        if place(b, k) < b.len() {
            assert(s[p] == b[place(b, k)]);
        } else {
            assert(s[p] == c[0]);
            assert(key::key_lt(k, c[0].0));
        }
    }
}

/// A filter of a sorted sequence is sorted, and keeps exactly the entries that satisfy it.
pub proof fn lemma_filter_sorted<K: Ord + Clone, V>(s: Seq<(K, V)>, p: spec_fn((K, V)) -> bool)
    requires
        sorted(s),
    ensures
        sorted(s.filter(p)),
        forall|i: int|
            0 <= i < s.filter(p).len() ==> p(#[trigger] s.filter(p)[i]) && s.contains(s.filter(p)[i]),
        s.filter(p).len() <= s.len(),
    decreases s.len(),
{
    reveal(Seq::filter);
    if s.len() > 0 {
        let d = s.drop_last();
        lemma_filter_sorted(d, p);
        let f = d.filter(p);
        assert forall|i: int| 0 <= i < f.len() implies s.contains(#[trigger] f[i]) by {
            let j = choose|j: int| 0 <= j < d.len() && d[j] == f[i];
            assert(s[j] == f[i]);
        }
        if p(s.last()) {
            assert(s.filter(p) == f.push(s.last()));
            assert forall|i: int| 0 <= i < f.len() implies key::key_lt(
                (#[trigger] f[i]).0,
                s.last().0,
            ) by {
                assert(d.contains(f[i]));
                let j = choose|j: int| 0 <= j < d.len() && d[j] == f[i];
                assert(s[j] == f[i]);
                assert(s[s.len() - 1] == s.last());
            }
            assert(s[s.len() - 1] == s.last());
        }
    }
}

/// A filter that every entry satisfies keeps the sequence.
pub proof fn lemma_filter_all<E>(s: Seq<E>, p: spec_fn(E) -> bool)
    requires
        forall|i: int| 0 <= i < s.len() ==> p(#[trigger] s[i]),
    ensures
        s.filter(p) == s,
    decreases s.len(),
{
    reveal(Seq::filter);
    if s.len() > 0 {
        let d = s.drop_last();
        assert forall|i: int| 0 <= i < d.len() implies p(#[trigger] d[i]) by {
            assert(d[i] == s[i]);
        }
        lemma_filter_all(d, p);
        assert(s =~= d.push(s.last()));
    }
}

/// A filter that no entry satisfies leaves nothing.
pub proof fn lemma_filter_none<E>(s: Seq<E>, p: spec_fn(E) -> bool)
    requires
        forall|i: int| 0 <= i < s.len() ==> !p(#[trigger] s[i]),
    ensures
        s.filter(p) == Seq::<E>::empty(),
    decreases s.len(),
{
    reveal(Seq::filter);
    if s.len() > 0 {
        let d = s.drop_last();
        assert forall|i: int| 0 <= i < d.len() implies !p(#[trigger] d[i]) by {
            assert(d[i] == s[i]);
        }
        lemma_filter_none(d, p);
    }
}

} // verus!
