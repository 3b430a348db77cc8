//! Sequences that are cut into parts by separator keys: what a node of the tree is a view of.
//!
//! The keys of a part lie above the separator before it and not above the separator after it; the
//! whole lies between an optional lower and an optional upper bound.

use vstd::prelude::*;
use crate::tree::key;
use crate::tree::leaf;
use crate::tree::range::{KeyRange, RemoveRangeState};
use crate::tree::sorted;

verus! {

/// The parts joined.
pub open spec fn flat<E>(parts: Seq<Seq<E>>) -> Seq<E>
    decreases parts.len(),
{
    if parts.len() == 0 {
        Seq::empty()
    } else {
        flat(parts.drop_last()) + parts.last()
    }
}

/// The key lies above the lower bound.
pub open spec fn above<K: Ord + Clone>(lo: Option<K>, k: K) -> bool {
    lo is Some ==> key::key_lt(lo->0, k)
}

/// The key does not lie above the upper bound.
pub open spec fn upto<K: Ord + Clone>(k: K, hi: Option<K>) -> bool {
    hi is Some ==> !key::key_lt(hi->0, k)
}

/// The key lies below the upper bound.
pub open spec fn below<K: Ord + Clone>(k: K, hi: Option<K>) -> bool {
    hi is Some ==> key::key_lt(k, hi->0)
}

/// The key lies between the bounds.
pub open spec fn between<K: Ord + Clone>(lo: Option<K>, k: K, hi: Option<K>) -> bool {
    above(lo, k) && upto(k, hi)
}

/// The lower bound of part `i`.
pub open spec fn lo_at<K>(lo: Option<K>, seps: Seq<K>, i: int) -> Option<K> {
    if i <= 0 {
        lo
    } else {
        Some(seps[i - 1])
    }
}

/// The upper bound of part `i`.
pub open spec fn hi_at<K>(hi: Option<K>, seps: Seq<K>, i: int) -> Option<K> {
    if i < seps.len() {
        Some(seps[i])
    } else {
        hi
    }
}

/// All keys of the sequence lie between the bounds.
pub open spec fn all_between<K: Ord + Clone, V>(
    lo: Option<K>,
    s: Seq<(K, V)>,
    hi: Option<K>,
) -> bool {
    forall|x: int| 0 <= x < s.len() ==> between(lo, (#[trigger] s[x]).0, hi)
}

/// The separators strictly increase, between the bounds.
pub open spec fn seps_between<K: Ord + Clone>(lo: Option<K>, seps: Seq<K>, hi: Option<K>) -> bool {
    &&& forall|i: int, j: int|
        #![trigger seps[i], seps[j]]
        0 <= i < j < seps.len() ==> key::key_lt(seps[i], seps[j])
    &&& forall|i: int| 0 <= i < seps.len() ==> above(lo, #[trigger] seps[i]) && below(seps[i], hi)
}

/// The separators cut the parts.
pub open spec fn framed<K: Ord + Clone, V>(
    lo: Option<K>,
    hi: Option<K>,
    seps: Seq<K>,
    parts: Seq<Seq<(K, V)>>,
) -> bool {
    &&& parts.len() == seps.len() + 1
    &&& seps_between(lo, seps, hi)
    &&& forall|i: int|
        0 <= i < parts.len() ==> sorted::sorted(#[trigger] parts[i]) && all_between(
            lo_at(lo, seps, i),
            parts[i],
            hi_at(hi, seps, i),
        )
}

/// Part `i` is the one for the key.
pub open spec fn routes<K: Ord + Clone>(seps: Seq<K>, k: K, i: int) -> bool {
    &&& 0 <= i <= seps.len()
    &&& forall|j: int| 0 <= j < i ==> key::key_lt(#[trigger] seps[j], k)
    &&& forall|j: int| i <= j < seps.len() ==> !key::key_lt(#[trigger] seps[j], k)
}

/// Joining parts joins their entries.
pub proof fn lemma_flat_join<E>(a: Seq<Seq<E>>, b: Seq<Seq<E>>)
    ensures
        flat(a + b) == flat(a) + flat(b),
    decreases b.len(),
{
    if b.len() == 0 {
        assert(a + b =~= a);
        assert(flat(a) + flat(b) =~= flat(a));
    } else {
        lemma_flat_join(a, b.drop_last());
        assert((a + b).drop_last() =~= a + b.drop_last());
        assert((a + b).last() == b.last());
        assert(flat(a) + (flat(b.drop_last()) + b.last()) =~= (flat(a) + flat(b.drop_last()))
            + b.last());
    }
}

/// A single part holds its own entries.
pub proof fn lemma_flat_one<E>(p: Seq<E>)
    ensures
        flat(seq![p]) == p,
{
    assert(seq![p].drop_last() =~= Seq::<Seq<E>>::empty());
    assert(flat(Seq::<Seq<E>>::empty()) =~= Seq::<E>::empty());
    assert(flat(seq![p]) =~= p);
}

/// The joined parts, seen from part `i`.
pub proof fn lemma_flat_at<E>(parts: Seq<Seq<E>>, i: int)
    requires
        0 <= i < parts.len(),
    ensures
        flat(parts) == flat(parts.take(i)) + parts[i] + flat(parts.skip(i + 1)),
{
    lemma_flat_join(parts.take(i) + seq![parts[i]], parts.skip(i + 1));
    lemma_flat_join(parts.take(i), seq![parts[i]]);
    lemma_flat_one(parts[i]);
    assert(parts =~= parts.take(i) + seq![parts[i]] + parts.skip(i + 1));
}

/// Replacing a part replaces its entries.
pub proof fn lemma_flat_update<E>(parts: Seq<Seq<E>>, i: int, p: Seq<E>)
    requires
        0 <= i < parts.len(),
    ensures
        flat(parts.update(i, p)) == flat(parts.take(i)) + p + flat(parts.skip(i + 1)),
{
    let u = parts.update(i, p);
    lemma_flat_at(u, i);
    assert(u.take(i) =~= parts.take(i));
    assert(u.skip(i + 1) =~= parts.skip(i + 1));
}

/// Every entry of the joined parts is an entry of some part.
pub proof fn lemma_flat_member<E>(parts: Seq<Seq<E>>, y: int) -> (r: (int, int))
    requires
        0 <= y < flat(parts).len(),
    ensures
        0 <= r.0 < parts.len(),
        0 <= r.1 < parts[r.0].len(),
        parts[r.0][r.1] == flat(parts)[y],
    decreases parts.len(),
{
    let d = parts.drop_last();
    if y < flat(d).len() {
        let r = lemma_flat_member(d, y);
        assert(parts[r.0] == d[r.0]);
        r
    } else {
        (parts.len() - 1, y - flat(d).len())
    }
}

/// A weaker bound will do.
pub proof fn lemma_framed_entries<K: Ord + Clone, V>(
    lo: Option<K>,
    hi: Option<K>,
    seps: Seq<K>,
    parts: Seq<Seq<(K, V)>>,
)
    requires
        key::ordered_key::<K>(),
        framed(lo, hi, seps, parts),
    ensures
        sorted::sorted(flat(parts)),
        all_between(lo, flat(parts), hi),
{
    key::lemma_order::<K>();
    assert(all_between(lo, flat(parts), hi)) by {
        assert forall|y: int| 0 <= y < flat(parts).len() implies between(
            lo,
            (#[trigger] flat(parts)[y]).0,
            hi,
        ) by {
            let (i, x) = lemma_flat_member(parts, y);
            let k = parts[i][x].0;
            assert(between(lo_at(lo, seps, i), k, hi_at(hi, seps, i)));
            if i > 0 {
                assert(above(lo, seps[i - 1]));
            }
            if i < seps.len() {
                assert(below(seps[i], hi));
                if hi is Some {
                    if key::key_lt(hi->0, k) {
                        assert(key::key_lt(seps[i], k));
                    }
                }
            }
        }
    }
    lemma_framed_sorted(lo, hi, seps, parts, parts.len() as int);
    assert(parts.take(parts.len() as int) =~= parts);
}

proof fn lemma_framed_sorted<K: Ord + Clone, V>(
    lo: Option<K>,
    hi: Option<K>,
    seps: Seq<K>,
    parts: Seq<Seq<(K, V)>>,
    n: int,
)
    requires
        key::ordered_key::<K>(),
        framed(lo, hi, seps, parts),
        0 <= n <= parts.len(),
    ensures
        sorted::sorted(flat(parts.take(n))),
    decreases n,
{
    key::lemma_order::<K>();
    if n > 0 {
        lemma_framed_sorted(lo, hi, seps, parts, n - 1);
        let t = parts.take(n);
        let d = parts.take(n - 1);
        assert(t.drop_last() =~= d);
        assert(t.last() == parts[n - 1]);
        let a = flat(d);
        let b = parts[n - 1];
        let s = flat(t);
        assert(s == a + b);
        assert forall|i: int, j: int|
            #![trigger s[i], s[j]]
            0 <= i < j < s.len() implies key::key_lt(s[i].0, s[j].0) by {
            if j < a.len() {
                assert(s[i] == a[i] && s[j] == a[j]);
            } else if i >= a.len() {
                assert(s[i] == b[i - a.len()] && s[j] == b[j - a.len()]);
            } else {
                assert(s[i] == a[i] && s[j] == b[j - a.len()]);
                let (p, x) = lemma_flat_member(d, i);
                assert(parts[p] == d[p]);
                assert(between(lo_at(lo, seps, p), parts[p][x].0, hi_at(hi, seps, p)));
                assert(between(lo_at(lo, seps, n - 1), b[j - a.len()].0, hi_at(hi, seps, n - 1)));
                if p < n - 2 {
                    assert(key::key_lt(seps[p], seps[n - 2]));
                }
                assert(key::key_lt(seps[n - 2], b[j - a.len()].0));
                assert(!key::key_lt(seps[p], parts[p][x].0));
                assert(key::key_lt(seps[p], b[j - a.len()].0));
            }
        }
    }
}

/// The entries before and after the part for a key lie strictly on either side of the key.
pub proof fn lemma_around<K: Ord + Clone, V>(
    lo: Option<K>,
    hi: Option<K>,
    seps: Seq<K>,
    parts: Seq<Seq<(K, V)>>,
    k: K,
    i: int,
)
    requires
        key::ordered_key::<K>(),
        framed(lo, hi, seps, parts),
        routes(seps, k, i),
    ensures
        forall|y: int|
            0 <= y < flat(parts.take(i)).len() ==> key::key_lt(
                (#[trigger] flat(parts.take(i))[y]).0,
                k,
            ),
        forall|y: int|
            0 <= y < flat(parts.skip(i + 1)).len() ==> key::key_lt(
                k,
                (#[trigger] flat(parts.skip(i + 1))[y]).0,
            ),
{
    key::lemma_order::<K>();
    assert forall|y: int| 0 <= y < flat(parts.take(i)).len() implies key::key_lt(
        (#[trigger] flat(parts.take(i))[y]).0,
        k,
    ) by {
        let (p, x) = lemma_flat_member(parts.take(i), y);
        assert(parts[p] == parts.take(i)[p]);
        assert(between(lo_at(lo, seps, p), parts[p][x].0, hi_at(hi, seps, p)));
        assert(key::key_lt(seps[p], k));
    }
    assert forall|y: int| 0 <= y < flat(parts.skip(i + 1)).len() implies key::key_lt(
        k,
        (#[trigger] flat(parts.skip(i + 1))[y]).0,
    ) by {
        let (q, x) = lemma_flat_member(parts.skip(i + 1), y);
        let p = i + 1 + q;
        assert(parts[p] == parts.skip(i + 1)[q]);
        assert(between(lo_at(lo, seps, p), parts[p][x].0, hi_at(hi, seps, p)));
        assert(!key::key_lt(seps[p - 1], k));
        assert(key::key_lt(seps[p - 1], parts[p][x].0));
    }
}

/// What is asked of the whole about a key is answered by the part for the key.
pub proof fn lemma_route<K: Ord + Clone, V>(
    lo: Option<K>,
    hi: Option<K>,
    seps: Seq<K>,
    parts: Seq<Seq<(K, V)>>,
    k: K,
    i: int,
)
    requires
        key::ordered_key::<K>(),
        framed(lo, hi, seps, parts),
        routes(seps, k, i),
        between(lo, k, hi),
    ensures
        sorted::found(flat(parts), k) == sorted::found(parts[i], k),
        sorted::lookup(flat(parts), k) == sorted::lookup(parts[i], k),
        between(lo_at(lo, seps, i), k, hi_at(hi, seps, i)),
        forall|v: V|
            #![trigger sorted::inserted(flat(parts), k, v)]
            #![trigger sorted::inserted(parts[i], k, v)]
            sorted::inserted(flat(parts), k, v) == flat(
                parts.update(i, sorted::inserted(parts[i], k, v)),
            ) && (!sorted::found(parts[i], k) ==> framed(
                lo,
                hi,
                seps,
                parts.update(i, sorted::inserted(parts[i], k, v)),
            )),
        sorted::found(parts[i], k) ==> sorted::removed(flat(parts), k) == flat(
            parts.update(i, sorted::removed(parts[i], k)),
        ) && framed(lo, hi, seps, parts.update(i, sorted::removed(parts[i], k))),
        sorted::place(flat(parts), k) == flat(parts.take(i)).len() + sorted::place(parts[i], k),
{
    key::lemma_order::<K>();
    lemma_framed_entries(lo, hi, seps, parts);
    lemma_around(lo, hi, seps, parts, k, i);
    lemma_flat_at(parts, i);
    let a = flat(parts.take(i));
    let b = parts[i];
    let c = flat(parts.skip(i + 1));
    sorted::lemma_place_within(a, b, c, k);
    sorted::lemma_place(b, k);
    assert(between(lo_at(lo, seps, i), k, hi_at(hi, seps, i)));
    assert forall|v: V|
        #![trigger sorted::inserted(flat(parts), k, v)]
        #![trigger sorted::inserted(parts[i], k, v)]
        sorted::inserted(flat(parts), k, v) == flat(
        parts.update(i, sorted::inserted(parts[i], k, v)),
    ) && (!sorted::found(parts[i], k) ==> framed(
        lo,
        hi,
        seps,
        parts.update(i, sorted::inserted(parts[i], k, v)),
    )) by {
        lemma_flat_update(parts, i, sorted::inserted(b, k, v));
        if !sorted::found(b, k) {
            sorted::lemma_inserted(b, k, v);
            let n = sorted::inserted(b, k, v);
            let p = sorted::place(b, k);
            assert(all_between(lo_at(lo, seps, i), n, hi_at(hi, seps, i))) by {
                assert forall|x: int| 0 <= x < n.len() implies between(
                    lo_at(lo, seps, i),
                    (#[trigger] n[x]).0,
                    hi_at(hi, seps, i),
                ) by {
                    if x < p {
                        assert(n[x] == b[x]);
                    } else if x > p {
                        assert(n[x] == b[x - 1]);
                    }
                }
            }
            lemma_framed_update(lo, hi, seps, parts, i, n);
        }
    }
    if sorted::found(b, k) {
        let p = sorted::place(b, k);
        let n = sorted::removed(b, k);
        lemma_flat_update(parts, i, n);
        sorted::lemma_removed(b, p);
        assert forall|x: int| 0 <= x < n.len() implies between(
            lo_at(lo, seps, i),
            (#[trigger] n[x]).0,
            hi_at(hi, seps, i),
        ) by {
            assert(n[x] == b[if x < p { x } else { x + 1 }]);
        }
        lemma_framed_update(lo, hi, seps, parts, i, n);
    }
}

/// A part can be replaced by one that fits.
pub proof fn lemma_framed_update<K: Ord + Clone, V>(
    lo: Option<K>,
    hi: Option<K>,
    seps: Seq<K>,
    parts: Seq<Seq<(K, V)>>,
    i: int,
    p: Seq<(K, V)>,
)
    requires
        framed(lo, hi, seps, parts),
        0 <= i < parts.len(),
        sorted::sorted(p),
        all_between(lo_at(lo, seps, i), p, hi_at(hi, seps, i)),
    ensures
        framed(lo, hi, seps, parts.update(i, p)),
{
    let u = parts.update(i, p);
    assert forall|j: int| 0 <= j < u.len() implies sorted::sorted(#[trigger] u[j]) && all_between(
        lo_at(lo, seps, j),
        u[j],
        hi_at(hi, seps, j),
    ) by {
        if j != i {
            assert(u[j] == parts[j]);
        }
    }
}

/// A part can be cut in two at a key that lies between its bounds.
pub proof fn lemma_cut<K: Ord + Clone, V>(
    lo: Option<K>,
    hi: Option<K>,
    seps: Seq<K>,
    parts: Seq<Seq<(K, V)>>,
    i: int,
    m: K,
    a: Seq<(K, V)>,
    b: Seq<(K, V)>,
)
    requires
        key::ordered_key::<K>(),
        framed(lo, hi, seps, parts),
        0 <= i < parts.len(),
        parts[i] == a + b,
        above(lo_at(lo, seps, i), m),
        below(m, hi_at(hi, seps, i)),
        all_between(lo_at(lo, seps, i), a, Some(m)),
        all_between(Some(m), b, hi_at(hi, seps, i)),
    ensures
        framed(lo, hi, seps.insert(i, m), parts.update(i, b).insert(i, a)),
        flat(parts.update(i, b).insert(i, a)) == flat(parts),
        forall|k: K| #[trigger] routes(seps, k, i) ==> routes(
            seps.insert(i, m),
            k,
            if key::key_lt(m, k) { i + 1 } else { i },
        ),
        routes(seps, m, i),
{
    key::lemma_order::<K>();
    let s = seps.insert(i, m);
    let q = parts.update(i, b).insert(i, a);
    assert(q.len() == s.len() + 1);
    assert forall|x: int, y: int|
        #![trigger s[x], s[y]]
        0 <= x < y < s.len() implies key::key_lt(s[x], s[y]) by {
        let c = if x < i { x } else { x - 1 };
        let d = if y < i { y } else { y - 1 };
        if x != i && y != i {
            assert(key::key_lt(seps[c], seps[d]));
        } else if x == i {
            if d > i {
                assert(key::key_lt(seps[i], seps[d]));
            }
            assert(key::key_lt(m, seps[i]));
        } else {
            if c < i - 1 {
                assert(key::key_lt(seps[c], seps[i - 1]));
            }
            assert(key::key_lt(seps[i - 1], m));
        }
    }
    assert forall|x: int| 0 <= x < s.len() implies above(lo, #[trigger] s[x]) && below(s[x], hi) by {
        if x < i {
            assert(s[x] == seps[x]);
        } else if x > i {
            assert(s[x] == seps[x - 1]);
        } else {
            if i > 0 {
                assert(above(lo, seps[i - 1]));
                assert(key::key_lt(seps[i - 1], m));
            }
            if i < seps.len() {
                assert(below(seps[i], hi));
                assert(key::key_lt(m, seps[i]));
            }
        }
    }
    assert(sorted::sorted(a)) by {
        assert forall|x: int, y: int|
            #![trigger a[x], a[y]]
            0 <= x < y < a.len() implies key::key_lt(a[x].0, a[y].0) by {
            assert(parts[i][x] == a[x] && parts[i][y] == a[y]);
        }
    }
    assert(sorted::sorted(b)) by {
        assert forall|x: int, y: int|
            #![trigger b[x], b[y]]
            0 <= x < y < b.len() implies key::key_lt(b[x].0, b[y].0) by {
            assert(parts[i][a.len() + x] == b[x] && parts[i][a.len() + y] == b[y]);
        }
    }
    assert forall|j: int| 0 <= j < q.len() implies sorted::sorted(#[trigger] q[j]) && all_between(
        lo_at(lo, s, j),
        q[j],
        hi_at(hi, s, j),
    ) by {
        if j < i {
            assert(q[j] == parts[j]);
            assert(hi_at(hi, s, j) == hi_at(hi, seps, j));
            assert(lo_at(lo, s, j) == lo_at(lo, seps, j));
        } else if j == i {
            assert(q[j] == a);
        } else if j == i + 1 {
            assert(q[j] == b);
            assert(hi_at(hi, s, j) == hi_at(hi, seps, i));
        } else {
            assert(q[j] == parts[j - 1]);
            assert(hi_at(hi, s, j) == hi_at(hi, seps, j - 1));
            assert(lo_at(lo, s, j) == lo_at(lo, seps, j - 1));
        }
    }
    assert(flat(q) == flat(parts)) by {
        lemma_flat_at(parts, i);
        lemma_flat_at(q, i + 1);
        assert(q.take(i + 1) =~= parts.take(i) + seq![a]);
        lemma_flat_join(parts.take(i), seq![a]);
        lemma_flat_one(a);
        assert(q.skip(i + 2) =~= parts.skip(i + 1));
        assert(flat(parts.take(i)) + a + b + flat(parts.skip(i + 1)) =~= flat(parts.take(i)) + (a
            + b) + flat(parts.skip(i + 1)));
    }
    assert forall|k: K| #[trigger] routes(seps, k, i) implies routes(
        s,
        k,
        if key::key_lt(m, k) { i + 1 } else { i },
    ) by {
        let t = if key::key_lt(m, k) { i + 1 } else { i };
        assert forall|j: int| 0 <= j < t implies key::key_lt(#[trigger] s[j], k) by {
            if j < i {
                assert(s[j] == seps[j]);
            }
        }
        assert forall|j: int| t <= j < s.len() implies !key::key_lt(#[trigger] s[j], k) by {
            if j > i {
                assert(s[j] == seps[j - 1]);
            }
        }
    }
    assert(routes(seps, m, i)) by {
        assert forall|j: int| 0 <= j < i implies key::key_lt(#[trigger] seps[j], m) by {
            if j < i - 1 {
                assert(key::key_lt(seps[j], seps[i - 1]));
            }
        }
        assert forall|j: int| i <= j < seps.len() implies !key::key_lt(#[trigger] seps[j], m) by {
            if j > i {
                assert(key::key_lt(seps[i], seps[j]));
            }
        }
    }
}

/// An empty part can be dropped, along with the separator after it.
pub proof fn lemma_drop<K: Ord + Clone, V>(
    lo: Option<K>,
    hi: Option<K>,
    seps: Seq<K>,
    parts: Seq<Seq<(K, V)>>,
    i: int,
)
    requires
        key::ordered_key::<K>(),
        framed(lo, hi, seps, parts),
        0 <= i < seps.len(),
        parts[i].len() == 0,
    ensures
        framed(lo, hi, seps.remove(i), parts.remove(i)),
        flat(parts.remove(i)) == flat(parts),
{
    lemma_drop_at(lo, hi, seps, parts, i, i);
}

/// An empty part can be dropped, along with the separator before or after it.
pub proof fn lemma_drop_at<K: Ord + Clone, V>(
    lo: Option<K>,
    hi: Option<K>,
    seps: Seq<K>,
    parts: Seq<Seq<(K, V)>>,
    i: int,
    c: int,
)
    requires
        key::ordered_key::<K>(),
        framed(lo, hi, seps, parts),
        0 <= i < parts.len(),
        0 <= c < seps.len(),
        c == i || c == i - 1,
        parts[i].len() == 0,
    ensures
        framed(lo, hi, seps.remove(c), parts.remove(i)),
        flat(parts.remove(i)) == flat(parts),
{
    key::lemma_order::<K>();
    let s = seps.remove(c);
    let q = parts.remove(i);
    assert forall|x: int, y: int|
        #![trigger s[x], s[y]]
        0 <= x < y < s.len() implies key::key_lt(s[x], s[y]) by {
        let d = if x < c { x } else { x + 1 };
        let e = if y < c { y } else { y + 1 };
        assert(key::key_lt(seps[d], seps[e]));
    }
    assert forall|x: int| 0 <= x < s.len() implies above(lo, #[trigger] s[x]) && below(s[x], hi) by {
        assert(s[x] == seps[if x < c { x } else { x + 1 }]);
    }
    assert forall|j: int| 0 <= j < q.len() implies sorted::sorted(#[trigger] q[j]) && all_between(
        lo_at(lo, s, j),
        q[j],
        hi_at(hi, s, j),
    ) by {
        let p = if j < i { j } else { j + 1 };
        assert(q[j] == parts[p]);
        assert forall|x: int| 0 <= x < q[j].len() implies between(
            lo_at(lo, s, j),
            (#[trigger] q[j][x]).0,
            hi_at(hi, s, j),
        ) by {
            let k = parts[p][x].0;
            assert(between(lo_at(lo, seps, p), k, hi_at(hi, seps, p)));
            // The lower bound of a kept part can only move down, the upper one only up.
            if j > 0 && j - 1 < c && p - 1 >= c {
                assert(p - 1 == c && j - 1 == c - 1);
                assert(key::key_lt(seps[c - 1], seps[c]));
            }
            if j == 0 && p > 0 {
                assert(above(lo, seps[p - 1]));
            }
            if p == c && c != i {
                assert(p == i - 1);
                if c + 1 < seps.len() {
                    assert(key::key_lt(seps[c], seps[c + 1]));
                    assert(hi_at(hi, s, j) == Some(seps[c + 1]));
                    if key::key_lt(seps[c + 1], k) {
                        assert(key::key_lt(seps[c], k));
                    }
                } else {
                    assert(below(seps[c], hi));
                    if hi is Some && key::key_lt(hi->0, k) {
                        assert(key::key_lt(seps[c], k));
                    }
                }
            }
        }
    }
    lemma_flat_at(parts, i);
    lemma_flat_join(parts.take(i), parts.skip(i + 1));
    assert(q =~= parts.take(i) + parts.skip(i + 1));
    assert(flat(parts.take(i)) + parts[i] + flat(parts.skip(i + 1)) =~= flat(parts.take(i)) + flat(
        parts.skip(i + 1),
    ));
}

/// A filter of the whole is the filters of the parts, joined.
pub proof fn lemma_flat_filter<E>(parts: Seq<Seq<E>>, f: spec_fn(E) -> bool)
    ensures
        flat(parts).filter(f) == flat(parts.map_values(|p: Seq<E>| p.filter(f))),
    decreases parts.len(),
{
    let m = parts.map_values(|p: Seq<E>| p.filter(f));
    if parts.len() == 0 {
        reveal(Seq::filter);
        assert(flat(parts).filter(f) =~= Seq::empty());
    } else {
        let d = parts.drop_last();
        lemma_flat_filter(d, f);
        assert(m.drop_last() =~= d.map_values(|p: Seq<E>| p.filter(f)));
        Seq::filter_distributes_over_add(flat(d), parts.last(), f);
    }
}

/// A whole can be cut in two at a separator.
pub proof fn lemma_framed_split<K: Ord + Clone, V>(
    lo: Option<K>,
    hi: Option<K>,
    seps: Seq<K>,
    parts: Seq<Seq<(K, V)>>,
    b: int,
)
    requires
        framed(lo, hi, seps, parts),
        1 <= b <= seps.len(),
    ensures
        framed(lo, Some(seps[b - 1]), seps.take(b - 1), parts.take(b)),
        framed(Some(seps[b - 1]), hi, seps.skip(b), parts.skip(b)),
        above(lo, seps[b - 1]),
        below(seps[b - 1], hi),
{
    let s = seps.take(b - 1);
    let p = parts.take(b);
    assert forall|j: int| 0 <= j < p.len() implies sorted::sorted(#[trigger] p[j]) && all_between(
        lo_at(lo, s, j),
        p[j],
        hi_at(Some(seps[b - 1]), s, j),
    ) by {
        assert(p[j] == parts[j]);
        assert(lo_at(lo, s, j) == lo_at(lo, seps, j));
        assert(hi_at(Some(seps[b - 1]), s, j) == hi_at(hi, seps, j));
    }
    let t = seps.skip(b);
    let q = parts.skip(b);
    assert forall|j: int| 0 <= j < q.len() implies sorted::sorted(#[trigger] q[j]) && all_between(
        lo_at(Some(seps[b - 1]), t, j),
        q[j],
        hi_at(hi, t, j),
    ) by {
        assert(q[j] == parts[b + j]);
        assert(lo_at(Some(seps[b - 1]), t, j) == lo_at(lo, seps, b + j));
        assert(hi_at(hi, t, j) == hi_at(hi, seps, b + j));
    }
}

/// What lies between the first bounds lies between the second ones.
pub open spec fn wider<K: Ord + Clone>(
    lo: Option<K>,
    hi: Option<K>,
    lo2: Option<K>,
    hi2: Option<K>,
) -> bool {
    &&& forall|k: K| #![trigger above(lo2, k)] above(lo, k) ==> above(lo2, k)
    &&& forall|k: K| #![trigger upto(k, hi2)] upto(k, hi) ==> upto(k, hi2)
    &&& forall|k: K| #![trigger below(k, hi2)] below(k, hi) ==> below(k, hi2)
}

/// What lies between bounds lies between wider ones.
pub proof fn lemma_framed_weaken<K: Ord + Clone, V>(
    lo: Option<K>,
    hi: Option<K>,
    lo2: Option<K>,
    hi2: Option<K>,
    seps: Seq<K>,
    parts: Seq<Seq<(K, V)>>,
)
    requires
        framed(lo, hi, seps, parts),
        wider(lo, hi, lo2, hi2),
    ensures
        framed(lo2, hi2, seps, parts),
{
    assert forall|i: int| 0 <= i < parts.len() implies sorted::sorted(#[trigger] parts[i])
        && all_between(lo_at(lo2, seps, i), parts[i], hi_at(hi2, seps, i)) by {
        assert forall|x: int| 0 <= x < parts[i].len() implies between(
            lo_at(lo2, seps, i),
            (#[trigger] parts[i][x]).0,
            hi_at(hi2, seps, i),
        ) by {
            assert(between(lo_at(lo, seps, i), parts[i][x].0, hi_at(hi, seps, i)));
        }
    }
}

/// The bounds of a part get wider where a separator next to it is dropped.
pub proof fn lemma_wider<K: Ord + Clone>(
    lo: Option<K>,
    hi: Option<K>,
    seps: Seq<K>,
    c: int,
    i: int,
    j: int,
)
    requires
        key::ordered_key::<K>(),
        seps_between(lo, seps, hi),
        0 <= c < seps.len(),
        0 <= i <= seps.len(),
        0 <= j < seps.len(),
        i == (if j < c { j } else { j + 1 }) || i == (if j <= c { j } else { j + 1 }),
    ensures
        wider(
            lo_at(lo, seps, i),
            hi_at(hi, seps, i),
            lo_at(lo, seps.remove(c), j),
            hi_at(hi, seps.remove(c), j),
        ),
{
    key::lemma_order::<K>();
    let s = seps.remove(c);
    let l = lo_at(lo, seps, i);
    let l2 = lo_at(lo, s, j);
    let h = hi_at(hi, seps, i);
    let h2 = hi_at(hi, s, j);
    assert forall|k: K| above(l, k) implies #[trigger] above(l2, k) by {
        if j > 0 {
            let x = if j - 1 < c { j - 1 } else { j };
            assert(s[j - 1] == seps[x]);
            if x < i - 1 {
                assert(key::key_lt(seps[x], seps[i - 1]));
            }
        } else if i > 0 {
            assert(above(lo, seps[i - 1]));
        }
    }
    assert forall|k: K| upto(k, h) implies #[trigger] upto(k, h2) by {
        if j < s.len() {
            let x = if j < c { j } else { j + 1 };
            assert(s[j] == seps[x]);
            if i < x {
                assert(key::key_lt(seps[i], seps[x]));
                if key::key_lt(seps[x], k) {
                    assert(key::key_lt(seps[i], k));
                }
            }
        } else if i < seps.len() {
            assert(below(seps[i], hi));
            if hi is Some && key::key_lt(hi->0, k) {
                assert(key::key_lt(seps[i], k));
            }
        }
    }
    assert forall|k: K| below(k, h) implies #[trigger] below(k, h2) by {
        if j < s.len() {
            let x = if j < c { j } else { j + 1 };
            assert(s[j] == seps[x]);
            if i < x {
                assert(key::key_lt(seps[i], seps[x]));
            }
        } else if i < seps.len() {
            assert(below(seps[i], hi));
        }
    }
}

/// No key of the sequence lies in the range.
pub open spec fn disjoint<K: Ord + Clone, V>(range: KeyRange<K>, s: Seq<(K, V)>) -> bool {
    forall|x: int| 0 <= x < s.len() ==> !range.has_key((#[trigger] s[x]).0)
}

/// Every key of the sequence lies in the range.
pub open spec fn inside<K: Ord + Clone, V>(range: KeyRange<K>, s: Seq<(K, V)>) -> bool {
    forall|x: int| 0 <= x < s.len() ==> range.has_key((#[trigger] s[x]).0)
}

/// No key above the bound lies below the start of the range.
pub open spec fn start_covered<K: Ord + Clone>(range: KeyRange<K>, lo: Option<K>) -> bool {
    forall|k: K| #[trigger] above(lo, k) ==> range.from_start(k)
}

/// What is left of a sequence when a range is taken out.
pub open spec fn rest<K: Ord + Clone, V>(range: KeyRange<K>, s: Seq<(K, V)>) -> Seq<(K, V)> {
    s.filter(leaf::outside(range))
}

/// What remains of entries lies outside of the range, in the same order.
pub proof fn lemma_rest<K: Ord + Clone, V>(range: KeyRange<K>, s: Seq<(K, V)>)
    requires
        sorted::sorted(s),
    ensures
        sorted::sorted(rest(range, s)),
        forall|lo: Option<K>, hi: Option<K>|
            #![trigger all_between(lo, rest(range, s), hi)]
            all_between(lo, s, hi) ==> all_between(lo, rest(range, s), hi),
        disjoint(range, s) ==> rest(range, s) == s,
        inside(range, s) ==> rest(range, s).len() == 0,
{
    let f = leaf::outside::<K, V>(range);
    let r = rest(range, s);
    sorted::lemma_filter_sorted(s, f);
    assert forall|lo: Option<K>, hi: Option<K>|
        #![trigger all_between(lo, rest(range, s), hi)]
        all_between(lo, s, hi) implies all_between(lo, rest(range, s), hi) by {
        assert forall|x: int| 0 <= x < r.len() implies between(lo, (#[trigger] r[x]).0, hi) by {
            assert(s.contains(r[x]));
            let y = choose|y: int| 0 <= y < s.len() && s[y] == r[x];
            assert(between(lo, s[y].0, hi));
        }
    }
    if disjoint(range, s) {
        assert forall|x: int| 0 <= x < s.len() implies f(#[trigger] s[x]) by {
            assert(!range.has_key(s[x].0));
        }
        sorted::lemma_filter_all(s, f);
    }
    if inside(range, s) {
        assert forall|x: int| 0 <= x < s.len() implies !f(#[trigger] s[x]) by {
            assert(range.has_key(s[x].0));
        }
        sorted::lemma_filter_none(s, f);
    }
}

/// What the state of a bulk removal says of the separators seen so far.
pub open spec fn seen<K: Ord + Clone>(
    range: KeyRange<K>,
    seps: Seq<K>,
    j: int,
    state: RemoveRangeState,
) -> bool {
    match state {
        RemoveRangeState::Below => j == 0 || !range.from_start(seps[j - 1]),
        RemoveRangeState::MaybeBelow | RemoveRangeState::FullyContained => j > 0 && range.has_key(
            seps[j - 1],
        ),
        RemoveRangeState::MaybeAbove => false,
    }
}

/// What the state of a bulk removal says of the parts of a node.
pub proof fn lemma_border<K: Ord + Clone, V>(
    range: KeyRange<K>,
    lo: Option<K>,
    hi: Option<K>,
    seps: Seq<K>,
    parts: Seq<Seq<(K, V)>>,
    j: int,
    prev: RemoveRangeState,
    next: RemoveRangeState,
    start_unbounded: bool,
)
    requires
        key::ordered_key::<K>(),
        framed(lo, hi, seps, parts),
        0 <= j < seps.len(),
        seen(range, seps, j, prev),
        start_unbounded ==> start_covered(range, lo),
        next == RemoveRangeState::FullyContained <==> range.has_key(seps[j]) && (start_unbounded
            || prev != RemoveRangeState::Below),
        next == RemoveRangeState::MaybeBelow <==> range.has_key(seps[j]) && !start_unbounded && prev
            == RemoveRangeState::Below,
        next == RemoveRangeState::Below <==> !range.has_key(seps[j]) && prev
            == RemoveRangeState::Below && !range.from_start(seps[j]),
    ensures
        next != RemoveRangeState::MaybeAbove ==> seen(range, seps, j + 1, next),
        next == RemoveRangeState::Below ==> disjoint(range, parts[j]),
        next == RemoveRangeState::FullyContained ==> inside(range, parts[j]),
        next == RemoveRangeState::MaybeAbove ==> !range.to_end(seps[j]) && forall|i: int|
            j < i < parts.len() ==> disjoint(range, #[trigger] parts[i]),
{
    key::lemma_order::<K>();
    range.lemma_monotone();
    let p = parts[j];
    if next == RemoveRangeState::Below {
        assert forall|x: int| 0 <= x < p.len() implies !range.has_key((#[trigger] p[x]).0) by {
            assert(between(lo_at(lo, seps, j), p[x].0, hi_at(hi, seps, j)));
            assert(key::key_lt(p[x].0, seps[j]) || key::key_eq(p[x].0, seps[j]));
        }
    }
    if next == RemoveRangeState::FullyContained {
        assert forall|x: int| 0 <= x < p.len() implies range.has_key((#[trigger] p[x]).0) by {
            assert(between(lo_at(lo, seps, j), p[x].0, hi_at(hi, seps, j)));
            assert(key::key_lt(p[x].0, seps[j]) || key::key_eq(p[x].0, seps[j]));
            if prev != RemoveRangeState::Below {
                assert(key::key_lt(seps[j - 1], p[x].0));
            } else {
                if j > 0 {
                    assert(above(lo, seps[j - 1]));
                }
                assert(above(lo, p[x].0));
            }
        }
    }
    if next == RemoveRangeState::MaybeAbove {
        assert(range.from_start(seps[j])) by {
            if prev != RemoveRangeState::Below {
                assert(key::key_lt(seps[j - 1], seps[j]));
            }
        }
        assert(!range.to_end(seps[j]));
        assert forall|i: int| j < i < parts.len() implies disjoint(range, #[trigger] parts[i]) by {
            let q = parts[i];
            assert forall|x: int| 0 <= x < q.len() implies !range.has_key((#[trigger] q[x]).0) by {
                assert(between(lo_at(lo, seps, i), q[x].0, hi_at(hi, seps, i)));
                if i - 1 > j {
                    assert(key::key_lt(seps[j], seps[i - 1]));
                }
                assert(key::key_lt(seps[i - 1], q[x].0));
                assert(key::key_lt(seps[j], q[x].0));
            }
        }
    }
}

/// Replacing part `i` by what is left of it.
pub proof fn lemma_rest_update<K: Ord + Clone, V>(
    range: KeyRange<K>,
    lo: Option<K>,
    hi: Option<K>,
    seps: Seq<K>,
    parts: Seq<Seq<(K, V)>>,
    i: int,
)
    requires
        key::ordered_key::<K>(),
        framed(lo, hi, seps, parts),
        0 <= i < parts.len(),
    ensures
        framed(lo, hi, seps, parts.update(i, rest(range, parts[i]))),
        rest(range, flat(parts.update(i, rest(range, parts[i])))) == rest(range, flat(parts)),
{
    let f = leaf::outside::<K, V>(range);
    let p = parts[i];
    let q = rest(range, p);
    lemma_rest(range, p);
    assert(all_between(lo_at(lo, seps, i), q, hi_at(hi, seps, i)));
    lemma_framed_update(lo, hi, seps, parts, i, q);
    lemma_flat_at(parts, i);
    lemma_flat_update(parts, i, q);
    let a = flat(parts.take(i));
    let c = flat(parts.skip(i + 1));
    Seq::filter_distributes_over_add(a + p, c, f);
    Seq::filter_distributes_over_add(a, p, f);
    Seq::filter_distributes_over_add(a + q, c, f);
    Seq::filter_distributes_over_add(a, q, f);
    sorted::lemma_filter_sorted(p, f);
    sorted::lemma_filter_all(q, f);
}

/// A whole without keys in the range is what is left of it.
pub proof fn lemma_rest_whole<K: Ord + Clone, V>(range: KeyRange<K>, parts: Seq<Seq<(K, V)>>)
    requires
        forall|i: int| 0 <= i < parts.len() ==> disjoint(range, #[trigger] parts[i]),
    ensures
        rest(range, flat(parts)) == flat(parts),
{
    let f = leaf::outside::<K, V>(range);
    let s = flat(parts);
    assert forall|y: int| 0 <= y < s.len() implies f(#[trigger] s[y]) by {
        let (i, x) = lemma_flat_member(parts, y);
        assert(disjoint(range, parts[i]));
        assert(!range.has_key(parts[i][x].0));
    }
    sorted::lemma_filter_all(s, f);
}

/// Nothing in what is left lies in the range.
pub proof fn lemma_rest_disjoint<K: Ord + Clone, V>(range: KeyRange<K>, s: Seq<(K, V)>)
    requires
        sorted::sorted(s),
    ensures
        disjoint(range, rest(range, s)),
{
    sorted::lemma_filter_sorted(s, leaf::outside::<K, V>(range));
    let r = rest(range, s);
    assert forall|x: int| 0 <= x < r.len() implies !range.has_key((#[trigger] r[x]).0) by {
        assert(leaf::outside::<K, V>(range)(r[x]));
    }
}

/// Where the rests of two sequences agree, they still agree behind the next element, whether it is
/// dropped from the first one, replaced there or left as it is.
pub proof fn lemma_same_rest<A>(a: Seq<A>, b: Seq<A>, x: int, y: int)
    requires
        0 <= x < a.len(),
        0 <= y < b.len(),
        a.skip(x) == b.skip(y),
    ensures
        a[x] == b[y],
        a.remove(x).skip(x) == b.skip(y + 1),
        a.skip(x + 1) == b.skip(y + 1),
        forall|e: A| #[trigger] a.update(x, e).skip(x + 1) == b.skip(y + 1),
{
    assert(a.skip(x)[0] == a[x] && b.skip(y)[0] == b[y]);
    assert(a.skip(x + 1) =~= a.skip(x).skip(1));
    assert(b.skip(y + 1) =~= b.skip(y).skip(1));
    assert(a.remove(x).skip(x) =~= a.skip(x + 1));
    assert forall|e: A| #[trigger] a.update(x, e).skip(x + 1) == b.skip(y + 1) by {
        assert(a.update(x, e).skip(x + 1) =~= a.skip(x + 1));
    }
}

} // verus!
