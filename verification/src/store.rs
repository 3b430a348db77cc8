//! A map with text as keys.

use vstd::prelude::*;
use crate::text;

verus! {

/// A map with text as keys.
pub struct TextMap<V> {
    entries: Vec<(String, V)>,
}

/// The first position from `from` on of an entry with the key; the length where there is none.
spec fn position<V>(entries: Seq<(String, V)>, key: Seq<char>, from: int) -> int
    decreases entries.len() - from,
{
    if 0 <= from < entries.len() && entries[from].0@ != key {
        position(entries, key, from + 1)
    } else {
        from
    }
}

proof fn lemma_position<V>(entries: Seq<(String, V)>, key: Seq<char>, from: int, at: int)
    requires
        0 <= from <= at < entries.len(),
        entries[at].0@ == key,
        forall|j: int| from <= j < at ==> (#[trigger] entries[j]).0@ != key,
    ensures
        position(entries, key, from) == at,
    decreases at - from,
{
    if from < at {
        lemma_position(entries, key, from + 1, at);
    }
}

proof fn lemma_absent<V>(entries: Seq<(String, V)>, key: Seq<char>, from: int)
    requires
        0 <= from <= entries.len(),
        forall|j: int| from <= j < entries.len() ==> (#[trigger] entries[j]).0@ != key,
    ensures
        position(entries, key, from) == entries.len(),
    decreases entries.len() - from,
{
    if from < entries.len() {
        lemma_absent(entries, key, from + 1);
    }
}

proof fn lemma_found<V>(entries: Seq<(String, V)>, key: Seq<char>, from: int)
    requires
        0 <= from <= entries.len(),
    ensures
        from <= position(entries, key, from) <= entries.len(),
        position(entries, key, from) < entries.len() ==> entries[position(
            entries,
            key,
            from,
        )].0@ == key,
        forall|j: int|
            from <= j < position(entries, key, from) ==> (#[trigger] entries[j]).0@ != key,
    decreases entries.len() - from,
{
    if from < entries.len() && entries[from].0@ != key {
        lemma_found(entries, key, from + 1);
    }
}

impl<V> View for TextMap<V> {
    type V = Map<Seq<char>, V>;

    closed spec fn view(&self) -> Map<Seq<char>, V> {
        Map::new(
            |k: Seq<char>| position(self.entries@, k, 0) < self.entries@.len(),
            |k: Seq<char>| self.entries@[position(self.entries@, k, 0)].1,
        )
    }
}

impl<V> TextMap<V> {
    /// No key stands twice.
    pub closed spec fn wf(&self) -> bool {
        forall|i: int, j: int|
            0 <= i < j < self.entries@.len() ==> (#[trigger] self.entries@[i]).0@ != (
            #[trigger] self.entries@[j]).0@
    }

    /// Creates an empty map.
    pub fn new() -> (m: TextMap<V>)
        ensures
            m.wf(),
            m@ == Map::<Seq<char>, V>::empty(),
    {
        let m = TextMap { entries: Vec::new() };
        assert(m@ =~= Map::<Seq<char>, V>::empty());
        m
    }

    fn find(&self, key: &str) -> (r: Option<usize>)
        ensures
            match r {
                Some(i) => i < self.entries@.len() && i == position(self.entries@, key@, 0)
                    && self.entries@[i as int].0@ == key@,
                None => position(self.entries@, key@, 0) == self.entries@.len(),
            },
    {
        let mut i: usize = 0;
        while i < self.entries.len()
            invariant
                i <= self.entries@.len(),
                forall|j: int| 0 <= j < i ==> (#[trigger] self.entries@[j]).0@ != key@,
            decreases self.entries@.len() - i,
        {
            if text::equal(self.entries[i].0.as_str(), key) {
                proof {
                    lemma_position(self.entries@, key@, 0, i as int);
                }
                return Some(i);
            }
            i += 1;
        }
        proof {
            lemma_absent(self.entries@, key@, 0);
        }
        None
    }

    /// Returns the value of the key.
    pub fn get(&self, key: &str) -> (r: Option<&V>)
        ensures
            match r {
                Some(v) => self@.dom().contains(key@) && *v == self@[key@],
                None => !self@.dom().contains(key@),
            },
    {
        match self.find(key) {
            Some(i) => Some(&self.entries[i].1),
            None => None,
        }
    }

    /// Sets the value of the key.
    pub fn insert(&mut self, key: String, value: V)
        requires
            old(self).wf(),
        ensures
            final(self).wf(),
            final(self)@ == old(self)@.insert(key@, value),
    {
        let ghost name = key@;
        let _old = self.remove(key.as_str());
        let ghost removed = self.entries@;
        let ghost before = self@;
        self.entries.push((key, value));
        proof {
            let now = self.entries@;
            assert(!before.dom().contains(name));
            lemma_found(removed, name, 0);
            assert(forall|j: int| 0 <= j < removed.len() ==> (#[trigger] removed[j]).0@ != name);
            assert forall|k: Seq<char>| #[trigger] self@.dom().contains(k) == before.insert(
                name,
                value,
            ).dom().contains(k) && (self@.dom().contains(k) ==> self@[k] == before.insert(
                name,
                value,
            )[k]) by {
                lemma_found(removed, k, 0);
                if k == name {
                    lemma_position(now, k, 0, removed.len() as int);
                } else if position(removed, k, 0) < removed.len() {
                    lemma_position(now, k, 0, position(removed, k, 0));
                } else {
                    lemma_absent(now, k, 0);
                }
            }
            assert(self@ =~= before.insert(name, value));
        }
    }

    /// Removes the key, and returns its value.
    pub fn remove(&mut self, key: &str) -> (r: Option<V>)
        requires
            old(self).wf(),
        ensures
            final(self).wf(),
            final(self)@ == old(self)@.remove(key@),
            match r {
                Some(v) => old(self)@.dom().contains(key@) && v == old(self)@[key@],
                None => !old(self)@.dom().contains(key@),
            },
    {
        let ghost before = self.entries@;
        let ghost map = self@;
        match self.find(key) {
            Some(i) => {
                let (_, v) = self.entries.remove(i);
                proof {
                    let now = self.entries@;
                    assert(now == before.remove(i as int));
                    assert forall|k: Seq<char>| #[trigger] self@.dom().contains(k) == map.remove(
                        key@,
                    ).dom().contains(k) && (self@.dom().contains(k) ==> self@[k] == map.remove(
                        key@,
                    )[k]) by {
                        lemma_found(before, k, 0);
                        let at = position(before, k, 0);
                        if k == key@ {
                            assert forall|j: int| 0 <= j < now.len() implies (
                            #[trigger] now[j]).0@ != k by {
                                if j < i {
                                    assert(now[j] == before[j]);
                                } else {
                                    assert(now[j] == before[j + 1]);
                                }
                            }
                            lemma_absent(now, k, 0);
                        } else if at < before.len() {
                            let to = if at < i {
                                at
                            } else {
                                at - 1
                            };
                            assert(now[to] == before[at]);
                            assert forall|j: int| 0 <= j < to implies (#[trigger] now[j]).0@
                                != k by {
                                if j < i {
                                    assert(now[j] == before[j]);
                                } else {
                                    assert(now[j] == before[j + 1]);
                                }
                            }
                            lemma_position(now, k, 0, to);
                        } else {
                            assert forall|j: int| 0 <= j < now.len() implies (
                            #[trigger] now[j]).0@ != k by {
                                if j < i {
                                    assert(now[j] == before[j]);
                                } else {
                                    assert(now[j] == before[j + 1]);
                                }
                            }
                            lemma_absent(now, k, 0);
                        }
                    }
                    assert(self@ =~= map.remove(key@));
                }
                Some(v)
            },
            None => {
                assert(self@ =~= map.remove(key@));
                None
            },
        }
    }

    /// Removes all keys.
    pub fn clear(&mut self)
        ensures
            final(self).wf(),
            final(self)@ == Map::<Seq<char>, V>::empty(),
    {
        self.entries.clear();
        assert(self@ =~= Map::<Seq<char>, V>::empty());
    }

    /// Returns how many keys there are.
    pub fn len(&self) -> (r: usize)
        requires
            self.wf(),
        ensures
            self@.dom().finite(),
            r == self@.dom().len(),
    {
        proof {
            self.lemma_len();
        }
        self.entries.len()
    }

    proof fn lemma_len(&self)
        requires
            self.wf(),
        ensures
            self@.dom().finite(),
            self@.dom().len() == self.entries@.len(),
    {
        let keys = Seq::new(self.entries@.len(), |i: int| self.entries@[i].0@);
        assert(keys.no_duplicates());
        keys.unique_seq_to_set();
        assert(keys.to_set() =~= self@.dom()) by {
            assert forall|k: Seq<char>| #[trigger]
                keys.to_set().contains(k) == self@.dom().contains(k) by {
                lemma_found(self.entries@, k, 0);
                if keys.contains(k) {
                    let i = choose|i: int| 0 <= i < keys.len() && keys[i] == k;
                    assert(self.entries@[i].0@ == k);
                } else if position(self.entries@, k, 0) < self.entries@.len() {
                    assert(keys[position(self.entries@, k, 0)] == k);
                }
            }
        }
        keys.lemma_cardinality_of_set();
    }

    /// There are finitely many keys.
    pub proof fn lemma_finite(&self)
        requires
            self.wf(),
        ensures
            self@.dom().finite(),
    {
        self.lemma_len();
    }

    /// The key of the first entry for which the test holds.
    ///
    /// Returns nothing where there is none.
    pub fn find_key<F: Fn(&V) -> bool>(&self, test: &F) -> (r: Option<String>)
        requires
            self.wf(),
            forall|v: &V| #[trigger] call_requires(*test, (v,)),
        ensures
            match r {
                Some(k) => self@.dom().contains(k@) && call_ensures(*test, (&self@[k@],), true),
                None => forall|k: Seq<char>| #[trigger]
                    self@.dom().contains(k) ==> call_ensures(*test, (&self@[k],), false),
            },
    {
        let mut i: usize = 0;
        while i < self.entries.len()
            invariant
                i <= self.entries@.len(),
                self.wf(),
                forall|v: &V| #[trigger] call_requires(*test, (v,)),
                forall|j: int|
                    0 <= j < i ==> call_ensures(*test, (&(#[trigger] self.entries@[j]).1,), false),
            decreases self.entries@.len() - i,
        {
            let hit = test(&self.entries[i].1);
            if hit {
                proof {
                    lemma_position(self.entries@, self.entries@[i as int].0@, 0, i as int);
                }
                return Some(self.entries[i].0.clone());
            }
            i += 1;
        }
        proof {
            assert forall|k: Seq<char>| #[trigger] self@.dom().contains(k) implies call_ensures(
                *test,
                (&self@[k],),
                false,
            ) by {
                lemma_found(self.entries@, k, 0);
            }
        }
        None
    }
}

} // verus!
