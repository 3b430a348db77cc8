//! What was stored under a text is read back, and nothing else changes.

use vstd::prelude::*;
use crate::session::SessionStore;
use crate::store::TextMap;
use crate::text;

verus! {

/// What was saved for a session is what is read, and the other sessions stay as they are.
pub proof fn saved_model_call_is_read(
    store: &mut SessionStore,
    id: String,
    call: String,
    name: &str,
    before: Option<String>,
    after: Option<String>,
)
    requires
        call_ensures(SessionStore::save, (store, id, call), ()),
        call_ensures(SessionStore::get_or_create, (old(store), name), before),
        call_ensures(SessionStore::get_or_create, (final(store), name), after),
    ensures
        name@ == id@ ==> text::opt(after) == Some(call@),
        name@ != id@ ==> text::opt(after) == text::opt(before),
{
}

/// A session that was removed is gone, and the others stay; a new and a cleared store have none.
pub proof fn removed_session_is_gone(
    store: &mut SessionStore,
    id: &str,
    name: &str,
    before: Option<String>,
    after: Option<String>,
    cleared: &mut SessionStore,
    fresh: SessionStore,
    a: Option<String>,
    b: Option<String>,
)
    requires
        call_ensures(SessionStore::remove, (store, id), ()),
        call_ensures(SessionStore::get_or_create, (old(store), name), before),
        call_ensures(SessionStore::get_or_create, (final(store), name), after),
        call_ensures(SessionStore::clear, (cleared,), ()),
        call_ensures(SessionStore::new, (), fresh),
        call_ensures(SessionStore::get_or_create, (final(cleared), name), a),
        call_ensures(SessionStore::get_or_create, (&fresh, name), b),
    ensures
        name@ == id@ ==> after is None,
        name@ != id@ ==> text::opt(after) == text::opt(before),
        a is None,
        b is None,
{
}

/// The number of sessions grows by one where a session is saved for the first time, and stays where
/// it was saved before.
pub proof fn sessions_are_counted(
    store: &mut SessionStore,
    id: String,
    call: String,
    n: usize,
    m: usize,
    fresh: SessionStore,
    zero: usize,
    name: &str,
    there: Option<String>,
)
    requires
        call_ensures(SessionStore::save, (store, id, call), ()),
        call_ensures(SessionStore::len, (old(store),), n),
        call_ensures(SessionStore::len, (final(store),), m),
        call_ensures(SessionStore::get_or_create, (old(store), name), there),
        call_ensures(SessionStore::new, (), fresh),
        call_ensures(SessionStore::len, (&fresh,), zero),
        old(store)@.dom().finite(),
        name@ == id@,
    ensures
        there is None ==> m == n + 1,
        there is Some ==> m == n,
        zero == 0,
{
}

/// What was put into a map under a key is found under it, until it is removed; other keys keep their
/// values.
pub proof fn entries_are_found_until_removed<V>(
    map: &mut TextMap<V>,
    key: String,
    value: V,
    name: &str,
    before: Option<&V>,
    after: Option<&V>,
    other: &mut TextMap<V>,
    gone: &str,
    taken: Option<V>,
    there: Option<&V>,
    left: Option<&V>,
)
    requires
        call_ensures(TextMap::<V>::insert, (map, key, value), ()),
        call_ensures(TextMap::<V>::get, (old(map), name), before),
        call_ensures(TextMap::<V>::get, (final(map), name), after),
        call_ensures(TextMap::<V>::remove, (other, gone), taken),
        call_ensures(TextMap::<V>::get, (old(other), name), there),
        call_ensures(TextMap::<V>::get, (final(other), name), left),
    ensures
        name@ == key@ ==> after is Some && *after->0 == value,
        name@ != key@ ==> (after is Some <==> before is Some),
        name@ != key@ && before is Some ==> *after->0 == *before->0,
        name@ == gone@ ==> left is None && (taken is Some <==> there is Some),
        name@ == gone@ && there is Some ==> taken->0 == *there->0,
        name@ != gone@ ==> (left is Some <==> there is Some),
        name@ != gone@ && there is Some ==> *left->0 == *there->0,
{
}

/// A new map and a cleared one hold nothing.
pub proof fn empty_maps_hold_nothing<V>(
    fresh: TextMap<V>,
    cleared: &mut TextMap<V>,
    name: &str,
    a: Option<&V>,
    b: Option<&V>,
    n: usize,
)
    requires
        call_ensures(TextMap::<V>::new, (), fresh),
        call_ensures(TextMap::<V>::clear, (cleared,), ()),
        call_ensures(TextMap::<V>::get, (&fresh, name), a),
        call_ensures(TextMap::<V>::get, (final(cleared), name), b),
        call_ensures(TextMap::<V>::len, (&fresh,), n),
    ensures
        a is None,
        b is None,
        n == 0,
{
}

} // verus!
