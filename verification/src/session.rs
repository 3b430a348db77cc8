//! Which model call the requests of a session share.

use vstd::prelude::*;
use crate::store::TextMap;

verus! {

/// The model calls of sessions.
pub struct SessionStore {
    sessions: TextMap<String>,
}

impl View for SessionStore {
    type V = Map<Seq<char>, Seq<char>>;

    closed spec fn view(&self) -> Map<Seq<char>, Seq<char>> {
        self.sessions@.map_values(|s: String| s@)
    }
}

impl SessionStore {
    /// The store is sound.
    pub closed spec fn wf(&self) -> bool {
        self.sessions.wf()
    }

    /// Creates an empty store.
    pub fn new() -> (r: SessionStore)
        ensures
            r.wf(),
            r@ == Map::<Seq<char>, Seq<char>>::empty(),
    {
        let r = SessionStore { sessions: TextMap::new() };
        assert(r@ =~= Map::<Seq<char>, Seq<char>>::empty());
        r
    }

    /// Returns the model call of a session, if one was saved.
    pub fn get_or_create(&self, session_id: &str) -> (r: Option<String>)
        ensures
            match r {
                Some(id) => self@.dom().contains(session_id@) && id@ == self@[session_id@],
                None => !self@.dom().contains(session_id@),
            },
    {
        match self.sessions.get(session_id) {
            Some(id) => Some(id.clone()),
            None => None,
        }
    }

    /// Saves the model call of a session.
    pub fn save(&mut self, session_id: String, model_call_id: String)
        requires
            old(self).wf(),
        ensures
            final(self).wf(),
            final(self)@ == old(self)@.insert(session_id@, model_call_id@),
    {
        let ghost before = self@;
        self.sessions.insert(session_id, model_call_id);
        assert(self@ =~= before.insert(session_id@, model_call_id@));
    }

    /// Forgets a session.
    pub fn remove(&mut self, session_id: &str)
        requires
            old(self).wf(),
        ensures
            final(self).wf(),
            final(self)@ == old(self)@.remove(session_id@),
    {
        let ghost before = self@;
        let _id = self.sessions.remove(session_id);
        assert(self@ =~= before.remove(session_id@));
    }

    /// Forgets all sessions.
    pub fn clear(&mut self)
        ensures
            final(self).wf(),
            final(self)@ == Map::<Seq<char>, Seq<char>>::empty(),
    {
        self.sessions.clear();
        assert(self@ =~= Map::<Seq<char>, Seq<char>>::empty());
    }

    /// Returns how many sessions there are.
    pub fn len(&self) -> (r: usize)
        requires
            self.wf(),
        ensures
            r == self@.dom().len(),
    {
        assert(self@.dom() =~= self.sessions@.dom());
        self.sessions.len()
    }
}

/// What was saved for a session is what is read, and other sessions stay as they are.
pub proof fn save_is_read_back(
    store: Map<Seq<char>, Seq<char>>,
    session: Seq<char>,
    model_call: Seq<char>,
    other: Seq<char>,
)
    requires
        other != session,
    ensures
        store.insert(session, model_call).dom().contains(session),
        store.insert(session, model_call)[session] == model_call,
        store.insert(session, model_call).dom().contains(other) == store.dom().contains(other),
        store.dom().contains(other) ==> store.insert(session, model_call)[other] == store[other],
{
}

/// Removing a session takes back that it was saved.
pub proof fn remove_undoes_save(
    store: Map<Seq<char>, Seq<char>>,
    session: Seq<char>,
    model_call: Seq<char>,
)
    requires
        !store.dom().contains(session),
    ensures
        store.insert(session, model_call).remove(session) == store,
        !store.insert(session, model_call).remove(session).dom().contains(session),
{
    assert(store.insert(session, model_call).remove(session) =~= store);
}

} // verus!
