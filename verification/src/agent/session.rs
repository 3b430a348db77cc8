//! Agent sessions.

use vstd::prelude::*;
use crate::store::TextMap;
use crate::text;

verus! {

/// An agent session.
#[derive(Debug, Clone, PartialEq)]
pub struct AgentSession {
    pub model_call_id: String,
    pub conversation_id: String,
    /// When the session was created, in seconds since 1970.
    pub created_at: i64,
    /// When the session was last used, in seconds since 1970.
    pub last_active: i64,
    pub iteration_count: u32,
}

/// [`AgentSession`] as characters.
pub struct SessionView {
    pub model_call_id: Seq<char>,
    pub conversation_id: Seq<char>,
    pub created_at: i64,
    pub last_active: i64,
    pub iteration_count: u32,
}

impl View for AgentSession {
    type V = SessionView;

    open spec fn view(&self) -> SessionView {
        SessionView {
            model_call_id: self.model_call_id@,
            conversation_id: self.conversation_id@,
            created_at: self.created_at,
            last_active: self.last_active,
            iteration_count: self.iteration_count,
        }
    }
}

impl AgentSession {
    /// Returns a copy.
    pub fn copy(&self) -> (r: AgentSession)
        ensures
            r@ == self@,
    {
        AgentSession {
            model_call_id: self.model_call_id.clone(),
            conversation_id: self.conversation_id.clone(),
            created_at: self.created_at,
            last_active: self.last_active,
            iteration_count: self.iteration_count,
        }
    }
}

/// After how many seconds without use a session expires.
pub const SESSION_TIMEOUT: i64 = 1800;

/// The session has not been used for too long.
pub open spec fn expired(s: SessionView, now: i64) -> bool {
    now - s.last_active >= SESSION_TIMEOUT
}

/// The session after it was used once more.
pub open spec fn used(s: SessionView, now: i64) -> SessionView {
    SessionView {
        last_active: now,
        iteration_count: if s.iteration_count == u32::MAX {
            0
        } else {
            (s.iteration_count + 1) as u32
        },
        ..s
    }
}

/// The agent sessions, by their model calls.
pub struct AgentSessionManager {
    sessions: TextMap<AgentSession>,
}

impl View for AgentSessionManager {
    type V = Map<Seq<char>, SessionView>;

    closed spec fn view(&self) -> Map<Seq<char>, SessionView> {
        self.sessions@.map_values(|s: AgentSession| s@)
    }
}

/// The sessions that have not expired.
pub open spec fn alive(sessions: Map<Seq<char>, SessionView>, now: i64) -> Map<
    Seq<char>,
    SessionView,
> {
    Map::new(
        |k: Seq<char>| sessions.dom().contains(k) && !expired(sessions[k], now),
        |k: Seq<char>| sessions[k],
    )
}

/// A client that names a session so means this one: that of the model call, or else one of the
/// conversation.
pub open spec fn names(
    sessions: Map<Seq<char>, SessionView>,
    session_id: Seq<char>,
    s: SessionView,
) -> bool {
    if sessions.dom().contains(session_id) {
        s == sessions[session_id]
    } else {
        s.conversation_id == session_id && exists|k: Seq<char>| #[trigger]
            sessions.dom().contains(k) && sessions[k] == s
    }
}

/// A client that names a session so means none.
pub open spec fn names_none(sessions: Map<Seq<char>, SessionView>, session_id: Seq<char>) -> bool {
    &&& !sessions.dom().contains(session_id)
    &&& forall|k: Seq<char>| #[trigger]
        sessions.dom().contains(k) ==> sessions[k].conversation_id != session_id
}

impl AgentSessionManager {
    /// The manager is sound.
    pub closed spec fn wf(&self) -> bool {
        self.sessions.wf()
    }

    /// Creates a manager without sessions.
    pub fn new() -> (r: AgentSessionManager)
        ensures
            r.wf(),
            r@ == Map::<Seq<char>, SessionView>::empty(),
    {
        let r = AgentSessionManager { sessions: TextMap::new() };
        assert(r@ =~= Map::<Seq<char>, SessionView>::empty());
        r
    }

    /// Creates a session with the identifiers.
    pub fn create_session(
        &mut self,
        model_call_id: String,
        conversation_id: String,
        now: i64,
    ) -> (r: AgentSession)
        requires
            old(self).wf(),
        ensures
            final(self).wf(),
            r@ == (SessionView {
                model_call_id: model_call_id@,
                conversation_id: conversation_id@,
                created_at: now,
                last_active: now,
                iteration_count: 0,
            }),
            final(self)@ == old(self)@.insert(model_call_id@, r@),
    {
        let ghost before = self@;
        let key = model_call_id.clone();
        let session = AgentSession {
            model_call_id,
            conversation_id,
            created_at: now,
            last_active: now,
            iteration_count: 0,
        };
        let r = session.copy();
        self.sessions.insert(key, session);
        assert(self@ =~= before.insert(model_call_id@, r@));
        r
    }

    /// Returns the session of a model call.
    pub fn get_session(&self, model_call_id: &str) -> (r: Option<AgentSession>)
        ensures
            match r {
                Some(s) => self@.dom().contains(model_call_id@) && s@ == self@[model_call_id@],
                None => !self@.dom().contains(model_call_id@),
            },
    {
        match self.sessions.get(model_call_id) {
            Some(s) => Some(s.copy()),
            None => None,
        }
    }

    /// Returns the session that a client names, by its model call or by its conversation.
    pub fn find_session(&self, session_id: &str) -> (r: Option<AgentSession>)
        requires
            self.wf(),
        ensures
            match r {
                Some(s) => names(self@, session_id@, s@),
                None => names_none(self@, session_id@),
            },
    {
        if let Some(s) = self.get_session(session_id) {
            return Some(s);
        }
        let is_named = |s: &AgentSession| -> (b: bool)
            ensures
                b == (s@.conversation_id == session_id@),
            { text::equal(s.conversation_id.as_str(), session_id) };
        match self.sessions.find_key(&is_named) {
            Some(key) => {
                let r = self.get_session(key.as_str());
                assert(self@.dom().contains(key@));
                r
            },
            None => {
                assert forall|k: Seq<char>| #[trigger] self@.dom().contains(k) implies self@[k].conversation_id
                    != session_id@ by {
                    assert(self.sessions@.dom().contains(k));
                }
                None
            },
        }
    }

    /// Notes that a session is used once more, if it is there.
    pub fn update_session(&mut self, model_call_id: &str, now: i64)
        requires
            old(self).wf(),
        ensures
            final(self).wf(),
            final(self)@ == (if old(self)@.dom().contains(model_call_id@) {
                old(self)@.insert(model_call_id@, used(old(self)@[model_call_id@], now))
            } else {
                old(self)@
            }),
    {
        let ghost before = self@;
        if let Some(s) = self.get_session(model_call_id) {
            let session = AgentSession {
                model_call_id: s.model_call_id,
                conversation_id: s.conversation_id,
                created_at: s.created_at,
                last_active: now,
                iteration_count: s.iteration_count.wrapping_add(1),
            };
            self.sessions.insert(model_call_id.to_owned(), session);
            assert(self@ =~= before.insert(
                model_call_id@,
                used(before[model_call_id@], now),
            ));
        }
    }

    /// Forgets the sessions that have expired.
    pub fn cleanup_expired(&mut self, now: i64)
        requires
            old(self).wf(),
        ensures
            final(self).wf(),
            final(self)@ == alive(old(self)@, now),
    {
        let ghost before = self@;
        let is_expired = |s: &AgentSession| -> (b: bool)
            ensures
                b == expired(s@, now),
            { now as i128 - s.last_active as i128 >= SESSION_TIMEOUT as i128 };
        loop
            invariant
                self.wf(),
                forall|s: &AgentSession| #[trigger] call_requires(is_expired, (s,)),
                forall|s: &AgentSession, b: bool|
                    call_ensures(is_expired, (s,), b) ==> b == expired(s@, now),
                forall|k: Seq<char>| #[trigger]
                    self@.dom().contains(k) ==> before.dom().contains(k) && self@[k] == before[k],
                forall|k: Seq<char>| #[trigger]
                    before.dom().contains(k) && !self@.dom().contains(k) ==> expired(
                        before[k],
                        now,
                    ),
            ensures
                self.wf(),
                self@ =~= alive(before, now),
            decreases self.count(),
        {
            match self.sessions.find_key(&is_expired) {
                Some(key) => {
                    let ghost here = self@;
                    let ghost count = self.count();
                    proof {
                        assert(here.dom().contains(key@));
                        self.lemma_count();
                    }
                    let _gone = self.sessions.remove(key.as_str());
                    proof {
                        assert(self@ =~= here.remove(key@));
                        self.lemma_count();
                    }
                },
                None => {
                    proof {
                        assert forall|k: Seq<char>| #[trigger] self@.dom().contains(k) implies !expired(
                            before[k],
                            now,
                        ) by {
                            assert(self.sessions@.dom().contains(k));
                            assert(call_ensures(is_expired, (&self.sessions@[k],), false));
                        }
                        assert(self@ =~= alive(before, now));
                    }
                    break;
                },
            }
        }
    }

    /// How many sessions there are.
    closed spec fn count(&self) -> nat {
        self@.dom().len()
    }

    proof fn lemma_count(&self)
        requires
            self.wf(),
        ensures
            self@.dom().finite(),
    {
        self.sessions.lemma_finite();
        assert(self@.dom() =~= self.sessions@.dom());
    }
}

/// The sessions of an application.
pub struct AppState {
    agent_session_manager: AgentSessionManager,
}

impl AppState {
    /// The sessions.
    pub closed spec fn sessions(&self) -> AgentSessionManager {
        self.agent_session_manager
    }

    /// Creates the state of an application without sessions.
    pub fn new() -> (r: AppState)
        ensures
            r.sessions().wf(),
            r.sessions()@ == Map::<Seq<char>, SessionView>::empty(),
    {
        AppState { agent_session_manager: AgentSessionManager::new() }
    }

    /// Returns the sessions.
    pub fn agent_session_manager(&mut self) -> (r: &mut AgentSessionManager)
        ensures
            *r == old(self).sessions(),
            final(self).sessions() == *final(r),
    {
        &mut self.agent_session_manager
    }
}

/// A session that was created can be named by its model call, and by its conversation where no
/// other session has it and it is no model call.
pub proof fn created_session_is_found(
    sessions: Map<Seq<char>, SessionView>,
    s: SessionView,
    other: SessionView,
)
    ensures
        names(sessions.insert(s.model_call_id, s), s.model_call_id, other) == (other == s),
        !names_none(sessions.insert(s.model_call_id, s), s.model_call_id),
        !names_none(sessions.insert(s.model_call_id, s), s.conversation_id),
        !sessions.dom().contains(s.conversation_id) && (forall|k: Seq<char>| #[trigger]
            sessions.dom().contains(k) && k != s.model_call_id ==> sessions[k].conversation_id
                != s.conversation_id) ==> names(
            sessions.insert(s.model_call_id, s),
            s.conversation_id,
            other,
        ) == (other == s),
{
    assert(sessions.insert(s.model_call_id, s).dom().contains(s.model_call_id));
}

/// Every session stands under its model call, and no identifier stands for two sessions.
pub open spec fn distinct(sessions: Map<Seq<char>, SessionView>) -> bool {
    &&& forall|k: Seq<char>| #[trigger]
        sessions.dom().contains(k) ==> sessions[k].model_call_id == k
    &&& forall|k: Seq<char>, l: Seq<char>|
        #![trigger sessions.dom().contains(k), sessions.dom().contains(l)]
        sessions.dom().contains(k) && sessions.dom().contains(l) ==> {
            &&& sessions[k].conversation_id == sessions[l].conversation_id ==> k == l
            &&& sessions[k].conversation_id == l ==> k == l
        }
}

/// The identifiers of the session stand for no other one.
pub open spec fn fresh(sessions: Map<Seq<char>, SessionView>, s: SessionView) -> bool {
    &&& !sessions.dom().contains(s.model_call_id)
    &&& !sessions.dom().contains(s.conversation_id)
    &&& forall|k: Seq<char>| #[trigger]
        sessions.dom().contains(k) ==> sessions[k].conversation_id != s.conversation_id
            && sessions[k].conversation_id != s.model_call_id
}

/// Whatever is done to sessions, no identifier comes to stand for two of them, as long as each new
/// session has fresh identifiers.
pub proof fn sessions_stay_distinct(
    sessions: Map<Seq<char>, SessionView>,
    s: SessionView,
    k: Seq<char>,
    now: i64,
)
    requires
        distinct(sessions),
    ensures
        fresh(sessions, s) ==> distinct(sessions.insert(s.model_call_id, s)),
        sessions.dom().contains(k) ==> distinct(sessions.insert(k, used(sessions[k], now))),
        distinct(alive(sessions, now)),
        distinct(Map::empty()),
{
    let created = sessions.insert(s.model_call_id, s);
    if fresh(sessions, s) {
        assert forall|a: Seq<char>, b: Seq<char>|
            #![trigger created.dom().contains(a), created.dom().contains(b)]
            created.dom().contains(a) && created.dom().contains(b) implies {
            &&& created[a].conversation_id == created[b].conversation_id ==> a == b
            &&& created[a].conversation_id == b ==> a == b
        } by {
            assert(a != s.model_call_id ==> sessions.dom().contains(a));
            assert(b != s.model_call_id ==> sessions.dom().contains(b));
        }
    }
    let touched = sessions.insert(k, used(sessions[k], now));
    if sessions.dom().contains(k) {
        assert forall|a: Seq<char>, b: Seq<char>|
            #![trigger touched.dom().contains(a), touched.dom().contains(b)]
            touched.dom().contains(a) && touched.dom().contains(b) implies {
            &&& touched[a].conversation_id == touched[b].conversation_id ==> a == b
            &&& touched[a].conversation_id == b ==> a == b
        } by {
            assert(sessions.dom().contains(a) && sessions.dom().contains(b));
        }
    }
    let kept = alive(sessions, now);
    assert forall|a: Seq<char>, b: Seq<char>|
        #![trigger kept.dom().contains(a), kept.dom().contains(b)]
        kept.dom().contains(a) && kept.dom().contains(b) implies {
        &&& kept[a].conversation_id == kept[b].conversation_id ==> a == b
        &&& kept[a].conversation_id == b ==> a == b
    } by {
        assert(sessions.dom().contains(a) && sessions.dom().contains(b));
    }
}

/// A session keeps its identifiers, whatever is done to it or to others, until it expires.
pub proof fn identifiers_stay(
    sessions: Map<Seq<char>, SessionView>,
    model_call_id: Seq<char>,
    s: SessionView,
    k: Seq<char>,
    now: i64,
)
    requires
        sessions.dom().contains(model_call_id),
    ensures
        s.model_call_id != model_call_id ==> same_identifiers(
            sessions,
            sessions.insert(s.model_call_id, s),
            model_call_id,
        ),
        sessions.dom().contains(k) ==> same_identifiers(
            sessions,
            sessions.insert(k, used(sessions[k], now)),
            model_call_id,
        ),
        !expired(sessions[model_call_id], now) ==> same_identifiers(
            sessions,
            alive(sessions, now),
            model_call_id,
        ),
{
}

/// The session of the model call is there before and after, with the same identifiers.
pub open spec fn same_identifiers(
    before: Map<Seq<char>, SessionView>,
    after: Map<Seq<char>, SessionView>,
    model_call_id: Seq<char>,
) -> bool {
    &&& before.dom().contains(model_call_id)
    &&& after.dom().contains(model_call_id)
    &&& after[model_call_id].model_call_id == before[model_call_id].model_call_id
    &&& after[model_call_id].conversation_id == before[model_call_id].conversation_id
}

/// The identifier that an answer gives, that of the conversation, names the same session again: the
/// next answer has the same model call and the same conversation.
pub proof fn returned_session_is_reused(
    sessions: Map<Seq<char>, SessionView>,
    s: SessionView,
    later: Map<Seq<char>, SessionView>,
    named: SessionView,
)
    requires
        sessions.dom().contains(s.model_call_id),
        sessions[s.model_call_id].model_call_id == s.model_call_id,
        sessions[s.model_call_id].conversation_id == s.conversation_id,
        same_identifiers(sessions, later, s.model_call_id),
        distinct(later),
    ensures
        !names_none(later, s.conversation_id),
        names(later, s.conversation_id, named) == (named == later[s.model_call_id]),
        names(later, s.conversation_id, named) ==> named.model_call_id == s.model_call_id
            && named.conversation_id == s.conversation_id,
{
    assert(later.dom().contains(s.model_call_id));
    if later.dom().contains(s.conversation_id) {
        assert(later[s.model_call_id].conversation_id == s.conversation_id);
    }
}

/// Using a session changes neither its identifiers nor when it was created, and keeps it from
/// expiring.
pub proof fn use_keeps_session(s: SessionView, now: i64)
    ensures
        used(s, now).model_call_id == s.model_call_id,
        used(s, now).conversation_id == s.conversation_id,
        used(s, now).created_at == s.created_at,
        !expired(used(s, now), now),
{
}

/// Once the expired sessions are forgotten, doing so again at the same time changes nothing.
pub proof fn cleanup_is_idempotent(sessions: Map<Seq<char>, SessionView>, now: i64)
    ensures
        alive(alive(sessions, now), now) == alive(sessions, now),
{
    assert(alive(alive(sessions, now), now) =~= alive(sessions, now));
}

} // verus!
