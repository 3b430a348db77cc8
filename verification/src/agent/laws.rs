//! What a client of the agent sees: how its session is found, kept and forgotten, and what each
//! step of its request does.

use vstd::prelude::*;
use crate::agent::run;
use crate::agent::run::{
    execute_tool, AgentChatRequest, AgentError, AgentIteration, AgentRun, LlmResponse, Progress,
    ToolCall,
};
use crate::agent::session;
use crate::agent::session::{AgentSession, AgentSessionManager, AppState};
use crate::codec;
use crate::text;

verus! {

/// A new session has the identifiers that it is given, was used at the time it was created, and has
/// made no step. It is found under its model call; all other sessions stay.
pub proof fn new_session_is_kept(
    manager: &mut AgentSessionManager,
    model_call_id: String,
    conversation_id: String,
    now: i64,
    r: AgentSession,
    name: &str,
    before: Option<AgentSession>,
    after: Option<AgentSession>,
)
    requires
        call_ensures(
            AgentSessionManager::create_session,
            (manager, model_call_id, conversation_id, now),
            r,
        ),
        call_ensures(AgentSessionManager::get_session, (old(manager), name), before),
        call_ensures(AgentSessionManager::get_session, (final(manager), name), after),
    ensures
        r.model_call_id@ == model_call_id@,
        r.conversation_id@ == conversation_id@,
        r.created_at == now,
        r.last_active == now,
        r.iteration_count == 0,
        name@ == model_call_id@ ==> after is Some && (after->0)@ == r@,
        name@ != model_call_id@ ==> (after is Some <==> before is Some),
        name@ != model_call_id@ && before is Some ==> (after->0)@ == (before->0)@,
        final(manager)@.dom().contains(model_call_id@),
{
}

/// A manager without sessions finds none; a copy of a session is the session.
pub proof fn new_manager_has_no_session(
    manager: AgentSessionManager,
    app: AppState,
    name: &str,
    r: Option<AgentSession>,
    s: Option<AgentSession>,
    one: &AgentSession,
    copy: AgentSession,
)
    requires
        call_ensures(AgentSessionManager::new, (), manager),
        call_ensures(AppState::new, (), app),
        call_ensures(AgentSessionManager::find_session, (&manager, name), r),
        call_ensures(AgentSessionManager::get_session, (&manager, name), s),
        call_ensures(AgentSession::copy, (one,), copy),
    ensures
        r is None,
        s is None,
        app.sessions()@.dom() == Set::<Seq<char>>::empty(),
        copy.model_call_id@ == one.model_call_id@,
        copy.conversation_id@ == one.conversation_id@,
        copy.created_at == one.created_at,
        copy.last_active == one.last_active,
        copy.iteration_count == one.iteration_count,
{
    if let Some(x) = r {
        assert(session::names(manager@, name@, x@));
    }
    assert(app.sessions()@.dom() =~= Set::<Seq<char>>::empty());
}

/// A session is found under its model call, or else by its conversation; none is found only where
/// no session has the identifier in either way.
pub proof fn sessions_are_found(
    manager: &AgentSessionManager,
    name: &str,
    r: Option<AgentSession>,
    k: Seq<char>,
)
    requires
        call_ensures(AgentSessionManager::find_session, (manager, name), r),
    ensures
        manager@.dom().contains(name@) ==> r is Some && (r->0)@ == manager@[name@],
        !manager@.dom().contains(name@) && r is Some ==> (r->0).conversation_id@ == name@ && exists|
            l: Seq<char>,
        | #[trigger]
            manager@.dom().contains(l) && manager@[l] == (r->0)@,
        r is None && manager@.dom().contains(k) ==> k != name@ && manager@[k].conversation_id
            != name@,
{
}

/// Using a session notes the time and counts the step; nothing else of it changes, and no other
/// session. A session that is not there is not made.
pub proof fn use_is_noted(
    manager: &mut AgentSessionManager,
    name: &str,
    now: i64,
    other: &str,
    before: Option<AgentSession>,
    after: Option<AgentSession>,
)
    requires
        call_ensures(AgentSessionManager::update_session, (manager, name, now), ()),
        call_ensures(AgentSessionManager::get_session, (old(manager), other), before),
        call_ensures(AgentSessionManager::get_session, (final(manager), other), after),
    ensures
        after is Some <==> before is Some,
        other@ != name@ && before is Some ==> (after->0)@ == (before->0)@,
        other@ == name@ && before is Some ==> {
            let a = after->0;
            let b = before->0;
            &&& a.last_active == now
            &&& b.iteration_count < u32::MAX ==> a.iteration_count == b.iteration_count + 1
            &&& b.iteration_count == u32::MAX ==> a.iteration_count == 0
            &&& a.created_at == b.created_at
            &&& a.model_call_id@ == b.model_call_id@
            &&& a.conversation_id@ == b.conversation_id@
        },
{
    assert(old(manager)@.dom().contains(other@) <==> final(manager)@.dom().contains(other@));
}

/// A session is forgotten once it has not been used for half an hour, and not before; the others
/// stay as they are.
pub proof fn unused_sessions_are_forgotten(
    manager: &mut AgentSessionManager,
    now: i64,
    name: &str,
    before: Option<AgentSession>,
    after: Option<AgentSession>,
)
    requires
        call_ensures(AgentSessionManager::cleanup_expired, (manager, now), ()),
        call_ensures(AgentSessionManager::get_session, (old(manager), name), before),
        call_ensures(AgentSessionManager::get_session, (final(manager), name), after),
    ensures
        before is None ==> after is None,
        before is Some ==> (after is Some <==> now - (before->0).last_active < 30 * 60),
        before is Some && after is Some ==> (after->0)@ == (before->0)@,
{
    assert(final(manager)@.dom().contains(name@) <==> old(manager)@.dom().contains(name@)
        && !session::expired(old(manager)@[name@], now));
}

/// A request that names no session gets a new one; one that names a session works in it, and fails
/// where there is none.
pub proof fn request_gets_its_session(
    manager: &mut AgentSessionManager,
    request: &AgentChatRequest,
    model_call_id: String,
    conversation_id: String,
    now: i64,
    r: Result<AgentRun, AgentError>,
    k: Seq<char>,
    i: int,
)
    requires
        call_ensures(
            AgentRun::start,
            (manager, request, model_call_id, conversation_id, now),
            r,
        ),
    ensures
        request.session_id is None ==> r is Ok && {
            let s = (r->Ok_0).session;
            &&& s.model_call_id@ == model_call_id@
            &&& s.conversation_id@ == conversation_id@
            &&& s.created_at == now && s.last_active == now && s.iteration_count == 0
            &&& final(manager)@.dom().contains(model_call_id@)
            &&& final(manager)@[model_call_id@] == s@
            &&& k != model_call_id@ ==> (final(manager)@.dom().contains(k) <==> old(
                manager
            )@.dom().contains(k)) && (old(manager)@.dom().contains(k) ==> final(manager)@[k]
                == old(manager)@[k])
        },
        request.session_id matches Some(id) ==> final(manager)@ == old(manager)@ && (r matches Ok(
            run,
        ) ==> run.session.conversation_id@ == id@ || old(manager)@.dom().contains(id@)),
        request.session_id matches Some(id) ==> (r matches Err(e) ==> e is SessionNotFound
            && !old(manager)@.dom().contains(id@) && (old(manager)@.dom().contains(k) ==> old(
            manager
        )@[k].conversation_id != id@)),
        request.session_id matches Some(id) ==> (old(manager)@.dom().contains(id@) ==> r is Ok && (
        r->Ok_0).session@ == old(manager)@[id@]),
        request.session_id matches Some(id) ==> (old(manager)@.dom().contains(k) && old(
            manager
        )@[k].conversation_id == id@ ==> r is Ok),
        r matches Ok(run) ==> {
            &&& run.step == 0
            &&& run.iterations@.len() == 0
            &&& request.max_iterations is None ==> run.max_iterations == 5
            &&& request.max_iterations matches Some(n) ==> run.max_iterations == n
            &&& run.messages@.len() == request.messages@.len()
            &&& 0 <= i < run.messages@.len() ==> run.messages@[i].role@
                == request.messages@[i].role@ && run.messages@[i].content@
                == request.messages@[i].content@
        },
{
    if let Ok(run) = r {
        let a = run::message_views(run.messages@);
        let b = run::message_views(request.messages@);
        assert(a.len() == run.messages@.len() && b.len() == request.messages@.len());
        if 0 <= i < run.messages@.len() {
            assert(a[i] == run.messages@[i]@ && b[i] == request.messages@[i]@);
        }
    }
}

/// A step begins only as long as steps are left. The identifier of its calls is `call_`, what is
/// unique to the step, and the model call of the session; beginning it counts as a use of the
/// session.
pub proof fn steps_begin_while_there_are_any(
    work: AgentRun,
    manager: &mut AgentSessionManager,
    unique: &str,
    now: i64,
    r: Result<(AgentRun, String), AgentError>,
    k: Seq<char>,
)
    requires
        call_ensures(AgentRun::begin_step, (work, manager, unique, now), r),
    ensures
        r is Ok <==> work.step < work.max_iterations,
        r matches Ok(x) ==> x.0 == work && x.1@ == "call_"@ + unique@ + "\nmc_"@
            + work.session.model_call_id@,
        r matches Err(e) ==> e == AgentError::MaxIterationsExceeded(work.iterations),
        final(manager)@.dom().contains(k) <==> old(manager)@.dom().contains(k),
        r is Err || k != work.session.model_call_id@ ==> (old(manager)@.dom().contains(k)
            ==> final(manager)@[k] == old(manager)@[k]),
        r is Ok && k == work.session.model_call_id@ && old(manager)@.dom().contains(k) ==> {
            let a = final(manager)@[k];
            let b = old(manager)@[k];
            &&& a.last_active == now
            &&& b.iteration_count < u32::MAX ==> a.iteration_count == b.iteration_count + 1
            &&& a.created_at == b.created_at
            &&& a.model_call_id == b.model_call_id
            &&& a.conversation_id == b.conversation_id
        },
{
    if let Ok(x) = r {
        assert(x.1@ =~= "call_"@ + unique@ + "\nmc_"@ + work.session.model_call_id@);
    }
    assert(final(manager)@.dom().contains(k) <==> old(manager)@.dom().contains(k));
}

/// How many calls there were in the first steps.
pub open spec fn calls_in(iterations: Seq<AgentIteration>, n: int) -> int
    decreases n,
{
    if n <= 0 {
        0
    } else {
        calls_in(iterations, n - 1) + iterations[n - 1].tool_calls@.len()
    }
}

proof fn lemma_calls(iterations: Seq<AgentIteration>, n: int)
    requires
        0 <= n <= iterations.len(),
        calls_in(iterations, n) < 0x1_0000_0000,
    ensures
        run::total_calls(iterations, n) == calls_in(iterations, n),
        0 <= calls_in(iterations, n),
    decreases n,
{
    if n > 0 {
        lemma_calls_grow(iterations, n - 1);
        lemma_calls(iterations, n - 1);
        vstd::arithmetic::div_mod::lemma_small_mod(
            calls_in(iterations, n) as nat,
            0x1_0000_0000,
        );
    }
}

proof fn lemma_calls_grow(iterations: Seq<AgentIteration>, n: int)
    requires
        0 <= n <= iterations.len(),
    ensures
        0 <= calls_in(iterations, n),
        n < iterations.len() ==> calls_in(iterations, n) <= calls_in(iterations, n + 1),
    decreases n,
{
    if n > 0 {
        lemma_calls_grow(iterations, n - 1);
    }
}

/// An answer without calls ends the work: it is the last answer, with the identifiers of the
/// session, all steps so far, and how many calls these made.
pub proof fn answer_without_calls_ends_the_work(
    work: AgentRun,
    response: LlmResponse,
    results: &Vec<Vec<u8>>,
    r: Progress,
)
    requires
        call_ensures(AgentRun::observe, (work, response, results), r),
    ensures
        r is Finished <==> response.tool_calls is None,
        r matches Progress::Finished(a) ==> {
            &&& a.session_id@ == work.session.conversation_id@
            &&& a.model_call_id@ == work.session.model_call_id@
            &&& a.final_response == response.content
            &&& a.iterations == work.iterations
            &&& calls_in(work.iterations@, work.iterations@.len() as int) < 0x1_0000_0000
                ==> a.total_tool_calls == calls_in(
                work.iterations@,
                work.iterations@.len() as int,
            )
        },
{
    if calls_in(work.iterations@, work.iterations@.len() as int) < 0x1_0000_0000 {
        lemma_calls(work.iterations@, work.iterations@.len() as int);
    }
}

/// The bytes as numbers.
pub open spec fn numbers(bytes: Seq<u8>) -> Seq<Seq<char>> {
    bytes.map_values(|b: u8| codec::decimal(b as nat))
}

/// An answer with calls is a step more: it is recorded with its calls, and told to the model as the
/// assistant's, followed by the results of the calls, each in a message of its own.
pub proof fn answer_with_calls_is_a_step(
    work: AgentRun,
    response: LlmResponse,
    results: &Vec<Vec<u8>>,
    r: Progress,
    calls: Vec<ToolCall>,
    i: int,
)
    requires
        call_ensures(AgentRun::observe, (work, response, results), r),
        response.tool_calls == Some(calls),
    ensures
        r matches Progress::Continue(next) && {
            let n = work.iterations@.len() as int;
            let m = work.messages@.len() as int;
            let told = if calls@.len() < results@.len() {
                calls@.len() as int
            } else {
                results@.len() as int
            };
            &&& next.session == work.session
            &&& next.step == work.step + 1
            &&& next.max_iterations == work.max_iterations
            &&& next.iterations@.len() == n + 1
            &&& 0 <= i < n ==> next.iterations@[i] == work.iterations@[i]
            &&& next.iterations@[n].step == work.step
            &&& next.iterations@[n].tool_calls == calls
            &&& next.iterations@[n].response@ == response.content@
            &&& next.messages@.len() == m + 1 + told
            &&& 0 <= i < m ==> next.messages@[i]@ == work.messages@[i]@
            &&& next.messages@[m].role@ == "assistant"@
            &&& next.messages@[m].content@ == response.content@
            &&& 0 <= i < told ==> next.messages@[m + 1 + i].role@ == "tool"@
            &&& 0 <= i < told ==> next.messages@[m + 1 + i].content@ == "Tool result: "@ + ("["@
                + text::joined(numbers(results@[i]@), ", "@) + "]"@)
        },
{
    let next = r->Continue_0;
    let n = work.iterations@.len() as int;
    let m = work.messages@.len() as int;
    let a = run::message_views(next.messages@);
    let b = run::message_views(work.messages@);
    assert(a.len() == next.messages@.len() && b.len() == m);
    if 0 <= i < n {
        assert(next.iterations@.drop_last()[i] == next.iterations@[i]);
    }
    assert(a[m] == next.messages@[m]@);
    if 0 <= i < m {
        assert(a[i] == next.messages@[i]@ && b[i] == work.messages@[i]@);
    }
    if 0 <= i < calls@.len() && i < results@.len() {
        assert(a[m + 1 + i] == next.messages@[m + 1 + i]@);
        assert(run::byte_texts(results@[i]@) =~= numbers(results@[i]@));
    }
}

/// What is answered where the agent fails.
pub proof fn failures_are_told(e: &AgentError, status: u16, message: String)
    requires
        call_ensures(AgentError::status, (e,), status),
        call_ensures(AgentError::message, (e,), message),
    ensures
        *e is SessionNotFound ==> status == 404 && message@ == "Session not found"@,
        *e is MaxIterationsExceeded ==> status == 400 && message@ == "Max iterations exceeded"@,
        *e matches AgentError::Failed(s) ==> status == 500 && message@ == s@,
{
}

/// Executing a tool names the tool.
pub proof fn execution_names_the_tool(call: &ToolCall, r: String)
    requires
        call_ensures(execute_tool, (call,), r),
    ensures
        r@ == "Tool "@ + call.function.name@ + " executed"@,
{
}

} // verus!
