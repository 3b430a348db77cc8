//! What becomes of chat requests, as clients and the log see it.

use vstd::prelude::*;
use crate::app;
use crate::app::{AppState, ChatRequest, Model};
use crate::chat;
use crate::chat::{
    check_request, complete, data_event, encode_failed, handle_chat, read_failed, record_request,
    request_failed, request_sent, send_failed, ChatError, ChatStream, Event, KeyIndex, Upstream,
};
use crate::message::{ChatResponse, MessageContent};
use crate::server;
use crate::server_laws;
use crate::text;
use crate::text_laws;
use crate::tokens::TokenInfo;

verus! {

/// The first mark that is taken out of an answer.
pub open spec fn first_mark() -> Seq<char> {
    "^.*<\\|END_USER\\|>"@
}

/// The second mark that is taken out of an answer.
pub open spec fn second_mark() -> Seq<char> {
    "^\\n[a-zA-Z]?"@
}

/// The text without the marks: what stands between them, one behind the other.
pub open spec fn unmarked(s: Seq<char>) -> Seq<char> {
    text::joined(
        text::pieces(text::joined(text::pieces(s, first_mark()), Seq::empty()), second_mark()),
        Seq::empty(),
    )
}

/// The text that an answer says.
pub open spec fn said(r: ChatResponse) -> Seq<char> {
    match r.choices@[0].message {
        Some(m) => match m.content {
            MessageContent::Text(s) => s@,
        },
        None => Seq::empty(),
    }
}

proof fn lemma_answer(full_text: Seq<char>)
    ensures
        chat::answer_in(full_text) == text::trimmed(unmarked(full_text)),
        !text::has(full_text, first_mark()) && !text::has(full_text, second_mark()) ==> unmarked(
            full_text,
        ) == full_text,
{
    reveal_strlit("^.*<\\|END_USER\\|>");
    reveal_strlit("^\\n[a-zA-Z]?");
    let none = Seq::<char>::empty();
    text_laws::replacing_keeps_pieces(full_text, first_mark(), none);
    let s = text::replaced(full_text, first_mark(), none);
    text_laws::replacing_keeps_pieces(s, second_mark(), none);
}

/// A text that holds neither mark and neither begins nor ends with white space is the answer as it
/// is, character by character.
pub proof fn plain_text_is_answered_unchanged(
    state: &mut AppState,
    full_text: String,
    unique: &str,
    model: String,
    now: i64,
    r: Result<ChatResponse, ChatError>,
)
    requires
        call_ensures(complete, (state, full_text, unique, model, now), r),
        full_text@.len() > 0,
        !text::has(full_text@, "^.*<\\|END_USER\\|>"@),
        !text::has(full_text@, "^\\n[a-zA-Z]?"@),
        !text::is_space(full_text@[0]),
        !text::is_space(full_text@.last()),
    ensures
        r is Ok,
        said(r->Ok_0) == full_text@,
{
    lemma_answer(full_text@);
    text_laws::trimming_takes_outer_space(full_text@);
}

/// The answer is one stretch of the text without the marks, from its first to its last character
/// that is not white space; there is none exactly where there is no such character.
pub proof fn answer_is_a_stretch(
    state: &mut AppState,
    full_text: String,
    unique: &str,
    model: String,
    now: i64,
    r: Result<ChatResponse, ChatError>,
)
    requires
        call_ensures(complete, (state, full_text, unique, model, now), r),
    ensures
        r matches Ok(response) ==> {
            &&& exists|a: int, b: int|
                {
                    &&& 0 <= a < b <= unmarked(full_text@).len()
                    &&& said(response) == #[trigger] unmarked(full_text@).subrange(a, b)
                    &&& forall|i: int|
                        0 <= i < a || b <= i < unmarked(full_text@).len() ==> text::is_space(
                            #[trigger] unmarked(full_text@)[i],
                        )
                }
            &&& !text::is_space(said(response)[0])
            &&& !text::is_space(said(response).last())
        },
        r is Err <==> forall|i: int|
            0 <= i < unmarked(full_text@).len() ==> text::is_space(
                #[trigger] unmarked(full_text@)[i],
            ),
{
    let s = unmarked(full_text@);
    lemma_answer(full_text@);
    text_laws::trimming_takes_outer_space(s);
    let (a, b) = choose|a: int, b: int|
        {
            &&& 0 <= a <= b <= s.len()
            &&& text::trimmed(s) == #[trigger] s.subrange(a, b)
            &&& forall|i: int| 0 <= i < a || b <= i < s.len() ==> text::is_space(#[trigger] s[i])
        };
    assert(text::trimmed(s) == s.subrange(a, b));
    if text::trimmed(s).len() > 0 {
        assert(s.subrange(a, b)[0] == s[a]);
        assert(!text::is_space(s[a]));
    }
    if let Ok(response) = r {
        assert(said(response) == s.subrange(a, b));
    }
}

/// A whole answer names the request, the model and the time, and is said by the assistant, who has
/// stopped; a failed one is logged.
pub proof fn answers_are_complete(
    state: &mut AppState,
    full_text: String,
    unique: &str,
    model: String,
    now: i64,
    r: Result<ChatResponse, ChatError>,
)
    requires
        call_ensures(complete, (state, full_text, unique, model, now), r),
    ensures
        r matches Ok(response) ==> {
            &&& response.id@ == "chatcmpl-"@ + unique@
            &&& response.object@ == "chat.completion"@
            &&& response.created == now
            &&& text::opt(response.model) == Some(model@)
            &&& response.choices@.len() == 1
            &&& response.choices@[0].index == 0
            &&& response.choices@[0].message matches Some(m) && m.role@ == "assistant"@
            &&& response.choices@[0].delta is None
            &&& text::opt(response.choices@[0].finish_reason) == Some("stop"@)
            &&& response.usage matches Some(u) && u.prompt_tokens == 0 && u.completion_tokens == 0
                && u.total_tokens == 0
            &&& *final(state) == *old(state)
        },
        r matches Err(e) ==> {
            &&& e matches ChatError::RequestFailed(why) && why@ == "Empty response received"@
            &&& fails(*old(state), *final(state), "Empty response received"@)
        },
{
    lemma_relogged(
        app::log_views(old(state).request_logs@),
        "failed"@,
        Some("Empty response received"@),
    );
    lemma_log_len(*old(state), *final(state));
}

/// Nothing happened but that the last line of the log tells the failure.
pub open spec fn fails(before: AppState, after: AppState, why: Seq<char>) -> bool {
    &&& after.total_requests == before.total_requests
    &&& after.active_requests == before.active_requests
    &&& after.token_infos == before.token_infos
    &&& after.request_logs@.len() == before.request_logs@.len()
    &&& forall|i: int|
        0 <= i < before.request_logs@.len() - 1 ==> (#[trigger] after.request_logs@[i])@
            == before.request_logs@[i]@
    &&& before.request_logs@.len() > 0 ==> {
        let old_line = before.request_logs@[before.request_logs@.len() - 1];
        let line = after.request_logs@[before.request_logs@.len() - 1];
        &&& line.status@ == "failed"@
        &&& text::opt(line.error) == Some(why)
        &&& same_request(old_line, line)
    }
}

/// The lines tell of the same request.
pub open spec fn same_request(a: app::RequestLog, b: app::RequestLog) -> bool {
    &&& a.timestamp == b.timestamp
    &&& a.model@ == b.model@
    &&& a.checksum@ == b.checksum@
    &&& a.auth_token@ == b.auth_token@
    &&& a.alias@ == b.alias@
    &&& a.stream == b.stream
}

proof fn lemma_relogged(logs: Seq<app::LogView>, status: Seq<char>, error: Option<Seq<char>>)
    ensures
        chat::relogged(logs, status, error).len() == logs.len(),
        forall|i: int|
            0 <= i < logs.len() - 1 ==> #[trigger] chat::relogged(logs, status, error)[i]
                == logs[i],
        logs.len() > 0 ==> chat::relogged(logs, status, error)[logs.len() - 1] == (app::LogView {
            status,
            error,
            ..logs[logs.len() - 1]
        }),
{
}

proof fn lemma_log_len(a: AppState, b: AppState)
    ensures
        app::log_views(a.request_logs@).len() == a.request_logs@.len(),
        app::log_views(b.request_logs@).len() == b.request_logs@.len(),
        forall|i: int|
            0 <= i < a.request_logs@.len() ==> #[trigger] app::log_views(a.request_logs@)[i]
                == a.request_logs@[i]@,
        forall|i: int|
            0 <= i < b.request_logs@.len() ==> (#[trigger] b.request_logs@[i])@ == app::log_views(
                b.request_logs@,
            )[i],
{
}

/// A failure is told in the last line of the log, which keeps telling of the same request; a failure
/// to send is answered with its reason.
pub proof fn failures_are_logged(state: &mut AppState, error: &str, r: ChatError)
    requires
        call_ensures(send_failed, (state, error), r),
    ensures
        fails(*old(state), *final(state), error@),
        r matches ChatError::RequestFailed(why) && why@ == error@,
{
    lemma_relogged(app::log_views(old(state).request_logs@), "failed"@, Some(error@));
    lemma_log_len(*old(state), *final(state));
}

/// A failure in the middle of an answer is logged in the same way.
pub proof fn later_failures_are_logged(state: &mut AppState, error: &str)
    requires
        call_ensures(request_failed, (state, error), ()),
    ensures
        fails(*old(state), *final(state), error@),
{
    lemma_relogged(app::log_views(old(state).request_logs@), "failed"@, Some(error@));
    lemma_log_len(*old(state), *final(state));
}

/// A request that was sent is logged as a success and is active no more; nothing else changes.
pub proof fn sent_requests_are_logged(state: &mut AppState)
    requires
        call_ensures(request_sent, (state,), ()),
        old(state).request_logs@.len() > 0,
    ensures
        final(state).total_requests == old(state).total_requests,
        final(state).token_infos == old(state).token_infos,
        old(state).active_requests > 0 ==> final(state).active_requests == old(
            state).active_requests - 1,
        final(state).request_logs@.len() == old(state).request_logs@.len(),
        forall|i: int|
            0 <= i < old(state).request_logs@.len() - 1 ==> (#[trigger] final(
                state).request_logs@[i])@ == old(state).request_logs@[i]@,
        ({
            let n = old(state).request_logs@.len() - 1;
            let line = final(state).request_logs@[n];
            &&& line.status@ == "success"@
            &&& text::opt(line.error) == text::opt(old(state).request_logs@[n].error)
            &&& same_request(old(state).request_logs@[n], line)
        }),
{
    let logs = app::log_views(old(state).request_logs@);
    lemma_relogged(logs, "success"@, logs.last().error);
    lemma_log_len(*old(state), *final(state));
}

/// The model is one of those that are offered.
pub open spec fn is_offered(models: Seq<Model>, model: Seq<char>) -> bool {
    exists|i: int| 0 <= i < models.len() && (#[trigger] models[i]).id@ == model
}

/// A request is taken exactly where its model is offered, it says something, its model can stream if
/// that is asked for, it carries the token of the server, and there is a token for the service. Each
/// reason to refuse it has its own error, and a refused request leaves no trace.
pub proof fn requests_are_taken_or_refused(
    state: &mut AppState,
    keys: &mut KeyIndex,
    models: &Vec<Model>,
    auth_token: &str,
    header: Option<&str>,
    request: &ChatRequest,
    now: i64,
    r: Result<Upstream, ChatError>,
)
    requires
        call_ensures(handle_chat, (state, keys, models, auth_token, header, request, now), r),
    ensures
        ({
            let offered = is_offered(models@, request.model@);
            let says = request.messages@.len() > 0;
            let o1 = request.model@.len() >= 2 && request.model@[0] == 'o' && request.model@[1]
                == '1';
            let known = server_laws::carries(header, auth_token@);
            let tokens = old(state).token_infos@.len() > 0;
            &&& r is Ok <==> offered && says && !(o1 && request.stream) && known && tokens
            &&& !offered <==> (r matches Err(ChatError::ModelNotSupported(m)) && m@
                == request.model@)
            &&& offered && !says <==> (r matches Err(ChatError::EmptyMessages))
            &&& offered && says && o1 && request.stream <==> (r matches Err(
                ChatError::StreamNotSupported(m),
            ) && m@ == request.model@)
            &&& offered && says && !(o1 && request.stream) && !known <==> (r matches Err(
                ChatError::Unauthorized,
            ))
            &&& offered && says && !(o1 && request.stream) && known && !tokens <==> (r matches Err(
                ChatError::NoTokens,
            ))
        }),
        r is Err ==> *final(state) == *old(state) && final(keys).next == old(keys).next,
{
    reveal_strlit("o1");
    text_laws::occurs_by_characters(request.model@, "o1"@, 0);
    assert("o1"@[0] == 'o' && "o1"@[1] == '1');
    let m = request.model@;
    if m.len() >= 2 && m[0] == 'o' && m[1] == '1' {
        assert forall|j: int| 0 <= j < "o1"@.len() implies m[0 + j] == #[trigger] "o1"@[j] by {
        }
        assert(text::begins(m, "o1"@));
    }
    if text::begins(m, "o1"@) {
        assert(m[0int + 0] == "o1"@[0]);
        assert(m[0int + 1] == "o1"@[1]);
    }
    if let Some(h) = header {
        server_laws::lemma_bearer(h@, auth_token@);
    }
    assert(chat::offers(models@, m) == is_offered(models@, m));
    if let Err(e) = r {
        lemma_error_views(e);
    }
}

proof fn lemma_error_views(e: ChatError)
    ensures
        e matches ChatError::ModelNotSupported(m) ==> e@ == chat::ChatErrorView::ModelNotSupported(
            m@,
        ),
        e matches ChatError::StreamNotSupported(m) ==> e@
            == chat::ChatErrorView::StreamNotSupported(m@),
{
}

/// A request that is taken goes upstream with the token whose turn it is, is counted once, and
/// stands as pending in the last line of the log, behind the newest of the lines before it.
pub proof fn taken_requests_are_logged(
    state: &mut AppState,
    keys: &mut KeyIndex,
    models: &Vec<Model>,
    auth_token: &str,
    header: Option<&str>,
    request: &ChatRequest,
    now: i64,
    r: Result<Upstream, ChatError>,
)
    requires
        call_ensures(handle_chat, (state, keys, models, auth_token, header, request, now), r),
        r is Ok,
        old(state).request_logs@.len() <= 100,
        old(state).total_requests < u64::MAX,
        old(state).active_requests < u64::MAX,
    ensures
        ({
            let token = old(state).token_infos@[old(keys).next as int % old(
                state).token_infos@.len() as int];
            let before = old(state).request_logs@;
            let after = final(state).request_logs@;
            let line = after[after.len() - 1];
            &&& (r->Ok_0).auth_token@ == token.token@
            &&& (r->Ok_0).checksum@ == token.checksum@
            &&& final(state).total_requests == old(state).total_requests + 1
            &&& final(state).active_requests == old(state).active_requests + 1
            &&& final(state).token_infos == old(state).token_infos
            &&& after.len() == (if before.len() < 100 {
                before.len() + 1
            } else {
                100
            })
            &&& line.timestamp == now
            &&& line.model@ == request.model@
            &&& line.checksum@ == token.checksum@
            &&& line.auth_token@ == token.token@
            &&& line.alias@ == (match token.alias {
                Some(a) => a@,
                None => Seq::empty(),
            })
            &&& line.stream == request.stream
            &&& line.status@ == "pending"@
            &&& line.error is None
            &&& forall|i: int|
                0 <= i < after.len() - 1 ==> (#[trigger] after[i])@ == before[i + before.len() + 1
                    - after.len()]@
        }),
{
    lemma_log_len(*old(state), *final(state));
    let logs = app::log_views(old(state).request_logs@);
    let token = old(state).token_infos@[old(keys).next as int % old(
        state).token_infos@.len() as int];
    chat::log_keeps_newest(
        logs,
        chat::pending(now, request.model@, request.stream, token@),
    );
    let after = final(state).request_logs@;
    assert(after.len() > 0);
    assert(after[after.len() - 1]@ == app::log_views(after)[after.len() - 1]);
    assert forall|i: int| 0 <= i < after.len() - 1 implies (#[trigger] after[i])@ == old(
        state).request_logs@[i + old(state).request_logs@.len() + 1 - after.len()]@ by {
        assert(app::log_views(after)[i] == logs[i + logs.len() + 1 - after.len()]);
    }
}

/// Two requests that are taken one after the other use neighbouring tokens: the turn goes round.
pub proof fn next_request_uses_next_token(
    keys: &mut KeyIndex,
    tokens: &Vec<TokenInfo>,
    r: Result<TokenInfo, ChatError>,
    again: &mut KeyIndex,
    s: Result<TokenInfo, ChatError>,
    k: int,
)
    requires
        call_ensures(KeyIndex::choose_token, (keys, tokens), r),
        call_ensures(KeyIndex::choose_token, (again, tokens), s),
        again.next == final(keys).next,
        old(keys).next < usize::MAX,
        0 <= k < tokens@.len(),
        old(keys).next as int % tokens@.len() as int == k,
    ensures
        r is Ok && s is Ok,
        (r->Ok_0)@ == tokens@[k]@,
        (s->Ok_0)@ == tokens@[if k + 1 < tokens@.len() {
            k + 1
        } else {
            0
        }]@,
{
    let n = old(keys).next as int;
    let t = tokens@.len() as int;
    vstd::arithmetic::div_mod::lemma_fundamental_div_mod(n, t);
    let q = n / t;
    if k + 1 < t {
        assert(n + 1 == q * t + (k + 1)) by (nonlinear_arith)
            requires
                n == t * q + k,
        ;
        vstd::arithmetic::div_mod::lemma_fundamental_div_mod_converse(n + 1, t, q, k + 1);
    } else {
        assert(n + 1 == (q + 1) * t + 0) by (nonlinear_arith)
            requires
                n == t * q + k,
                k + 1 == t,
        ;
        vstd::arithmetic::div_mod::lemma_fundamental_div_mod_converse(n + 1, t, q + 1, 0);
    }
}

/// A fresh turn begins with the first token.
pub proof fn first_turn_is_the_first_token(
    keys: &mut KeyIndex,
    fresh: KeyIndex,
    tokens: &Vec<TokenInfo>,
    r: Result<TokenInfo, ChatError>,
)
    requires
        call_ensures(KeyIndex::new, (), fresh),
        *old(keys) == fresh,
        call_ensures(KeyIndex::choose_token, (keys, tokens), r),
    ensures
        tokens@.len() > 0 ==> (r matches Ok(t) && t@ == tokens@[0]@),
        tokens@.len() == 0 ==> (r matches Err(ChatError::NoTokens)),
{
    if tokens@.len() > 0 {
        vstd::arithmetic::div_mod::lemma_small_mod(0, tokens@.len());
    }
}

/// Each kind of failure has its status: the client's own faults, the missing token, and what the
/// server or the service cannot do.
pub proof fn statuses_of_failures(e: &ChatError, r: u16)
    requires
        call_ensures(ChatError::status, (e,), r),
    ensures
        e is ModelNotSupported || e is EmptyMessages || e is StreamNotSupported ==> r == 400,
        e is Unauthorized ==> r == 401,
        e is RequestFailed ==> r == 500,
        e is NoTokens ==> r == 503,
{
}

/// A failure names what it is about: the model, or the reason.
pub proof fn failures_name_their_subject(e: &ChatError, code: &'static str, message: String)
    requires
        call_ensures(ChatError::code, (e,), code),
        call_ensures(ChatError::message, (e,), message),
    ensures
        match e {
            ChatError::ModelNotSupported(m) => code@ == "model_not_supported"@ && message@
                == "Model '"@ + m@ + "' is not supported"@,
            ChatError::EmptyMessages => code@ == "empty_messages"@ && message@
                == "Message array cannot be empty"@,
            ChatError::StreamNotSupported(m) => code@ == "stream_not_supported"@ && message@
                == "Streaming is not supported for model '"@ + m@ + "'"@,
            ChatError::NoTokens => code@ == "no_tokens"@ && message@ == "No available tokens"@,
            ChatError::RequestFailed(why) => code@ == "request_failed"@ && message@
                == "Request failed: "@ + why@,
            ChatError::Unauthorized => code@ == "unauthorized"@ && message@
                == "Invalid authorization token"@,
        },
{
}

/// The service is told the token, the checksum and the number of the request.
pub proof fn service_is_told_the_token(u: &Upstream, request_id: &str, r: Vec<(String, String)>)
    requires
        call_ensures(Upstream::headers, (u, request_id), r),
    ensures
        has_field(r@, "Authorization"@, "Bearer "@ + u.auth_token@),
        has_field(r@, "x-cursor-checksum"@, u.checksum@),
        has_field(r@, "x-request-id"@, request_id@),
        has_field(r@, "x-amzn-trace-id"@, "Root="@ + request_id@),
        has_field(r@, "Content-Type"@, "application/connect+proto"@),
        has_field(r@, "connect-accept-encoding"@, "gzip,br"@),
        has_field(r@, "connect-protocol-version"@, "1"@),
        has_field(r@, "user-agent"@, "connect-es/1.6.1"@),
        has_field(r@, "x-cursor-client-version"@, "0.42.5"@),
        has_field(r@, "x-cursor-timezone"@, "Asia/Shanghai"@),
        has_field(r@, "x-ghost-mode"@, "false"@),
        has_field(r@, "Host"@, "api2.cursor.sh"@),
        r@.len() == 12,
{
    let v = server::pair_views(r@);
    assert(v == chat::upstream_headers(u.auth_token@, u.checksum@, request_id@));
    assert(v.len() == r@.len() && v.len() == 12);
    assert forall|i: int| 0 <= i < 12 implies #[trigger] v[i] == (r@[i].0@, r@[i].1@) by {
    }
    assert(v[0] == (r@[0].0@, r@[0].1@));
    assert(v[1] == (r@[1].0@, r@[1].1@));
    assert(v[2] == (r@[2].0@, r@[2].1@));
    assert(v[3] == (r@[3].0@, r@[3].1@));
    assert(v[4] == (r@[4].0@, r@[4].1@));
    assert(v[5] == (r@[5].0@, r@[5].1@));
    assert(v[6] == (r@[6].0@, r@[6].1@));
    assert(v[7] == (r@[7].0@, r@[7].1@));
    assert(v[8] == (r@[8].0@, r@[8].1@));
    assert(v[9] == (r@[9].0@, r@[9].1@));
    assert(v[10] == (r@[10].0@, r@[10].1@));
    assert(v[11] == (r@[11].0@, r@[11].1@));
}

/// One of the header fields has the name and the value.
pub open spec fn has_field(fields: Seq<(String, String)>, name: Seq<char>, value: Seq<char>) -> bool {
    exists|i: int|
        0 <= i < fields.len() && (#[trigger] fields[i]).0@ == name && fields[i].1@ == value
}

/// Pieces of a streamed answer add up to the text, in order; each piece is sent on as it came, under
/// the number of the answer, as long as all parts could be decoded.
pub proof fn pieces_are_sent_on(
    stream: &mut ChatStream,
    piece: String,
    now: i64,
    r: (Event, Option<&'static str>),
)
    requires
        call_ensures(ChatStream::next_event, (stream, Some(piece), now), r),
        old(stream).decode_error_count == 0,
    ensures
        final(stream).full_text@ == old(stream).full_text@ + piece@,
        final(stream).decode_error_count == 0,
        final(stream).id == old(stream).id,
        final(stream).model == old(stream).model,
        r.1 is None,
        r.0 matches Event::Piece(p) && {
            &&& p.choices@.len() == 1
            &&& p.choices@[0].delta matches Some(d) && text::opt(d.content) == Some(piece@)
            &&& p.choices@[0].message is None
            &&& p.choices@[0].finish_reason is None
            &&& p.choices@[0].index == 0
            &&& p.id@ == old(stream).id@
            &&& p.object@ == "chat.completion.chunk"@
            &&& p.created == now
            &&& p.usage is None
            &&& p.model is Some <==> piece@.len() == 0
            &&& p.model matches Some(m) ==> m@ == old(stream).model@
        },
{
}

/// The first part that cannot be decoded ends a streamed answer, and the failure tells whether
/// anything had come before.
pub proof fn undecoded_part_ends_the_stream(
    stream: &mut ChatStream,
    now: i64,
    r: (Event, Option<&'static str>),
)
    requires
        call_ensures(ChatStream::next_event, (stream, None::<String>, now), r),
        old(stream).decode_error_count == 0,
    ensures
        r.0 is Done,
        server::opt_str(r.1) == Some(
            if old(stream).full_text@.len() == 0 {
                "Empty response received"@
            } else {
                "Incomplete response received"@
            },
        ),
        final(stream).full_text@ == old(stream).full_text@,
        final(stream).decode_error_count == 1,
{
    assert(old(stream).full_text@ + Seq::<char>::empty() =~= old(stream).full_text@);
}

/// After the first part that could not be decoded, parts that can be decoded are taken in but end
/// the answer; a second failure ends it where there is text, and later ones say nothing.
pub proof fn later_parts_end_or_say_nothing(
    stream: &mut ChatStream,
    decoded: Option<String>,
    now: i64,
    r: (Event, Option<&'static str>),
)
    requires
        call_ensures(ChatStream::next_event, (stream, decoded, now), r),
    ensures
        old(stream).decode_error_count == 1 && decoded is Some ==> r.0 is Done && r.1 is Some,
        old(stream).decode_error_count == 1 && decoded is None ==> r.1 is None && final(
            stream).decode_error_count == 2 && (if old(stream).full_text@.len() > 0 {
            r.0 is Done
        } else {
            r.0 is Silence
        }),
        2 <= old(stream).decode_error_count < usize::MAX && decoded is None ==> r.0 is Silence
            && r.1 is None,
        old(stream).decode_error_count == 1 && decoded is Some ==> server::opt_str(r.1) == Some(
            if final(stream).full_text@.len() == 0 {
                "Empty response received"@
            } else {
                "Incomplete response received"@
            },
        ),
        decoded matches Some(t) ==> final(stream).full_text@ == old(stream).full_text@ + t@,
        decoded is None ==> final(stream).full_text@ == old(stream).full_text@,
        decoded is Some ==> final(stream).decode_error_count == old(stream).decode_error_count,
        old(stream).decode_error_count >= 2 ==> (decoded matches Some(t) ==> r.1 is None && (
        r.0 matches Event::Piece(p) && p.choices@.len() == 1 && p.id@ == old(stream).id@ && p.created
            == now && (p.choices@[0].delta matches Some(d) && text::opt(d.content) == Some(t@)))),
{
    assert(old(stream).full_text@ + Seq::<char>::empty() =~= old(stream).full_text@);
}

/// A new streamed answer has a number and a model, and no text.
pub proof fn streams_begin_empty(unique: &str, model: String, r: ChatStream)
    requires
        call_ensures(ChatStream::new, (unique, model), r),
    ensures
        r.id@ == "chatcmpl-"@ + unique@,
        r.model@ == model@,
        r.full_text@.len() == 0,
        r.decode_error_count == 0,
{
}

/// An event carries its data between the field name and an empty line; different data make different
/// events.
pub proof fn events_carry_data(json: &str, r: String)
    requires
        call_ensures(data_event, (json,), r),
    ensures
        r@.len() == json@.len() + 8,
        r@.subrange(6, 6 + json@.len() as int) == json@,
        r@.take(6) == "data: "@,
        r@.skip(6 + json@.len() as int) == "\n\n"@,
{
    reveal_strlit("data: ");
    reveal_strlit("\n\n");
    assert(r@.subrange(6, 6 + json@.len() as int) =~= json@);
    assert(r@.take(6) =~= "data: "@);
    assert(r@.skip(6 + json@.len() as int) =~= "\n\n"@);
}

/// What cannot be encoded or read is answered as a failed request that tells so.
pub proof fn encoding_and_reading_fail(error: &str, e: ChatError, f: ChatError)
    requires
        call_ensures(encode_failed, (), e),
        call_ensures(read_failed, (error,), f),
    ensures
        e matches ChatError::RequestFailed(why) && why@ == "Failed to encode chat message"@,
        f matches ChatError::RequestFailed(why) && why@ == "Failed to read response chunk: "@
            + error@,
{
}

/// Counts go round behind their last number, and so does the turn among the tokens.
pub proof fn counts_go_round(
    state: &mut AppState,
    keys: &mut KeyIndex,
    models: &Vec<Model>,
    auth_token: &str,
    header: Option<&str>,
    request: &ChatRequest,
    now: i64,
    r: Result<Upstream, ChatError>,
    sent: &mut AppState,
)
    requires
        call_ensures(handle_chat, (state, keys, models, auth_token, header, request, now), r),
        r is Ok,
        call_ensures(request_sent, (sent,), ()),
    ensures
        old(state).total_requests == u64::MAX ==> final(state).total_requests == 0,
        old(state).active_requests == u64::MAX ==> final(state).active_requests == 0,
        old(keys).next < usize::MAX ==> final(keys).next == old(keys).next + 1,
        old(keys).next == usize::MAX ==> final(keys).next == 0,
        old(sent).active_requests == 0 ==> final(sent).active_requests == u64::MAX,
{
}

/// The checks before a token is chosen are those of the whole: what they refuse is refused, and for
/// the same reason.
pub proof fn checks_refuse_what_is_refused(
    models: &Vec<Model>,
    request: &ChatRequest,
    header: Option<&str>,
    auth_token: &str,
    r: Result<(), ChatError>,
    state: &mut AppState,
    keys: &mut KeyIndex,
    now: i64,
    s: Result<Upstream, ChatError>,
)
    requires
        call_ensures(check_request, (models, request, header, auth_token), r),
        call_ensures(handle_chat, (state, keys, models, auth_token, header, request, now), s),
    ensures
        r matches Err(e) ==> s is Err && (s->Err_0)@ == e@,
        r is Ok ==> (s is Ok <==> old(state).token_infos@.len() > 0),
{
}

/// Recording a request counts it and logs it as pending in the last line; the log keeps the newest
/// hundred lines.
pub proof fn recorded_requests_are_pending(
    state: &mut AppState,
    now: i64,
    model: String,
    stream: bool,
    token: &TokenInfo,
    i: int,
)
    requires
        call_ensures(record_request, (state, now, model, stream, token), ()),
        old(state).request_logs@.len() <= 100,
        old(state).total_requests < u64::MAX,
        old(state).active_requests < u64::MAX,
    ensures
        ({
            let before = old(state).request_logs@;
            let after = final(state).request_logs@;
            let line = after[after.len() - 1];
            &&& final(state).total_requests == old(state).total_requests + 1
            &&& final(state).active_requests == old(state).active_requests + 1
            &&& final(state).token_infos == old(state).token_infos
            &&& after.len() == (if before.len() < 100 {
                before.len() + 1
            } else {
                100
            })
            &&& line.timestamp == now && line.stream == stream
            &&& line.model@ == model@
            &&& line.checksum@ == token.checksum@ && line.auth_token@ == token.token@
            &&& line.status@ == "pending"@ && line.error is None
            &&& token.alias is None ==> line.alias@.len() == 0
            &&& token.alias matches Some(a) ==> line.alias@ == a@
            &&& 0 <= i < after.len() - 1 ==> after[i]@ == before[i + before.len() + 1
                - after.len()]@
        }),
{
    let before = app::log_views(old(state).request_logs@);
    let after = app::log_views(final(state).request_logs@);
    assert(before.len() == old(state).request_logs@.len());
    assert(after.len() == final(state).request_logs@.len());
    assert(after[after.len() - 1] == final(state).request_logs@[after.len() - 1]@);
    if 0 <= i < after.len() - 1 {
        assert(after[i] == final(state).request_logs@[i]@);
        let j = i + before.len() + 1 - after.len();
        assert(before[j] == old(state).request_logs@[j]@);
    }
}

/// The end of a stream is an event like the others, and requests go to the service over TLS.
pub proof fn streams_end_with_an_event(json: &str, r: String)
    requires
        call_ensures(data_event, (json,), r),
        json@ == "[DONE]"@,
    ensures
        r@ == chat::DONE_EVENT@,
        chat::UPSTREAM_URL@ == "https://api2.cursor.sh/aiserver.v1.AiService/StreamChat"@,
        chat::MAX_LOGS == 100,
{
    reveal_strlit("data: ");
    reveal_strlit("[DONE]");
    reveal_strlit("\n\n");
    reveal_strlit("data: [DONE]\n\n");
    assert(r@ =~= chat::DONE_EVENT@);
}

} // verus!
