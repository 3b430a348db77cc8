//! Chat completions: which requests are taken, what goes upstream and what is answered.

use vstd::prelude::*;
use crate::app::{AppState, ChatRequest, Model, RequestLog};
use crate::app;
use crate::message::{ChatResponse, Choice, Delta, Message, MessageContent, Usage};
use crate::server::authorize;
use crate::server;
use crate::text;
use crate::tokens;
use crate::tokens::TokenInfo;

verus! {

/// Why a chat request fails.
#[derive(Debug, Clone, PartialEq)]
pub enum ChatError {
    ModelNotSupported(String),
    EmptyMessages,
    StreamNotSupported(String),
    NoTokens,
    RequestFailed(String),
    Unauthorized,
}

/// [`ChatError`] as characters.
pub enum ChatErrorView {
    ModelNotSupported(Seq<char>),
    EmptyMessages,
    StreamNotSupported(Seq<char>),
    NoTokens,
    RequestFailed(Seq<char>),
    Unauthorized,
}

impl View for ChatError {
    type V = ChatErrorView;

    open spec fn view(&self) -> ChatErrorView {
        match *self {
            ChatError::ModelNotSupported(m) => ChatErrorView::ModelNotSupported(m@),
            ChatError::EmptyMessages => ChatErrorView::EmptyMessages,
            ChatError::StreamNotSupported(m) => ChatErrorView::StreamNotSupported(m@),
            ChatError::NoTokens => ChatErrorView::NoTokens,
            ChatError::RequestFailed(e) => ChatErrorView::RequestFailed(e@),
            ChatError::Unauthorized => ChatErrorView::Unauthorized,
        }
    }
}

/// The code of an error.
pub open spec fn error_code(e: ChatErrorView) -> Seq<char> {
    match e {
        ChatErrorView::ModelNotSupported(_) => "model_not_supported"@,
        ChatErrorView::EmptyMessages => "empty_messages"@,
        ChatErrorView::StreamNotSupported(_) => "stream_not_supported"@,
        ChatErrorView::NoTokens => "no_tokens"@,
        ChatErrorView::RequestFailed(_) => "request_failed"@,
        ChatErrorView::Unauthorized => "unauthorized"@,
    }
}

/// The message of an error.
pub open spec fn error_message(e: ChatErrorView) -> Seq<char> {
    match e {
        ChatErrorView::ModelNotSupported(m) => "Model '"@ + m + "' is not supported"@,
        ChatErrorView::EmptyMessages => "Message array cannot be empty"@,
        ChatErrorView::StreamNotSupported(m) => "Streaming is not supported for model '"@ + m
            + "'"@,
        ChatErrorView::NoTokens => "No available tokens"@,
        ChatErrorView::RequestFailed(e) => "Request failed: "@ + e,
        ChatErrorView::Unauthorized => "Invalid authorization token"@,
    }
}

/// The status code of the answer to a failed request.
pub open spec fn error_status(e: ChatErrorView) -> u16 {
    match e {
        ChatErrorView::ModelNotSupported(_) => 400,
        ChatErrorView::EmptyMessages => 400,
        ChatErrorView::StreamNotSupported(_) => 400,
        ChatErrorView::NoTokens => 503,
        ChatErrorView::RequestFailed(_) => 500,
        ChatErrorView::Unauthorized => 401,
    }
}

impl ChatError {
    /// Returns the code of the error.
    pub fn code(&self) -> (r: &'static str)
        ensures
            r@ == error_code(self@),
    {
        match self {
            ChatError::ModelNotSupported(_) => "model_not_supported",
            ChatError::EmptyMessages => "empty_messages",
            ChatError::StreamNotSupported(_) => "stream_not_supported",
            ChatError::NoTokens => "no_tokens",
            ChatError::RequestFailed(_) => "request_failed",
            ChatError::Unauthorized => "unauthorized",
        }
    }

    /// Returns the message of the error.
    pub fn message(&self) -> (r: String)
        ensures
            r@ == error_message(self@),
    {
        match self {
            ChatError::ModelNotSupported(m) => "Model '".to_owned().concat(m.as_str()).concat(
                "' is not supported",
            ),
            ChatError::EmptyMessages => "Message array cannot be empty".to_owned(),
            ChatError::StreamNotSupported(m) => "Streaming is not supported for model '".to_owned()
                .concat(m.as_str()).concat("'"),
            ChatError::NoTokens => "No available tokens".to_owned(),
            ChatError::RequestFailed(e) => "Request failed: ".to_owned().concat(e.as_str()),
            ChatError::Unauthorized => "Invalid authorization token".to_owned(),
        }
    }

    /// Returns the status code of the answer.
    pub fn status(&self) -> (r: u16)
        ensures
            r == error_status(self@),
    {
        match self {
            ChatError::ModelNotSupported(_) => 400,
            ChatError::EmptyMessages => 400,
            ChatError::StreamNotSupported(_) => 400,
            ChatError::NoTokens => 503,
            ChatError::RequestFailed(_) => 500,
            ChatError::Unauthorized => 401,
        }
    }
}

/// One of the models has the identifier.
pub open spec fn offers(models: Seq<Model>, id: Seq<char>) -> bool {
    exists|i: int| 0 <= i < models.len() && (#[trigger] models[i]).id@ == id
}

/// Why a request is refused before a token is chosen; nothing where it is not.
pub open spec fn objection(
    models: Seq<Model>,
    model: Seq<char>,
    messages: nat,
    stream: bool,
    header: Option<Seq<char>>,
    auth_token: Seq<char>,
) -> Option<ChatErrorView> {
    if !offers(models, model) {
        Some(ChatErrorView::ModelNotSupported(model))
    } else if messages == 0 {
        Some(ChatErrorView::EmptyMessages)
    } else if text::begins(model, "o1"@) && stream {
        Some(ChatErrorView::StreamNotSupported(model))
    } else if server::bearer(header) != Some(auth_token) {
        Some(ChatErrorView::Unauthorized)
    } else {
        None
    }
}

fn is_offered(models: &Vec<Model>, id: &str) -> (r: bool)
    ensures
        r == offers(models@, id@),
{
    let mut i: usize = 0;
    while i < models.len()
        invariant
            i <= models@.len(),
            forall|j: int| 0 <= j < i ==> (#[trigger] models@[j]).id@ != id@,
        decreases models@.len() - i,
    {
        if text::equal(models[i].id.as_str(), id) {
            assert(models@[i as int].id@ == id@);
            return true;
        }
        i += 1;
    }
    false
}

/// Checks a request before a token is chosen.
///
/// # Errors
///
/// Returns an error if the model is not offered, there is no message, the model cannot stream or
/// the request is not authorized: the first of these that holds.
pub fn check_request(
    models: &Vec<Model>,
    request: &ChatRequest,
    header: Option<&str>,
    auth_token: &str,
) -> (r: Result<(), ChatError>)
    ensures
        match objection(
            models@,
            request.model@,
            request.messages@.len(),
            request.stream,
            server::opt_str(header),
            auth_token@,
        ) {
            Some(e) => r matches Err(x) && x@ == e,
            None => r is Ok,
        },
{
    if !is_offered(models, request.model.as_str()) {
        return Err(ChatError::ModelNotSupported(request.model.clone()));
    }
    if request.messages.len() == 0 {
        return Err(ChatError::EmptyMessages);
    }
    if text::starts_with(request.model.as_str(), "o1") && request.stream {
        return Err(ChatError::StreamNotSupported(request.model.clone()));
    }
    match authorize(header, auth_token) {
        Ok(()) => Ok(()),
        Err(_) => Err(ChatError::Unauthorized),
    }
}

/// Whose turn it is among the tokens.
pub struct KeyIndex {
    pub next: usize,
}

/// The count after the next one.
pub open spec fn turned(n: usize) -> usize {
    if n == usize::MAX {
        0
    } else {
        (n + 1) as usize
    }
}

impl KeyIndex {
    /// Starts with the first token.
    pub fn new() -> (r: KeyIndex)
        ensures
            r.next == 0,
    {
        KeyIndex { next: 0 }
    }

    /// Chooses the token whose turn it is.
    ///
    /// # Errors
    ///
    /// Returns an error if there is no token; the turn stays then.
    pub fn choose_token(&mut self, token_infos: &Vec<TokenInfo>) -> (r: Result<
        TokenInfo,
        ChatError,
    >)
        ensures
            match r {
                Ok(t) => {
                    &&& token_infos@.len() > 0
                    &&& t@ == token_infos@[old(self).next as int % token_infos@.len() as int]@
                    &&& final(self).next == turned(old(self).next)
                },
                Err(e) => token_infos@.len() == 0 && e@ == ChatErrorView::NoTokens
                    && final(self).next == old(self).next,
            },
    {
        if token_infos.len() == 0 {
            return Err(ChatError::NoTokens);
        }
        let index: usize = self.next % token_infos.len();
        self.next = self.next.wrapping_add(1);
        let chosen = &token_infos[index];
        let alias = match &chosen.alias {
            Some(a) => Some(a.clone()),
            None => None,
        };
        Ok(TokenInfo { token: chosen.token.clone(), checksum: chosen.checksum.clone(), alias })
    }
}

/// The most lines that the request log keeps.
pub const MAX_LOGS: usize = 100;

/// The log with a line added, without the oldest line where there would be too many.
pub open spec fn logged(logs: Seq<app::LogView>, line: app::LogView) -> Seq<app::LogView> {
    let all = logs.push(line);
    if all.len() > MAX_LOGS {
        all.skip(1)
    } else {
        all
    }
}

/// The line of a request that was taken.
pub open spec fn pending(
    now: i64,
    model: Seq<char>,
    stream: bool,
    token: tokens::TokenView,
) -> app::LogView {
    app::LogView {
        timestamp: now,
        model,
        checksum: token.checksum,
        auth_token: token.token,
        alias: match token.alias {
            Some(a) => a,
            None => Seq::empty(),
        },
        stream,
        status: "pending"@,
        error: None,
    }
}

/// The count after one more.
pub open spec fn counted(n: u64) -> u64 {
    if n == u64::MAX {
        0
    } else {
        (n + 1) as u64
    }
}

/// The count after one less.
pub open spec fn uncounted(n: u64) -> u64 {
    if n == 0 {
        u64::MAX
    } else {
        (n - 1) as u64
    }
}

/// Counts and logs a request that was taken.
pub fn record_request(state: &mut AppState, now: i64, model: String, stream: bool, token: &TokenInfo)
    ensures
        final(state).total_requests == counted(old(state).total_requests),
        final(state).active_requests == counted(old(state).active_requests),
        app::log_views(final(state).request_logs@) == logged(
            app::log_views(old(state).request_logs@),
            pending(now, model@, stream, token@),
        ),
        final(state).token_infos == old(state).token_infos,
        final(state).request_logs@.len() > 0,
        old(state).request_logs@.len() <= MAX_LOGS ==> final(state).request_logs@.len() <= MAX_LOGS,
{
    let ghost before = app::log_views(state.request_logs@);
    let ghost name = model@;
    state.total_requests = state.total_requests.wrapping_add(1);
    state.active_requests = state.active_requests.wrapping_add(1);
    let alias = match &token.alias {
        Some(a) => a.clone(),
        None => String::new(),
    };
    let line = RequestLog {
        timestamp: now,
        model,
        checksum: token.checksum.clone(),
        auth_token: token.token.clone(),
        alias,
        stream,
        status: "pending".to_owned(),
        error: None,
    };
    state.request_logs.push(line);
    let ghost all = before.push(pending(now, name, stream, token@));
    assert(app::log_views(state.request_logs@) =~= all);
    if state.request_logs.len() > MAX_LOGS {
        let _oldest = state.request_logs.remove(0);
        assert(app::log_views(state.request_logs@) =~= all.skip(1));
    }
}

/// What goes upstream for a request.
pub struct Upstream {
    pub auth_token: String,
    pub checksum: String,
}

/// The address that requests go to.
pub const UPSTREAM_URL: &'static str = "https://api2.cursor.sh/aiserver.v1.AiService/StreamChat";

/// The header fields of a request that goes upstream.
pub open spec fn upstream_headers(
    auth_token: Seq<char>,
    checksum: Seq<char>,
    request_id: Seq<char>,
) -> Seq<(Seq<char>, Seq<char>)> {
    seq![
        ("Content-Type"@, "application/connect+proto"@),
        ("Authorization"@, "Bearer "@ + auth_token),
        ("connect-accept-encoding"@, "gzip,br"@),
        ("connect-protocol-version"@, "1"@),
        ("user-agent"@, "connect-es/1.6.1"@),
        ("x-amzn-trace-id"@, "Root="@ + request_id),
        ("x-cursor-checksum"@, checksum),
        ("x-cursor-client-version"@, "0.42.5"@),
        ("x-cursor-timezone"@, "Asia/Shanghai"@),
        ("x-ghost-mode"@, "false"@),
        ("x-request-id"@, request_id),
        ("Host"@, "api2.cursor.sh"@),
    ]
}

impl Upstream {
    /// Returns the header fields, in order.
    pub fn headers(&self, request_id: &str) -> (r: Vec<(String, String)>)
        ensures
            server::pair_views(r@) == upstream_headers(
                self.auth_token@,
                self.checksum@,
                request_id@,
            ),
    {
        let mut r: Vec<(String, String)> = Vec::new();
        r.push(("Content-Type".to_owned(), "application/connect+proto".to_owned()));
        r.push(("Authorization".to_owned(), "Bearer ".to_owned().concat(self.auth_token.as_str())));
        r.push(("connect-accept-encoding".to_owned(), "gzip,br".to_owned()));
        r.push(("connect-protocol-version".to_owned(), "1".to_owned()));
        r.push(("user-agent".to_owned(), "connect-es/1.6.1".to_owned()));
        r.push(("x-amzn-trace-id".to_owned(), "Root=".to_owned().concat(request_id)));
        r.push(("x-cursor-checksum".to_owned(), self.checksum.clone()));
        r.push(("x-cursor-client-version".to_owned(), "0.42.5".to_owned()));
        r.push(("x-cursor-timezone".to_owned(), "Asia/Shanghai".to_owned()));
        r.push(("x-ghost-mode".to_owned(), "false".to_owned()));
        r.push(("x-request-id".to_owned(), request_id.to_owned()));
        r.push(("Host".to_owned(), "api2.cursor.sh".to_owned()));
        assert(server::pair_views(r@) =~= upstream_headers(
            self.auth_token@,
            self.checksum@,
            request_id@,
        ));
        r
    }
}

/// Why a request is refused; nothing where it is taken.
pub open spec fn refusal(
    models: Seq<Model>,
    model: Seq<char>,
    messages: nat,
    stream: bool,
    header: Option<Seq<char>>,
    auth_token: Seq<char>,
    tokens: nat,
) -> Option<ChatErrorView> {
    match objection(models, model, messages, stream, header, auth_token) {
        Some(e) => Some(e),
        None => if tokens == 0 {
            Some(ChatErrorView::NoTokens)
        } else {
            None
        },
    }
}

/// Takes a request or refuses it: chooses a token, counts and logs the request, and returns what
/// goes upstream.
///
/// # Errors
///
/// Returns an error if the request is refused; nothing is counted or logged then.
pub fn handle_chat(
    state: &mut AppState,
    keys: &mut KeyIndex,
    models: &Vec<Model>,
    auth_token: &str,
    header: Option<&str>,
    request: &ChatRequest,
    now: i64,
) -> (r: Result<Upstream, ChatError>)
    ensures
        match refusal(
            models@,
            request.model@,
            request.messages@.len(),
            request.stream,
            server::opt_str(header),
            auth_token@,
            old(state).token_infos@.len(),
        ) {
            Some(e) => {
                &&& r matches Err(x) && x@ == e
                &&& *final(state) == *old(state)
                &&& final(keys).next == old(keys).next
            },
            None => {
                let chosen = old(state).token_infos@[old(keys).next as int
                    % old(state).token_infos@.len() as int];
                &&& r matches Ok(u) && u.auth_token@ == chosen.token@ && u.checksum@
                    == chosen.checksum@
                &&& final(keys).next == turned(old(keys).next)
                &&& final(state).total_requests == counted(old(state).total_requests)
                &&& final(state).active_requests == counted(old(state).active_requests)
                &&& final(state).token_infos == old(state).token_infos
                &&& app::log_views(final(state).request_logs@) == logged(
                    app::log_views(old(state).request_logs@),
                    pending(now, request.model@, request.stream, chosen@),
                )
                &&& final(state).request_logs@.len() > 0
            },
        },
        old(state).request_logs@.len() <= MAX_LOGS ==> final(state).request_logs@.len() <= MAX_LOGS,
{
    match check_request(models, request, header, auth_token) {
        Ok(()) => {},
        Err(e) => return Err(e),
    }
    match keys.choose_token(&state.token_infos) {
        Ok(token) => {
            record_request(state, now, request.model.clone(), request.stream, &token);
            Ok(Upstream { auth_token: token.token, checksum: token.checksum })
        },
        Err(e) => Err(e),
    }
}

/// The log with the last line changed.
pub open spec fn relogged(
    logs: Seq<app::LogView>,
    status: Seq<char>,
    error: Option<Seq<char>>,
) -> Seq<app::LogView> {
    if logs.len() == 0 {
        logs
    } else {
        logs.update(logs.len() - 1, app::LogView { status, error, ..logs.last() })
    }
}

/// The state is the same but for the log.
pub open spec fn only_logs_change(a: AppState, b: AppState) -> bool {
    &&& b.total_requests == a.total_requests
    &&& b.token_infos == a.token_infos
    &&& b.request_logs@.len() == a.request_logs@.len()
}

fn mark_last(state: &mut AppState, status: &str, error: Option<String>)
    ensures
        app::log_views(final(state).request_logs@) == relogged(
            app::log_views(old(state).request_logs@),
            status@,
            text::opt(error),
        ),
        only_logs_change(*old(state), *final(state)),
        final(state).active_requests == old(state).active_requests,
{
    let ghost before = app::log_views(state.request_logs@);
    let n: usize = state.request_logs.len();
    if n > 0 {
        let last = state.request_logs.remove(n - 1);
        let line = RequestLog {
            timestamp: last.timestamp,
            model: last.model,
            checksum: last.checksum,
            auth_token: last.auth_token,
            alias: last.alias,
            stream: last.stream,
            status: status.to_owned(),
            error,
        };
        state.request_logs.push(line);
    }
    assert(app::log_views(state.request_logs@) =~= relogged(before, status@, text::opt(error)));
}

/// Logs that the request went upstream, and counts it as active no more.
pub fn request_sent(state: &mut AppState)
    requires
        old(state).request_logs@.len() > 0,
    ensures
        app::log_views(final(state).request_logs@) == relogged(
            app::log_views(old(state).request_logs@),
            "success"@,
            app::log_views(old(state).request_logs@).last().error,
        ),
        only_logs_change(*old(state), *final(state)),
        final(state).active_requests == uncounted(old(state).active_requests),
{
    let n: usize = state.request_logs.len();
    let error = match &state.request_logs[n - 1].error {
        Some(e) => Some(e.clone()),
        None => None,
    };
    mark_last(state, "success", error);
    state.active_requests = state.active_requests.wrapping_sub(1);
}

/// Logs a failure, where there is a line to log it in.
pub fn request_failed(state: &mut AppState, error: &str)
    ensures
        app::log_views(final(state).request_logs@) == relogged(
            app::log_views(old(state).request_logs@),
            "failed"@,
            Some(error@),
        ),
        only_logs_change(*old(state), *final(state)),
        final(state).active_requests == old(state).active_requests,
{
    mark_last(state, "failed", Some(error.to_owned()));
}

/// Logs that the request could not be sent, and returns what is answered.
pub fn send_failed(state: &mut AppState, error: &str) -> (r: ChatError)
    ensures
        r@ == ChatErrorView::RequestFailed(error@),
        app::log_views(final(state).request_logs@) == relogged(
            app::log_views(old(state).request_logs@),
            "failed"@,
            Some(error@),
        ),
        only_logs_change(*old(state), *final(state)),
        final(state).active_requests == old(state).active_requests,
{
    request_failed(state, error);
    ChatError::RequestFailed(error.to_owned())
}

/// What is answered where the messages cannot be encoded.
pub fn encode_failed() -> (r: ChatError)
    ensures
        r@ == ChatErrorView::RequestFailed("Failed to encode chat message"@),
{
    ChatError::RequestFailed("Failed to encode chat message".to_owned())
}

/// What is answered where a part of the response cannot be read.
pub fn read_failed(error: &str) -> (r: ChatError)
    ensures
        r@ == ChatErrorView::RequestFailed("Failed to read response chunk: "@ + error@),
{
    ChatError::RequestFailed("Failed to read response chunk: ".to_owned().concat(error))
}

/// The answer with a piece of text; it names the model where the piece is empty.
pub open spec fn is_piece(
    r: ChatResponse,
    id: Seq<char>,
    created: i64,
    model: Seq<char>,
    piece: Seq<char>,
) -> bool {
    &&& r.id@ == id
    &&& r.object@ == "chat.completion.chunk"@
    &&& r.created == created
    &&& text::opt(r.model) == (if piece.len() == 0 {
        Some(model)
    } else {
        None
    })
    &&& r.choices@.len() == 1
    &&& r.choices@[0].index == 0
    &&& r.choices@[0].message is None
    &&& r.choices@[0].delta matches Some(d) && text::opt(d.content) == Some(piece)
    &&& r.choices@[0].finish_reason is None
    &&& r.usage is None
}

/// The whole answer.
pub open spec fn is_answer(
    r: ChatResponse,
    id: Seq<char>,
    created: i64,
    model: Seq<char>,
    answer: Seq<char>,
) -> bool {
    &&& r.id@ == id
    &&& r.object@ == "chat.completion"@
    &&& r.created == created
    &&& text::opt(r.model) == Some(model)
    &&& r.choices@.len() == 1
    &&& r.choices@[0].index == 0
    &&& r.choices@[0].message matches Some(m) && m.role@ == "assistant"@ && (
    m.content matches MessageContent::Text(said) && said@ == answer)
    &&& r.choices@[0].delta is None
    &&& text::opt(r.choices@[0].finish_reason) == Some("stop"@)
    &&& r.usage == Some(Usage { prompt_tokens: 0, completion_tokens: 0, total_tokens: 0 })
}

/// An event of a streamed answer.
pub enum Event {
    /// A piece of the answer.
    Piece(ChatResponse),
    /// The end of the answer.
    Done,
    /// Nothing.
    Silence,
}

/// The failure that is logged where a part of a streamed answer could not be decoded.
pub open spec fn stream_failure(so_far: Seq<char>) -> Seq<char> {
    if so_far.len() == 0 {
        "Empty response received"@
    } else {
        "Incomplete response received"@
    }
}

/// A streamed answer.
pub struct ChatStream {
    pub id: String,
    pub model: String,
    pub full_text: String,
    pub decode_error_count: usize,
}

impl ChatStream {
    /// Creates an answer without text.
    pub fn new(unique: &str, model: String) -> (r: ChatStream)
        ensures
            r.id@ == "chatcmpl-"@ + unique@,
            r.model == model,
            r.full_text@.len() == 0,
            r.decode_error_count == 0,
    {
        ChatStream {
            id: "chatcmpl-".to_owned().concat(unique),
            model,
            full_text: String::new(),
            decode_error_count: 0,
        }
    }

    /// Takes the text of the next part in, or that it could not be decoded; returns the event that
    /// is sent and the failure that is logged, if any.
    ///
    /// While exactly one part could not be decoded, each part ends the answer.
    pub fn next_event(&mut self, decoded: Option<String>, now: i64) -> (r: (
        Event,
        Option<&'static str>,
    ))
        ensures
            final(self).id == old(self).id,
            final(self).model == old(self).model,
            final(self).full_text@ == old(self).full_text@ + (match decoded {
                Some(t) => t@,
                None => Seq::empty(),
            }),
            final(self).decode_error_count == (if decoded is None {
                turned(old(self).decode_error_count)
            } else {
                old(self).decode_error_count
            }),
            final(self).decode_error_count == 1 ==> r.0 is Done && server::opt_str(r.1) == Some(
                stream_failure(final(self).full_text@),
            ),
            final(self).decode_error_count != 1 ==> r.1 is None && match decoded {
                Some(t) => r.0 matches Event::Piece(p) && is_piece(
                    p,
                    old(self).id@,
                    now,
                    old(self).model@,
                    t@,
                ),
                None => if final(self).decode_error_count == 2 && old(self).full_text@.len() > 0 {
                    r.0 is Done
                } else {
                    r.0 is Silence
                },
            },
    {
        let ghost before = self.full_text@;
        let event = match decoded {
            Some(piece) => {
                self.full_text.append(piece.as_str());
                let model = if piece.as_str().unicode_len() == 0 {
                    Some(self.model.clone())
                } else {
                    None
                };
                let mut choices: Vec<Choice> = Vec::new();
                choices.push(
                    Choice {
                        index: 0,
                        message: None,
                        delta: Some(Delta { content: Some(piece) }),
                        finish_reason: None,
                    },
                );
                Event::Piece(
                    ChatResponse {
                        id: self.id.clone(),
                        object: "chat.completion.chunk".to_owned(),
                        created: now,
                        model,
                        choices,
                        usage: None,
                    },
                )
            },
            None => {
                self.decode_error_count = self.decode_error_count.wrapping_add(1);
                assert(before + Seq::empty() =~= before);
                if self.decode_error_count == 2 && self.full_text.as_str().unicode_len() > 0 {
                    Event::Done
                } else {
                    Event::Silence
                }
            },
        };
        if self.decode_error_count == 1 {
            let failure = if self.full_text.as_str().unicode_len() == 0 {
                "Empty response received"
            } else {
                "Incomplete response received"
            };
            (Event::Done, Some(failure))
        } else {
            (event, None)
        }
    }
}

/// An event with data, as it is written into the stream.
pub fn data_event(json: &str) -> (r: String)
    ensures
        r@ == "data: "@ + json@ + "\n\n"@,
{
    "data: ".to_owned().concat(json).concat("\n\n")
}

/// The event that ends the stream.
pub const DONE_EVENT: &'static str = "data: [DONE]\n\n";

/// The answer in the text that came: without the marks of the prompt and white space at its ends.
pub open spec fn answer_in(full_text: Seq<char>) -> Seq<char> {
    text::trimmed(
        text::replaced(
            text::replaced(full_text, "^.*<\\|END_USER\\|>"@, Seq::empty()),
            "^\\n[a-zA-Z]?"@,
            Seq::empty(),
        ),
    )
}

/// Returns the answer to a request that is not streamed, once its whole text has come.
///
/// # Errors
///
/// Returns an error if there is no text; the failure is logged then.
pub fn complete(
    state: &mut AppState,
    full_text: String,
    unique: &str,
    model: String,
    now: i64,
) -> (r: Result<ChatResponse, ChatError>)
    ensures
        match r {
            Ok(response) => {
                &&& answer_in(full_text@).len() > 0
                &&& is_answer(
                    response,
                    "chatcmpl-"@ + unique@,
                    now,
                    model@,
                    answer_in(full_text@),
                )
                &&& *final(state) == *old(state)
            },
            Err(e) => {
                &&& answer_in(full_text@).len() == 0
                &&& e@ == ChatErrorView::RequestFailed("Empty response received"@)
                &&& app::log_views(final(state).request_logs@) == relogged(
                    app::log_views(old(state).request_logs@),
                    "failed"@,
                    Some("Empty response received"@),
                )
                &&& only_logs_change(*old(state), *final(state))
                &&& final(state).active_requests == old(state).active_requests
            },
        },
{
    proof {
        reveal_strlit("^.*<\\|END_USER\\|>");
        reveal_strlit("^\\n[a-zA-Z]?");
        reveal_strlit("");
        assert(""@ =~= Seq::empty());
    }
    let first = text::replace(full_text.as_str(), "^.*<\\|END_USER\\|>", "");
    let second = text::replace(first.as_str(), "^\\n[a-zA-Z]?", "");
    let answer = text::trim(second.as_str());
    if answer.as_str().unicode_len() == 0 {
        request_failed(state, "Empty response received");
        return Err(ChatError::RequestFailed("Empty response received".to_owned()));
    }
    let mut choices: Vec<Choice> = Vec::new();
    choices.push(
        Choice {
            index: 0,
            message: Some(
                Message { role: "assistant".to_owned(), content: MessageContent::Text(answer) },
            ),
            delta: None,
            finish_reason: Some("stop".to_owned()),
        },
    );
    Ok(
        ChatResponse {
            id: "chatcmpl-".to_owned().concat(unique),
            object: "chat.completion".to_owned(),
            created: now,
            model: Some(model),
            choices,
            usage: Some(Usage { prompt_tokens: 0, completion_tokens: 0, total_tokens: 0 }),
        },
    )
}

/// The log never grows beyond its limit; the new line is its last one, and the lines that stay keep
/// their order.
pub proof fn log_keeps_newest(logs: Seq<app::LogView>, line: app::LogView)
    requires
        logs.len() <= MAX_LOGS,
    ensures
        0 < logged(logs, line).len() <= MAX_LOGS,
        logged(logs, line).last() == line,
        forall|i: int|
            0 <= i < logged(logs, line).len() - 1 ==> #[trigger] logged(logs, line)[i] == logs[i
                + logs.len() + 1 - logged(logs, line).len()],
{
}

/// As many successive requests as there are tokens use each token once.
pub proof fn tokens_take_turns(next: int, tokens: int, index: int)
    requires
        0 <= next,
        0 <= index < tokens,
    ensures
        exists|i: int| 0 <= i < tokens && #[trigger] ((next + i) % tokens) == index,
        forall|i: int, j: int|
            0 <= i < j < tokens ==> #[trigger] ((next + i) % tokens) != #[trigger] ((next + j)
                % tokens),
{
    let r = next % tokens;
    let i = if index >= r {
        index - r
    } else {
        index - r + tokens
    };
    assert((next + i) % tokens == index) by {
        let q = next / tokens;
        vstd::arithmetic::div_mod::lemma_fundamental_div_mod(next, tokens);
        if index >= r {
            assert(next + i == tokens * q + index) by (nonlinear_arith)
                requires
                    next == tokens * q + r,
                    i == index - r,
            ;
            vstd::arithmetic::div_mod::lemma_fundamental_div_mod_converse(
                next + i,
                tokens,
                q,
                index,
            );
        } else {
            assert(next + i == (q + 1) * tokens + index) by (nonlinear_arith)
                requires
                    next == tokens * q + r,
                    i == index - r + tokens,
            ;
            vstd::arithmetic::div_mod::lemma_fundamental_div_mod_converse(
                next + i,
                tokens,
                q + 1,
                index,
            );
        }
    }
    assert forall|i: int, j: int| 0 <= i < j < tokens implies #[trigger] ((next + i) % tokens)
        != #[trigger] ((next + j) % tokens) by {
        let a = (next + i) % tokens;
        if a == (next + j) % tokens {
            let p = (next + i) / tokens;
            let q = (next + j) / tokens;
            vstd::arithmetic::div_mod::lemma_fundamental_div_mod(next + i, tokens);
            vstd::arithmetic::div_mod::lemma_fundamental_div_mod(next + j, tokens);
            assert(j - i == tokens * (q - p)) by (nonlinear_arith)
                requires
                    next + i == tokens * p + a,
                    next + j == tokens * q + a,
            ;
            assert(q - p >= 1 || q - p <= 0);
            assert(j - i >= tokens || j - i <= 0) by (nonlinear_arith)
                requires
                    j - i == tokens * (q - p),
                    tokens > 0,
                    q - p >= 1 || q - p <= 0,
            ;
        }
    }
}

/// Without the token of the server no request is taken.
pub proof fn unauthorized_requests_are_refused(
    models: Seq<Model>,
    model: Seq<char>,
    messages: nat,
    stream: bool,
    header: Option<Seq<char>>,
    auth_token: Seq<char>,
    tokens: nat,
)
    requires
        server::bearer(header) != Some(auth_token),
    ensures
        refusal(models, model, messages, stream, header, auth_token, tokens) is Some,
{
}

} // verus!
