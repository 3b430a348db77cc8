//! The loop of an agent.
//!
//! [`AgentRun`] decides; calling the model, executing tools and encoding their results is done
//! between its steps.

use vstd::prelude::*;
use crate::adapter::tool_id;
use crate::adapter::tool_id::ToolId;
use crate::agent::session;
use crate::agent::session::{AgentSession, AgentSessionManager};
use crate::codec;
use crate::text;
use crate::text_laws;

verus! {

/// A message.
#[derive(Debug, Clone, PartialEq)]
pub struct Message {
    pub role: String,
    pub content: String,
}

/// [`Message`] as characters.
pub struct MessageView {
    pub role: Seq<char>,
    pub content: Seq<char>,
}

impl View for Message {
    type V = MessageView;

    open spec fn view(&self) -> MessageView {
        MessageView { role: self.role@, content: self.content@ }
    }
}

/// The views of messages.
pub open spec fn message_views(v: Seq<Message>) -> Seq<MessageView> {
    Seq::new(v.len(), |i: int| v[i]@)
}

/// A tool that the model can ask for.
#[derive(Debug, Clone, PartialEq)]
pub struct Tool {
    pub kind: String,
    pub function: ToolFunction,
}

/// The function of a tool; its parameters are JSON.
#[derive(Debug, Clone, PartialEq)]
pub struct ToolFunction {
    pub name: String,
    pub description: String,
    pub parameters: String,
}

/// A call of a tool that the model asked for.
#[derive(Debug, Clone, PartialEq)]
pub struct ToolCall {
    pub id: String,
    pub function: ToolCallFunction,
}

/// The function that a call names, and its arguments.
#[derive(Debug, Clone, PartialEq)]
pub struct ToolCallFunction {
    pub name: String,
    pub arguments: String,
}

/// A request to an agent.
#[derive(Debug, Clone, PartialEq)]
pub struct AgentChatRequest {
    pub model: String,
    pub messages: Vec<Message>,
    pub tools: Option<Vec<Tool>>,
    pub session_id: Option<String>,
    pub max_iterations: Option<u32>,
    pub auto_execute_tools: Option<bool>,
}

/// A step of an agent in which the model asked for tools.
#[derive(Debug, Clone, PartialEq)]
pub struct AgentIteration {
    pub step: u32,
    pub tool_calls: Vec<ToolCall>,
    pub response: String,
}

/// What an agent answers.
#[derive(Debug, Clone, PartialEq)]
pub struct AgentChatResponse {
    pub session_id: String,
    pub model_call_id: String,
    pub iterations: Vec<AgentIteration>,
    pub final_response: String,
    pub total_tool_calls: u32,
}

/// What the model answers.
#[derive(Debug, Clone, PartialEq)]
pub struct LlmResponse {
    pub content: String,
    pub tool_calls: Option<Vec<ToolCall>>,
}

/// Why an agent fails.
#[derive(Debug, Clone, PartialEq)]
pub enum AgentError {
    /// The session does not exist.
    SessionNotFound,
    /// The model, a tool or the encoding failed.
    Failed(String),
    /// The model asked for tools in every step that it had.
    MaxIterationsExceeded(Vec<AgentIteration>),
}

impl AgentError {
    /// The status code of the answer.
    pub open spec fn status_code(self) -> u16 {
        match self {
            AgentError::SessionNotFound => 404,
            AgentError::Failed(_) => 500,
            AgentError::MaxIterationsExceeded(_) => 400,
        }
    }

    /// Returns the status code of the answer.
    pub fn status(&self) -> (r: u16)
        ensures
            r == self.status_code(),
    {
        match self {
            AgentError::SessionNotFound => 404,
            AgentError::Failed(_) => 500,
            AgentError::MaxIterationsExceeded(_) => 400,
        }
    }

    /// The text of the answer.
    pub open spec fn text(self) -> Seq<char> {
        match self {
            AgentError::SessionNotFound => "Session not found"@,
            AgentError::Failed(e) => e@,
            AgentError::MaxIterationsExceeded(_) => "Max iterations exceeded"@,
        }
    }

    /// Returns the text of the answer.
    pub fn message(&self) -> (r: String)
        ensures
            r@ == self.text(),
    {
        match self {
            AgentError::SessionNotFound => "Session not found".to_owned(),
            AgentError::Failed(e) => e.clone(),
            AgentError::MaxIterationsExceeded(_) => "Max iterations exceeded".to_owned(),
        }
    }
}

/// The steps that an agent has where the request does not say.
pub const DEFAULT_ITERATIONS: u32 = 5;

/// What executing a tool returns.
pub fn execute_tool(tool_call: &ToolCall) -> (r: String)
    ensures
        r@ == "Tool "@ + tool_call.function.name@ + " executed"@,
{
    "Tool ".to_owned().concat(tool_call.function.name.as_str()).concat(" executed")
}

/// The numbers of the first `n` bytes.
pub open spec fn byte_texts(bytes: Seq<u8>) -> Seq<Seq<char>> {
    Seq::new(bytes.len(), |i: int| codec::decimal(bytes[i] as nat))
}

/// The bytes as a list of numbers: `[1, 2, 3]`.
pub open spec fn byte_list(bytes: Seq<u8>) -> Seq<char> {
    "["@ + text::joined(byte_texts(bytes), ", "@) + "]"@
}

fn list_bytes(bytes: &Vec<u8>) -> (r: String)
    ensures
        r@ == byte_list(bytes@),
{
    let mut texts: Vec<String> = Vec::new();
    let mut k: usize = 0;
    while k < bytes.len()
        invariant
            k == texts@.len() <= bytes@.len(),
            forall|j: int| 0 <= j < k ==> (#[trigger] texts@[j])@ == codec::decimal(
                bytes@[j] as nat,
            ),
        decreases bytes@.len() - k,
    {
        texts.push(codec::format_decimal(bytes[k] as u64));
        k += 1;
    }
    assert(text::views(texts@) =~= byte_texts(bytes@));
    "[".to_owned().concat(text::join(&texts, ", ").as_str()).concat("]")
}

/// The messages that tell the model the results of tools: one for each of the first `n`.
pub open spec fn result_messages(results: Seq<Vec<u8>>, n: int) -> Seq<MessageView> {
    Seq::new(
        n as nat,
        |i: int|
            MessageView { role: "tool"@, content: "Tool result: "@ + byte_list(results[i]@) },
    )
}

/// The calls in the first `n` steps, as far as they can be counted.
pub open spec fn total_calls(iterations: Seq<AgentIteration>, n: int) -> int
    decreases n,
{
    if n <= 0 {
        0
    } else {
        (total_calls(iterations, n - 1) + iterations[n - 1].tool_calls@.len()) % 0x1_0000_0000
    }
}

fn count_calls(iterations: &Vec<AgentIteration>) -> (r: u32)
    ensures
        r == total_calls(iterations@, iterations@.len() as int),
{
    let mut total: u64 = 0;
    let mut k: usize = 0;
    while k < iterations.len()
        invariant
            k <= iterations@.len(),
            total < 0x1_0000_0000,
            total == total_calls(iterations@, k as int),
        decreases iterations@.len() - k,
    {
        let more: u64 = iterations[k].tool_calls.len() as u64;
        let ghost before = total;
        total = (total + more % 0x1_0000_0000) % 0x1_0000_0000;
        assert(total == (before + more) % 0x1_0000_0000) by (nonlinear_arith)
            requires
                total == (before + more % 0x1_0000_0000) % 0x1_0000_0000,
                before < 0x1_0000_0000,
        ;
        k += 1;
    }
    total as u32
}

/// An agent at work on a request.
pub struct AgentRun {
    pub session: AgentSession,
    pub max_iterations: u32,
    pub step: u32,
    pub iterations: Vec<AgentIteration>,
    pub messages: Vec<Message>,
}

/// How an agent goes on after the model answered.
pub enum Progress {
    /// There is another step.
    Continue(AgentRun),
    /// The request is done.
    Finished(AgentChatResponse),
}

fn copy_messages(messages: &Vec<Message>) -> (r: Vec<Message>)
    ensures
        message_views(r@) == message_views(messages@),
{
    let mut out: Vec<Message> = Vec::new();
    let mut k: usize = 0;
    while k < messages.len()
        invariant
            k == out@.len() <= messages@.len(),
            forall|j: int| 0 <= j < k ==> (#[trigger] out@[j])@ == messages@[j]@,
        decreases messages@.len() - k,
    {
        out.push(
            Message { role: messages[k].role.clone(), content: messages[k].content.clone() },
        );
        k += 1;
    }
    assert(message_views(out@) =~= message_views(messages@));
    out
}

/// The identifier of the tool calls of a step.
pub open spec fn step_id(unique: Seq<char>, model_call_id: Seq<char>) -> Seq<char> {
    tool_id::formatted("call_"@ + unique, Some(model_call_id))
}

impl AgentRun {
    /// Starts work on a request, in the session that it names or in a new one.
    ///
    /// # Errors
    ///
    /// Returns an error if the request names a session that does not exist.
    pub fn start(
        manager: &mut AgentSessionManager,
        request: &AgentChatRequest,
        model_call_id: String,
        conversation_id: String,
        now: i64,
    ) -> (r: Result<AgentRun, AgentError>)
        requires
            old(manager).wf(),
        ensures
            final(manager).wf(),
            match request.session_id {
                Some(id) => {
                    &&& final(manager)@ == old(manager)@
                    &&& match r {
                        Ok(run) => session::names(old(manager)@, id@, run.session@),
                        Err(e) => e is SessionNotFound && session::names_none(old(manager)@, id@),
                    }
                },
                None => {
                    &&& r matches Ok(run)
                    &&& run.session@ == (session::SessionView {
                        model_call_id: model_call_id@,
                        conversation_id: conversation_id@,
                        created_at: now,
                        last_active: now,
                        iteration_count: 0,
                    })
                    &&& final(manager)@ == old(manager)@.insert(model_call_id@, run.session@)
                },
            },
            r matches Ok(run) ==> {
                &&& run.max_iterations == (match request.max_iterations {
                    Some(n) => n,
                    None => DEFAULT_ITERATIONS,
                })
                &&& run.step == 0
                &&& run.iterations@.len() == 0
                &&& message_views(run.messages@) == message_views(request.messages@)
            },
    {
        let session = match &request.session_id {
            Some(id) => match manager.find_session(id.as_str()) {
                Some(s) => s,
                None => return Err(AgentError::SessionNotFound),
            },
            None => manager.create_session(model_call_id, conversation_id, now),
        };
        let max_iterations = match request.max_iterations {
            Some(n) => n,
            None => DEFAULT_ITERATIONS,
        };
        Ok(
            AgentRun {
                session,
                max_iterations,
                step: 0,
                iterations: Vec::new(),
                messages: copy_messages(&request.messages),
            },
        )
    }

    /// Begins a step: notes that the session is used, and returns the identifier of the tool calls
    /// of the step.
    ///
    /// # Errors
    ///
    /// Returns an error if there are no steps left.
    pub fn begin_step(self, manager: &mut AgentSessionManager, unique: &str, now: i64) -> (r: Result<
        (AgentRun, String),
        AgentError,
    >)
        requires
            old(manager).wf(),
        ensures
            final(manager).wf(),
            if self.step < self.max_iterations {
                &&& r matches Ok(x)
                &&& x.0 == self
                &&& x.1@ == step_id(unique@, self.session@.model_call_id)
                &&& final(manager)@ == (if old(manager)@.dom().contains(
                    self.session@.model_call_id,
                ) {
                    old(manager)@.insert(
                        self.session@.model_call_id,
                        session::used(old(manager)@[self.session@.model_call_id], now),
                    )
                } else {
                    old(manager)@
                })
            } else {
                &&& r == Err::<(AgentRun, String), AgentError>(
                    AgentError::MaxIterationsExceeded(self.iterations),
                )
                &&& final(manager)@ == old(manager)@
            },
    {
        if self.step >= self.max_iterations {
            return Err(AgentError::MaxIterationsExceeded(self.iterations));
        }
        manager.update_session(self.session.model_call_id.as_str(), now);
        let prefix = "call_".to_owned().concat(unique);
        let id = ToolId::format(prefix, Some(self.session.model_call_id.clone()));
        Ok((self, id))
    }

    /// Takes in what the model answered, and the encoded results of the tools that it asked for.
    pub fn observe(self, response: LlmResponse, results: &Vec<Vec<u8>>) -> (r: Progress)
        requires
            self.step < self.max_iterations,
        ensures
            match response.tool_calls {
                None => {
                    &&& r matches Progress::Finished(a)
                    &&& a.session_id@ == self.session@.conversation_id
                    &&& a.model_call_id@ == self.session@.model_call_id
                    &&& a.iterations == self.iterations
                    &&& a.final_response == response.content
                    &&& a.total_tool_calls == total_calls(
                        self.iterations@,
                        self.iterations@.len() as int,
                    )
                },
                Some(calls) => {
                    let told = if calls@.len() < results@.len() {
                        calls@.len() as int
                    } else {
                        results@.len() as int
                    };
                    &&& r matches Progress::Continue(run)
                    &&& run.session == self.session
                    &&& run.max_iterations == self.max_iterations
                    &&& run.step == self.step + 1
                    &&& run.iterations@.len() == self.iterations@.len() + 1
                    &&& run.iterations@.drop_last() == self.iterations@
                    &&& run.iterations@.last().step == self.step
                    &&& run.iterations@.last().tool_calls == calls
                    &&& run.iterations@.last().response@ == response.content@
                    &&& message_views(run.messages@) == message_views(self.messages@) + seq![
                        MessageView { role: "assistant"@, content: response.content@ },
                    ] + result_messages(results@, told)
                },
            },
    {
        let LlmResponse { content, tool_calls } = response;
        let ghost said = content@;
        match tool_calls {
            None => {
                let total_tool_calls = count_calls(&self.iterations);
                Progress::Finished(
                    AgentChatResponse {
                        session_id: self.session.conversation_id,
                        model_call_id: self.session.model_call_id,
                        iterations: self.iterations,
                        final_response: content,
                        total_tool_calls,
                    },
                )
            },
            Some(calls) => {
                let told: usize = if calls.len() < results.len() {
                    calls.len()
                } else {
                    results.len()
                };
                let mut iterations = self.iterations;
                let mut messages = self.messages;
                let ghost before = message_views(messages@);
                iterations.push(
                    AgentIteration {
                        step: self.step,
                        tool_calls: calls,
                        response: content.clone(),
                    },
                );
                assert(iterations@.drop_last() =~= self.iterations@);
                messages.push(Message { role: "assistant".to_owned(), content });
                let ghost asked = before + seq![
                    MessageView { role: "assistant"@, content: said },
                ];
                assert(message_views(messages@) =~= asked + result_messages(results@, 0));
                let mut k: usize = 0;
                while k < told
                    invariant
                        k <= told <= results@.len(),
                        message_views(messages@) == asked + result_messages(results@, k as int),
                    decreases told - k,
                {
                    let ghost so_far = message_views(messages@);
                    let told_message = Message {
                        role: "tool".to_owned(),
                        content: "Tool result: ".to_owned().concat(
                            list_bytes(&results[k]).as_str(),
                        ),
                    };
                    messages.push(told_message);
                    proof {
                        assert(message_views(messages@) =~= so_far.push(told_message@));
                        assert(result_messages(results@, k as int + 1) =~= result_messages(
                            results@,
                            k as int,
                        ).push(told_message@));
                        assert(so_far.push(told_message@) =~= asked + result_messages(
                            results@,
                            k as int + 1,
                        ));
                    }
                    k += 1;
                }
                Progress::Continue(
                    AgentRun {
                        session: self.session,
                        max_iterations: self.max_iterations,
                        step: self.step + 1,
                        iterations,
                        messages,
                    },
                )
            },
        }
    }
}

/// The identifiers of the tool calls of all steps carry the model call of the session.
pub proof fn steps_share_model_call(unique: Seq<char>, model_call_id: Seq<char>)
    requires
        !text::has(unique, tool_id::separator()),
    ensures
        tool_id::parsed(step_id(unique, model_call_id)) == (
            "call_"@ + unique,
            Some(model_call_id),
        ),
{
    reveal_strlit("call_");
    reveal_strlit("\nmc_");
    let sep = tool_id::separator();
    let tool = "call_"@ + unique;
    assert forall|i: int| 0 <= i implies !(#[trigger] text::occurs_at(tool, sep, i)) by {
        if text::occurs_at(tool, sep, i) {
            let there = tool.subrange(i, i + sep.len());
            if i < 5 {
                assert(there[0] == tool[i]);
            } else {
                text_laws::lemma_nowhere(unique, sep, 0, i - 5);
                assert(unique.subrange(i - 5, i - 5 + sep.len()) =~= there);
            }
        }
    }
    text_laws::lemma_find_nowhere(tool, sep, 0);
    tool_id::parse_undoes_format(tool, Some(model_call_id));
}

} // verus!
