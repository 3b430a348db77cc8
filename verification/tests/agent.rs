use cursor_api::adapter::tool_id::ToolId;
use cursor_api::agent::run::{
    execute_tool, AgentChatRequest, AgentError, AgentRun, LlmResponse, Message, Progress, ToolCall,
    ToolCallFunction,
};
use cursor_api::agent::session::{AgentSessionManager, AppState};
use cursor_api::session::SessionStore;
use cursor_api::store::TextMap;

fn request(session_id: Option<&str>, max_iterations: Option<u32>) -> AgentChatRequest {
    AgentChatRequest {
        model: "m".to_owned(),
        messages: vec![Message {
            role: "user".to_owned(),
            content: "go".to_owned(),
        }],
        tools: None,
        session_id: session_id.map(|s| s.to_owned()),
        max_iterations,
        auto_execute_tools: None,
    }
}

fn tool_call(name: &str) -> ToolCall {
    ToolCall {
        id: "1".to_owned(),
        function: ToolCallFunction {
            name: name.to_owned(),
            arguments: "{}".to_owned(),
        },
    }
}

fn start(manager: &mut AgentSessionManager, request: &AgentChatRequest) -> AgentRun {
    AgentRun::start(manager, request, "mc".to_owned(), "conv".to_owned(), 100)
        .unwrap_or_else(|_| panic!("no session"))
}

#[test]
fn test_session_store() {
    let mut store = SessionStore::new();

    // Initial state
    assert_eq!(store.get_or_create("session1"), None);

    // Save
    store.save("session1".to_string(), "model_call_id_1".to_string());
    assert_eq!(
        store.get_or_create("session1"),
        Some("model_call_id_1".to_string())
    );

    // Remove
    store.remove("session1");
    assert_eq!(store.get_or_create("session1"), None);
}

#[test]
fn sessions_are_counted_and_cleared() {
    let mut store = SessionStore::new();
    store.save("a".to_owned(), "1".to_owned());
    store.save("b".to_owned(), "2".to_owned());
    store.save("a".to_owned(), "3".to_owned());
    assert_eq!(store.len(), 2);
    assert_eq!(store.get_or_create("a"), Some("3".to_owned()));
    store.clear();
    assert_eq!(store.len(), 0);
}

#[test]
fn map_with_text_keys() {
    let mut map: TextMap<u32> = TextMap::new();
    map.insert("a".to_owned(), 1);
    map.insert("b".to_owned(), 2);
    map.insert("c".to_owned(), 3);
    assert_eq!(map.remove("b"), Some(2));
    assert_eq!(map.remove("b"), None);
    assert_eq!(map.get("c"), Some(&3));
    assert_eq!(map.find_key(&|v: &u32| *v > 2), Some("c".to_owned()));
    assert_eq!(map.find_key(&|v: &u32| *v > 3), None);
    assert_eq!(map.len(), 2);
}

#[test]
fn agent_sessions_live_and_expire() {
    let mut manager = AgentSessionManager::new();
    let session = manager.create_session("m1".to_owned(), "c1".to_owned(), 1000);
    assert_eq!(session.iteration_count, 0);
    assert_eq!(manager.get_session("m1"), Some(session));
    assert_eq!(manager.get_session("c1"), None);
    assert_eq!(manager.find_session("c1").unwrap().model_call_id, "m1");
    assert_eq!(manager.find_session("m1").unwrap().conversation_id, "c1");
    assert!(manager.find_session("x").is_none());
    manager.create_session("m2".to_owned(), "c2".to_owned(), 1000);
    manager.update_session("m2", 2000);
    manager.update_session("unknown", 2000);
    let used = manager.get_session("m2").unwrap();
    assert_eq!((used.created_at, used.last_active, used.iteration_count), (1000, 2000, 1));
    manager.cleanup_expired(2799);
    assert!(manager.get_session("m1").is_some());
    manager.cleanup_expired(2800);
    assert!(manager.get_session("m1").is_none());
    assert!(manager.get_session("m2").is_some());
    manager.cleanup_expired(2800);
    assert!(manager.get_session("m2").is_some());
    let mut state = AppState::new();
    state
        .agent_session_manager()
        .create_session("m".to_owned(), "c".to_owned(), 0);
    assert!(state.agent_session_manager().get_session("m").is_some());
}

#[test]
fn agents_run_until_no_tool_is_asked_for() {
    let mut manager = AgentSessionManager::new();
    let run = start(&mut manager, &request(None, None));
    assert_eq!(run.max_iterations, 5);
    let (run, id) = run
        .begin_step(&mut manager, "u1", 101)
        .unwrap_or_else(|_| panic!("no step"));
    assert_eq!(id, "call_u1\nmc_mc");
    assert_eq!(ToolId::parse(&id).model_call_id, Some("mc".to_owned()));
    let calls = vec![tool_call("read"), tool_call("write")];
    let answer = LlmResponse {
        content: "working".to_owned(),
        tool_calls: Some(calls.clone()),
    };
    let run = match run.observe(answer, &vec![vec![1, 20], vec![]]) {
        Progress::Continue(run) => run,
        Progress::Finished(_) => panic!("finished"),
    };
    let said: Vec<(&str, &str)> = run
        .messages
        .iter()
        .map(|m| (m.role.as_str(), m.content.as_str()))
        .collect();
    assert_eq!(
        said,
        vec![
            ("user", "go"),
            ("assistant", "working"),
            ("tool", "Tool result: [1, 20]"),
            ("tool", "Tool result: []"),
        ]
    );
    assert_eq!(format!("Tool result: {:?}", vec![1u8, 20]), "Tool result: [1, 20]");
    let (run, id) = run
        .begin_step(&mut manager, "u2", 102)
        .unwrap_or_else(|_| panic!("no step"));
    assert_eq!(ToolId::parse(&id).model_call_id, Some("mc".to_owned()));
    let answer = LlmResponse {
        content: "done".to_owned(),
        tool_calls: None,
    };
    match run.observe(answer, &vec![]) {
        Progress::Finished(response) => {
            assert_eq!(response.session_id, "conv");
            assert_eq!(response.model_call_id, "mc");
            assert_eq!(response.final_response, "done");
            assert_eq!(response.total_tool_calls, 2);
            assert_eq!(response.iterations.len(), 1);
            assert_eq!(response.iterations[0].step, 0);
            assert_eq!(response.iterations[0].tool_calls, calls);
        }
        Progress::Continue(_) => panic!("not finished"),
    }
    assert_eq!(manager.get_session("mc").unwrap().iteration_count, 2);
    assert_eq!(manager.get_session("mc").unwrap().last_active, 102);
}

#[test]
fn answered_session_can_be_named_again() {
    let mut manager = AgentSessionManager::new();
    let first = start(&mut manager, &request(None, None));
    let name = first.session.conversation_id.clone();
    let again = start(&mut manager, &request(Some(&name), None));
    assert_eq!(again.session.model_call_id, "mc");
    manager.create_session("mc2".to_owned(), "conv2".to_owned(), 100);
    manager.update_session("mc", 200);
    let later = start(&mut manager, &request(Some(&name), None));
    assert_eq!(later.session.model_call_id, "mc");
    assert_eq!(later.session.conversation_id, name);
    let other = start(&mut manager, &request(Some("conv2"), None));
    assert_eq!(other.session.model_call_id, "mc2");
    let missing = AgentRun::start(
        &mut manager,
        &request(Some("gone"), None),
        "x".to_owned(),
        "y".to_owned(),
        0,
    );
    let error = missing.err().unwrap();
    assert_eq!((error.status(), error.message()), (404, "Session not found".to_owned()));
    assert!(manager.get_session("x").is_none());
}

#[test]
fn agents_have_a_limit() {
    let mut manager = AgentSessionManager::new();
    let run = start(&mut manager, &request(None, Some(1)));
    let (run, _) = run
        .begin_step(&mut manager, "u", 1)
        .unwrap_or_else(|_| panic!("no step"));
    let answer = LlmResponse {
        content: "more".to_owned(),
        tool_calls: Some(vec![]),
    };
    let run = match run.observe(answer, &vec![]) {
        Progress::Continue(run) => run,
        Progress::Finished(_) => panic!("finished"),
    };
    let error = run.begin_step(&mut manager, "u", 2).err().unwrap();
    assert_eq!(
        (error.status(), error.message()),
        (400, "Max iterations exceeded".to_owned())
    );
    assert!(matches!(error, AgentError::MaxIterationsExceeded(steps) if steps.len() == 1));
    let failed = AgentError::Failed("boom".to_owned());
    assert_eq!((failed.status(), failed.message()), (500, "boom".to_owned()));
    assert_eq!(execute_tool(&tool_call("read")), "Tool read executed");
}
