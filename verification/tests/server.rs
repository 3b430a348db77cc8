use cursor_api::app::{
    AppConfig, AppState, ChatRequest, ConfigUpdateRequest, Model, PageContent, TokenUpdateRequest,
};
use cursor_api::chat::{
    check_request, complete, data_event, encode_failed, handle_chat, read_failed, request_failed,
    request_sent, send_failed, ChatError, ChatStream, Event, KeyIndex, Upstream, DONE_EVENT,
    MAX_LOGS, UPSTREAM_URL,
};
use cursor_api::message::{Message, MessageContent, Usage};
use cursor_api::server::{
    authorize, config_message, endpoints, handle_config_page, handle_config_update, handle_logs,
    handle_root, handle_static, handle_tokeninfo_page, handle_update_tokeninfo_post, uptime,
    AuthError, ConfigError, ConfigReply, PageReply,
};
use cursor_api::tokens::TokenInfo;

fn config() -> AppConfig {
    let mut config = AppConfig::new("0.1.0".to_owned(), 1_000_000_000);
    config.init(
        "base64".to_owned(),
        None,
        "secret".to_owned(),
        ".token".to_owned(),
        ".token-list".to_owned(),
        "/api".to_owned(),
    );
    config
}

fn request(action: &str) -> ConfigUpdateRequest {
    ConfigUpdateRequest {
        action: action.to_owned(),
        path: String::new(),
        content_type: None,
        content: String::new(),
        vision_ability: None,
        enable_slow_pool: None,
    }
}

fn model(id: &str) -> Model {
    Model {
        id: id.to_owned(),
        created: 0,
        object: "model".to_owned(),
        owned_by: "x".to_owned(),
    }
}

fn chat(model: &str, stream: bool) -> ChatRequest {
    ChatRequest {
        model: model.to_owned(),
        messages: vec![Message {
            role: "user".to_owned(),
            content: MessageContent::Text("hi".to_owned()),
        }],
        stream,
    }
}

fn token(name: &str, alias: Option<&str>) -> TokenInfo {
    TokenInfo {
        token: name.to_owned(),
        checksum: format!("sum-{}", name),
        alias: alias.map(|a| a.to_owned()),
    }
}

#[test]
fn defaults_of_the_configuration() {
    let config = AppConfig::new("1.2.3".to_owned(), 5);
    assert_eq!(config.vision_ability, "base64");
    assert_eq!(config.enable_slow_pool, None);
    assert_eq!(config.auth_token, "");
    assert_eq!(config.token_file, ".token");
    assert_eq!(config.token_list_file, ".token-list");
    assert_eq!(config.version, "1.2.3");
    assert_eq!(config.root_content, PageContent::Default);
    assert_eq!(PageContent::default(), PageContent::Default);
}

#[test]
fn bearer_tokens_authorize() {
    assert_eq!(authorize(Some("Bearer secret"), "secret"), Ok(()));
    assert_eq!(authorize(Some("Bearer wrong"), "secret"), Err(AuthError::Wrong));
    assert_eq!(authorize(Some("secret"), "secret"), Err(AuthError::Missing));
    assert_eq!(authorize(None, "secret"), Err(AuthError::Missing));
    assert_eq!(authorize(Some("bearer secret"), "secret"), Err(AuthError::Missing));
}

#[test]
fn pages_show_their_content() {
    let mut config = config();
    assert_eq!(handle_root(&config), PageReply::Redirect("/health"));
    assert_eq!(
        handle_logs(&config),
        PageReply::BuiltIn("text/html;charset=utf-8")
    );
    let text = PageContent::Text("t".to_owned());
    let html = PageContent::Html("h".to_owned());
    assert_eq!(config.update_page_content("/", text.clone()), Ok(()));
    assert_eq!(config.update_page_content("/logs", html.clone()), Ok(()));
    assert_eq!(config.update_page_content("/config", text.clone()), Ok(()));
    assert_eq!(config.update_page_content("/tokeninfo", html.clone()), Ok(()));
    assert_eq!(
        config.update_page_content("/static/shared-styles.css", text.clone()),
        Ok(())
    );
    assert_eq!(config.update_page_content("/static/shared.js", html.clone()), Ok(()));
    assert_eq!(config.update_page_content("/nowhere", html), Err("无效的路径"));
    let plain = PageReply::Own("text/plain;charset=utf-8", "t".to_owned());
    let marked = PageReply::Own("text/html;charset=utf-8", "h".to_owned());
    assert_eq!(handle_root(&config), plain);
    assert_eq!(handle_logs(&config), marked);
    assert_eq!(handle_config_page(&config), plain);
    assert_eq!(handle_tokeninfo_page(&config), marked);
    assert_eq!(
        handle_static(&config, "shared-styles.css"),
        PageReply::Own("text/css;charset=utf-8", "t".to_owned())
    );
    assert_eq!(
        handle_static(&config, "shared.js"),
        PageReply::Own("text/javascript;charset=utf-8", "h".to_owned())
    );
    assert_eq!(handle_static(&config, "other"), PageReply::NotFound);
    assert_eq!(config.reset_page_content("/"), Ok(()));
    assert_eq!(handle_root(&config), PageReply::Redirect("/health"));
    assert_eq!(config.reset_page_content("x"), Err("无效的路径"));
}

#[test]
fn state_of_the_server() {
    let config = config();
    assert_eq!(uptime(&config, 3_999_999_999), 2);
    assert_eq!(uptime(&config, 1), 0);
    assert_eq!(uptime(&config, -1_500_000_000), -2);
    let paths = endpoints(&config);
    assert_eq!(paths.len(), 10);
    assert_eq!(paths[0], "/api/v1/chat/completions");
    assert_eq!(paths[1], "/api/v1/models");
    assert_eq!(paths[9], "/static");
}

#[test]
fn token_updates_write_files() {
    let config = config();
    let update = TokenUpdateRequest {
        tokens: "a".to_owned(),
        token_list: Some("a,1".to_owned()),
    };
    assert_eq!(
        handle_update_tokeninfo_post(&config, Some("Bearer secret"), update.clone()),
        Ok(vec![
            (".token".to_owned(), "a".to_owned()),
            (".token-list".to_owned(), "a,1".to_owned())
        ])
    );
    let only = TokenUpdateRequest {
        tokens: "a".to_owned(),
        token_list: None,
    };
    assert_eq!(
        handle_update_tokeninfo_post(&config, Some("Bearer secret"), only),
        Ok(vec![(".token".to_owned(), "a".to_owned())])
    );
    assert_eq!(
        handle_update_tokeninfo_post(&config, None, update),
        Err(AuthError::Missing)
    );
}

#[test]
fn configuration_is_read_and_changed() {
    let mut config = config();
    let header = Some("Bearer secret");
    let reply = handle_config_update(&mut config, header, request("get")).unwrap();
    assert!(config_message(&reply).is_none());
    assert!(matches!(reply, ConfigReply::Current(d) if d.vision_ability == "base64"));

    let mut update = request("update");
    update.path = "/logs".to_owned();
    update.content_type = Some("html".to_owned());
    update.content = "<p>".to_owned();
    update.vision_ability = Some("none".to_owned());
    update.enable_slow_pool = Some(true);
    let reply = handle_config_update(&mut config, header, update.clone()).unwrap();
    assert_eq!(config_message(&reply), Some("配置已更新"));
    assert_eq!(config.logs_content, PageContent::Html("<p>".to_owned()));
    assert_eq!(config.vision_ability, "none");
    assert_eq!(config.enable_slow_pool, Some(true));

    let again = handle_config_update(&mut config, header, update.clone()).unwrap();
    assert_eq!(again, ConfigReply::Updated);
    assert_eq!(config.logs_content, PageContent::Html("<p>".to_owned()));
    assert_eq!(config.auth_token, "secret");
    assert_eq!(config.route_prefix, "/api");
    assert_eq!(config.config_content, PageContent::Default);

    let mut reset = update;
    reset.action = "reset".to_owned();
    let reply = handle_config_update(&mut config, header, reset).unwrap();
    assert_eq!(config_message(&reply), Some("配置已重置"));
    assert_eq!(config.logs_content, PageContent::Default);
    assert_eq!(config.vision_ability, "base64");
    assert_eq!(config.enable_slow_pool, None);
}

#[test]
fn configuration_requests_are_refused() {
    let mut config = config();
    let header = Some("Bearer secret");
    let error = handle_config_update(&mut config, None, request("get")).unwrap_err();
    assert_eq!((error.status(), error.message()), (401, "未提供认证令牌".to_owned()));
    let error = handle_config_update(&mut config, Some("Bearer x"), request("get")).unwrap_err();
    assert_eq!((error.status(), error.message()), (401, "无效的认证令牌".to_owned()));
    let error = handle_config_update(&mut config, header, request("drop")).unwrap_err();
    assert_eq!(error, ConfigError::Action);
    assert_eq!((error.status(), error.message()), (400, "无效的操作类型".to_owned()));
    let mut update = request("update");
    update.path = "/logs".to_owned();
    update.content_type = Some("pdf".to_owned());
    update.vision_ability = Some("none".to_owned());
    let error = handle_config_update(&mut config, header, update.clone()).unwrap_err();
    assert_eq!((error.status(), error.message()), (400, "无效的内容类型".to_owned()));
    update.content_type = Some("text".to_owned());
    update.path = "/nowhere".to_owned();
    let error = handle_config_update(&mut config, header, update.clone()).unwrap_err();
    assert_eq!(
        (error.status(), error.message()),
        (500, "更新页面内容失败: 无效的路径".to_owned())
    );
    update.action = "reset".to_owned();
    let error = handle_config_update(&mut config, header, update).unwrap_err();
    assert_eq!(
        (error.status(), error.message()),
        (500, "重置页面内容失败: 无效的路径".to_owned())
    );
    assert_eq!(config.vision_ability, "base64");
}

#[test]
fn update_without_content_type_leaves_pages() {
    let mut config = config();
    let mut update = request("update");
    update.path = "/nowhere".to_owned();
    update.enable_slow_pool = Some(false);
    assert!(handle_config_update(&mut config, Some("Bearer secret"), update).is_ok());
    assert_eq!(config.enable_slow_pool, Some(false));
}

#[test]
fn chat_requests_are_checked_in_order() {
    let models = vec![model("gpt-4"), model("o1-mini")];
    let check = |request: &ChatRequest, header: Option<&str>| {
        check_request(&models, request, header, "secret")
    };
    let mut empty = chat("nope", true);
    empty.messages.clear();
    assert_eq!(
        check(&empty, None),
        Err(ChatError::ModelNotSupported("nope".to_owned()))
    );
    empty.model = "o1-mini".to_owned();
    assert_eq!(check(&empty, None), Err(ChatError::EmptyMessages));
    assert_eq!(
        check(&chat("o1-mini", true), None),
        Err(ChatError::StreamNotSupported("o1-mini".to_owned()))
    );
    assert_eq!(check(&chat("o1-mini", false), None), Err(ChatError::Unauthorized));
    assert_eq!(
        check(&chat("gpt-4", true), Some("Bearer wrong")),
        Err(ChatError::Unauthorized)
    );
    assert_eq!(check(&chat("gpt-4", true), Some("Bearer secret")), Ok(()));
}

#[test]
fn errors_of_chat_requests() {
    let shown = |e: ChatError| (e.status(), e.code(), e.message());
    assert_eq!(
        shown(ChatError::ModelNotSupported("m".to_owned())),
        (400, "model_not_supported", "Model 'm' is not supported".to_owned())
    );
    assert_eq!(
        shown(ChatError::EmptyMessages),
        (400, "empty_messages", "Message array cannot be empty".to_owned())
    );
    assert_eq!(
        shown(ChatError::StreamNotSupported("m".to_owned())),
        (
            400,
            "stream_not_supported",
            "Streaming is not supported for model 'm'".to_owned()
        )
    );
    assert_eq!(
        shown(ChatError::NoTokens),
        (503, "no_tokens", "No available tokens".to_owned())
    );
    assert_eq!(
        shown(ChatError::Unauthorized),
        (401, "unauthorized", "Invalid authorization token".to_owned())
    );
    assert_eq!(
        shown(encode_failed()),
        (
            500,
            "request_failed",
            "Request failed: Failed to encode chat message".to_owned()
        )
    );
    assert_eq!(
        read_failed("eof").message(),
        "Request failed: Failed to read response chunk: eof"
    );
}

#[test]
fn tokens_take_turns() {
    let models = vec![model("gpt-4")];
    let mut state = AppState::new(vec![token("a", None), token("b", Some("me"))]);
    let mut keys = KeyIndex::new();
    let mut used: Vec<String> = Vec::new();
    for i in 0..5 {
        let upstream = handle_chat(
            &mut state,
            &mut keys,
            &models,
            "secret",
            Some("Bearer secret"),
            &chat("gpt-4", false),
            i,
        )
        .unwrap_or_else(|_| panic!("refused"));
        used.push(upstream.auth_token);
    }
    assert_eq!(used, vec!["a", "b", "a", "b", "a"]);
    assert_eq!(state.total_requests, 5);
    assert_eq!(state.active_requests, 5);
    assert_eq!(state.request_logs[1].alias, "me");
    assert_eq!(state.request_logs[0].alias, "");
    assert_eq!(state.request_logs[1].status, "pending");
    assert_eq!(state.request_logs[1].timestamp, 1);
}

#[test]
fn refused_requests_leave_no_trace() {
    let models = vec![model("gpt-4")];
    let mut state = AppState::new(vec![]);
    let mut keys = KeyIndex::new();
    let refused = handle_chat(
        &mut state,
        &mut keys,
        &models,
        "secret",
        Some("Bearer secret"),
        &chat("gpt-4", false),
        0,
    );
    assert!(matches!(refused, Err(ChatError::NoTokens)));
    assert_eq!(keys.next, 0);
    assert_eq!(state.total_requests, 0);
    assert!(state.request_logs.is_empty());
    state.update_token_infos(vec![token("a", None)]);
    assert_eq!(state.token_infos.len(), 1);
}

#[test]
fn log_keeps_the_newest_lines() {
    let models = vec![model("gpt-4")];
    let mut state = AppState::new(vec![token("a", None)]);
    let mut keys = KeyIndex::new();
    for i in 0..150 {
        let taken = handle_chat(
            &mut state,
            &mut keys,
            &models,
            "secret",
            Some("Bearer secret"),
            &chat("gpt-4", true),
            i,
        );
        assert!(taken.is_ok());
        assert!(state.request_logs.len() <= MAX_LOGS);
    }
    assert_eq!(state.request_logs.len(), 100);
    assert_eq!(state.request_logs[0].timestamp, 50);
    assert_eq!(state.request_logs[99].timestamp, 149);
    request_sent(&mut state);
    assert_eq!(state.request_logs[99].status, "success");
    assert_eq!(state.active_requests, 149);
    assert_eq!(
        send_failed(&mut state, "refused"),
        ChatError::RequestFailed("refused".to_owned())
    );
    assert_eq!(state.request_logs[99].status, "failed");
    assert_eq!(state.request_logs[99].error, Some("refused".to_owned()));
    assert_eq!(state.request_logs[98].status, "pending");
    let mut empty = AppState::new(vec![]);
    request_failed(&mut empty, "x");
    assert!(empty.request_logs.is_empty());
}

#[test]
fn headers_of_upstream_requests() {
    let upstream = Upstream {
        auth_token: "tok".to_owned(),
        checksum: "sum".to_owned(),
    };
    let headers = upstream.headers("id");
    assert_eq!(headers.len(), 12);
    let value = |name: &str| {
        headers
            .iter()
            .find(|h| h.0 == name)
            .map(|h| h.1.clone())
            .unwrap()
    };
    assert_eq!(value("Authorization"), "Bearer tok");
    assert_eq!(value("x-amzn-trace-id"), "Root=id");
    assert_eq!(value("x-cursor-checksum"), "sum");
    assert_eq!(value("x-request-id"), "id");
    assert_eq!(value("connect-accept-encoding"), "gzip,br");
    assert!(UPSTREAM_URL.starts_with("https://api2.cursor.sh/"));
}

#[test]
fn streamed_answers() {
    let mut stream = ChatStream::new("u", "gpt-4".to_owned());
    let (event, failure) = stream.next_event(Some("Hi".to_owned()), 7);
    assert!(failure.is_none());
    match event {
        Event::Piece(p) => {
            assert_eq!(p.id, "chatcmpl-u");
            assert_eq!(p.object, "chat.completion.chunk");
            assert_eq!(p.created, 7);
            assert_eq!(p.model, None);
            assert_eq!(
                p.choices[0].delta.clone().unwrap().content,
                Some("Hi".to_owned())
            );
        }
        _ => panic!("no piece"),
    }
    let (event, _) = stream.next_event(Some(String::new()), 8);
    assert!(matches!(event, Event::Piece(p) if p.model == Some("gpt-4".to_owned())));
    let (event, failure) = stream.next_event(None, 9);
    assert!(matches!(event, Event::Done));
    assert_eq!(failure, Some("Incomplete response received"));
    let (event, failure) = stream.next_event(Some("late".to_owned()), 9);
    assert!(matches!(event, Event::Done));
    assert_eq!(failure, Some("Incomplete response received"));
    let (event, failure) = stream.next_event(None, 10);
    assert!(matches!(event, Event::Done));
    assert_eq!(failure, None);
    let (event, _) = stream.next_event(None, 11);
    assert!(matches!(event, Event::Silence));
    assert_eq!(stream.full_text, "Hilate");

    let mut silent = ChatStream::new("u", "gpt-4".to_owned());
    let (event, failure) = silent.next_event(None, 1);
    assert!(matches!(event, Event::Done));
    assert_eq!(failure, Some("Empty response received"));
    let (event, _) = silent.next_event(None, 1);
    assert!(matches!(event, Event::Silence));
    assert_eq!(data_event("{}"), "data: {}\n\n");
    assert_eq!(DONE_EVENT, "data: [DONE]\n\n");
}

#[test]
fn whole_answers() {
    let mut state = AppState::new(vec![token("a", None)]);
    let mut keys = KeyIndex::new();
    let taken = handle_chat(
        &mut state,
        &mut keys,
        &vec![model("gpt-4")],
        "secret",
        Some("Bearer secret"),
        &chat("gpt-4", false),
        0,
    );
    assert!(taken.is_ok());
    let text = "^.*<\\|END_USER\\|> the answer ^\\n[a-zA-Z]?\n".to_owned();
    let response = complete(&mut state, text, "u", "gpt-4".to_owned(), 3).unwrap();
    assert_eq!(response.id, "chatcmpl-u");
    assert_eq!(response.object, "chat.completion");
    assert_eq!(response.model, Some("gpt-4".to_owned()));
    assert_eq!(response.choices[0].finish_reason, Some("stop".to_owned()));
    assert_eq!(
        response.choices[0].message,
        Some(Message {
            role: "assistant".to_owned(),
            content: MessageContent::Text("the answer".to_owned()),
        })
    );
    assert_eq!(
        response.usage,
        Some(Usage {
            prompt_tokens: 0,
            completion_tokens: 0,
            total_tokens: 0
        })
    );
    let empty = complete(&mut state, " \n".to_owned(), "u", "gpt-4".to_owned(), 3);
    assert_eq!(
        empty.unwrap_err(),
        ChatError::RequestFailed("Empty response received".to_owned())
    );
    assert_eq!(state.request_logs[0].status, "failed");
}
