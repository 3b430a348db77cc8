//! Configuration and state of the server.

use vstd::prelude::*;
use crate::message::Message;
use crate::text;
use crate::tokens::TokenInfo;

verus! {

/// What a page shows.
#[derive(Debug, Clone, PartialEq)]
pub enum PageContent {
    /// The page that comes with the server.
    Default,
    /// Plain text.
    Text(String),
    /// HTML.
    Html(String),
}

impl Default for PageContent {
    fn default() -> (r: PageContent)
        ensures
            r == PageContent::Default,
    {
        PageContent::Default
    }
}

/// [`PageContent`] as characters.
pub enum PageView {
    Default,
    Text(Seq<char>),
    Html(Seq<char>),
}

impl View for PageContent {
    type V = PageView;

    open spec fn view(&self) -> PageView {
        match *self {
            PageContent::Default => PageView::Default,
            PageContent::Text(s) => PageView::Text(s@),
            PageContent::Html(s) => PageView::Html(s@),
        }
    }
}

impl PageContent {
    /// Returns a copy.
    pub fn copy(&self) -> (r: PageContent)
        ensures
            r@ == self@,
    {
        match self {
            PageContent::Default => PageContent::Default,
            PageContent::Text(s) => PageContent::Text(s.clone()),
            PageContent::Html(s) => PageContent::Html(s.clone()),
        }
    }
}

/// The configuration.
pub struct AppConfig {
    pub vision_ability: String,
    pub enable_slow_pool: Option<bool>,
    pub auth_token: String,
    pub token_file: String,
    pub token_list_file: String,
    pub route_prefix: String,
    pub version: String,
    /// When the server was started, in nanoseconds since 1970.
    pub start_time: i64,
    pub root_content: PageContent,
    pub logs_content: PageContent,
    pub config_content: PageContent,
    pub tokeninfo_content: PageContent,
    pub shared_styles_content: PageContent,
    pub shared_js_content: PageContent,
}

/// The contents of the pages.
pub struct PagesView {
    pub root: PageView,
    pub logs: PageView,
    pub config: PageView,
    pub tokeninfo: PageView,
    pub shared_styles: PageView,
    pub shared_js: PageView,
}

/// [`AppConfig`] as characters.
pub struct ConfigView {
    pub vision_ability: Seq<char>,
    pub enable_slow_pool: Option<bool>,
    pub auth_token: Seq<char>,
    pub token_file: Seq<char>,
    pub token_list_file: Seq<char>,
    pub route_prefix: Seq<char>,
    pub version: Seq<char>,
    pub start_time: i64,
    pub pages: PagesView,
}

impl View for AppConfig {
    type V = ConfigView;

    open spec fn view(&self) -> ConfigView {
        ConfigView {
            vision_ability: self.vision_ability@,
            enable_slow_pool: self.enable_slow_pool,
            auth_token: self.auth_token@,
            token_file: self.token_file@,
            token_list_file: self.token_list_file@,
            route_prefix: self.route_prefix@,
            version: self.version@,
            start_time: self.start_time,
            pages: PagesView {
                root: self.root_content@,
                logs: self.logs_content@,
                config: self.config_content@,
                tokeninfo: self.tokeninfo_content@,
                shared_styles: self.shared_styles_content@,
                shared_js: self.shared_js_content@,
            },
        }
    }
}

/// The page at the path, where there is one.
pub open spec fn page_at(p: PagesView, path: Seq<char>) -> Option<PageView> {
    if path == "/"@ {
        Some(p.root)
    } else if path == "/logs"@ {
        Some(p.logs)
    } else if path == "/config"@ {
        Some(p.config)
    } else if path == "/tokeninfo"@ {
        Some(p.tokeninfo)
    } else if path == "/static/shared-styles.css"@ {
        Some(p.shared_styles)
    } else if path == "/static/shared.js"@ {
        Some(p.shared_js)
    } else {
        None
    }
}

/// The pages with the one at the path replaced; nothing where there is no such page.
pub open spec fn page_set(p: PagesView, path: Seq<char>, content: PageView) -> Option<PagesView> {
    if path == "/"@ {
        Some(PagesView { root: content, ..p })
    } else if path == "/logs"@ {
        Some(PagesView { logs: content, ..p })
    } else if path == "/config"@ {
        Some(PagesView { config: content, ..p })
    } else if path == "/tokeninfo"@ {
        Some(PagesView { tokeninfo: content, ..p })
    } else if path == "/static/shared-styles.css"@ {
        Some(PagesView { shared_styles: content, ..p })
    } else if path == "/static/shared.js"@ {
        Some(PagesView { shared_js: content, ..p })
    } else {
        None
    }
}

/// The path names no page.
pub const INVALID_PATH: &'static str = "无效的路径";

impl AppConfig {
    /// Creates the default configuration.
    pub fn new(version: String, start_time: i64) -> (c: AppConfig)
        ensures
            c@ == (ConfigView {
                vision_ability: "base64"@,
                enable_slow_pool: None,
                auth_token: Seq::empty(),
                token_file: ".token"@,
                token_list_file: ".token-list"@,
                route_prefix: Seq::empty(),
                version: version@,
                start_time,
                pages: PagesView {
                    root: PageView::Default,
                    logs: PageView::Default,
                    config: PageView::Default,
                    tokeninfo: PageView::Default,
                    shared_styles: PageView::Default,
                    shared_js: PageView::Default,
                },
            }),
    {
        AppConfig {
            vision_ability: "base64".to_owned(),
            enable_slow_pool: None,
            auth_token: String::new(),
            token_file: ".token".to_owned(),
            token_list_file: ".token-list".to_owned(),
            route_prefix: String::new(),
            version,
            start_time,
            root_content: PageContent::Default,
            logs_content: PageContent::Default,
            config_content: PageContent::Default,
            tokeninfo_content: PageContent::Default,
            shared_styles_content: PageContent::Default,
            shared_js_content: PageContent::Default,
        }
    }

    /// Takes the settings of the environment over.
    pub fn init(
        &mut self,
        vision_ability: String,
        enable_slow_pool: Option<bool>,
        auth_token: String,
        token_file: String,
        token_list_file: String,
        route_prefix: String,
    )
        ensures
            final(self)@ == (ConfigView {
                vision_ability: vision_ability@,
                enable_slow_pool,
                auth_token: auth_token@,
                token_file: token_file@,
                token_list_file: token_list_file@,
                route_prefix: route_prefix@,
                ..old(self)@
            }),
    {
        self.vision_ability = vision_ability;
        self.enable_slow_pool = enable_slow_pool;
        self.auth_token = auth_token;
        self.token_file = token_file;
        self.token_list_file = token_list_file;
        self.route_prefix = route_prefix;
    }

    /// Changes how images are handled.
    pub fn update_vision_ability(&mut self, new_ability: String)
        ensures
            final(self)@ == (ConfigView { vision_ability: new_ability@, ..old(self)@ }),
    {
        self.vision_ability = new_ability;
    }

    /// Changes whether the slow pool is used.
    pub fn update_slow_pool(&mut self, enable: bool)
        ensures
            final(self)@ == (ConfigView { enable_slow_pool: Some(enable), ..old(self)@ }),
    {
        self.enable_slow_pool = Some(enable);
    }

    /// Changes what a page shows.
    ///
    /// # Errors
    ///
    /// Returns an error if the path names no page; nothing is changed then.
    pub fn update_page_content(&mut self, path: &str, content: PageContent) -> (r: Result<
        (),
        &'static str,
    >)
        ensures
            match page_set(old(self)@.pages, path@, content@) {
                Some(pages) => r is Ok && final(self)@ == (ConfigView { pages, ..old(self)@ }),
                None => r == Err::<(), &'static str>(INVALID_PATH) && final(self)@ == old(self)@,
            },
    {
        if text::equal(path, "/") {
            self.root_content = content;
        } else if text::equal(path, "/logs") {
            self.logs_content = content;
        } else if text::equal(path, "/config") {
            self.config_content = content;
        } else if text::equal(path, "/tokeninfo") {
            self.tokeninfo_content = content;
        } else if text::equal(path, "/static/shared-styles.css") {
            self.shared_styles_content = content;
        } else if text::equal(path, "/static/shared.js") {
            self.shared_js_content = content;
        } else {
            return Err(INVALID_PATH);
        }
        Ok(())
    }

    /// Lets a page show what comes with the server.
    ///
    /// # Errors
    ///
    /// Returns an error if the path names no page; nothing is changed then.
    pub fn reset_page_content(&mut self, path: &str) -> (r: Result<(), &'static str>)
        ensures
            match page_set(old(self)@.pages, path@, PageView::Default) {
                Some(pages) => r is Ok && final(self)@ == (ConfigView { pages, ..old(self)@ }),
                None => r == Err::<(), &'static str>(INVALID_PATH) && final(self)@ == old(self)@,
            },
    {
        self.update_page_content(path, PageContent::Default)
    }

    /// Handles images as by default.
    pub fn reset_vision_ability(&mut self)
        ensures
            final(self)@ == (ConfigView { vision_ability: "base64"@, ..old(self)@ }),
    {
        self.vision_ability = "base64".to_owned();
    }

    /// Decides on the slow pool as by default.
    pub fn reset_slow_pool(&mut self)
        ensures
            final(self)@ == (ConfigView { enable_slow_pool: None, ..old(self)@ }),
    {
        self.enable_slow_pool = None;
    }
}

/// A model that can be asked for.
#[derive(Debug, Clone, PartialEq)]
pub struct Model {
    pub id: String,
    pub created: i64,
    pub object: String,
    pub owned_by: String,
}

/// A line of the request log.
#[derive(Debug, Clone, PartialEq)]
pub struct RequestLog {
    /// When the request came, in nanoseconds since 1970.
    pub timestamp: i64,
    pub model: String,
    pub checksum: String,
    pub auth_token: String,
    pub alias: String,
    pub stream: bool,
    pub status: String,
    pub error: Option<String>,
}

/// [`RequestLog`] as characters.
pub struct LogView {
    pub timestamp: i64,
    pub model: Seq<char>,
    pub checksum: Seq<char>,
    pub auth_token: Seq<char>,
    pub alias: Seq<char>,
    pub stream: bool,
    pub status: Seq<char>,
    pub error: Option<Seq<char>>,
}

impl View for RequestLog {
    type V = LogView;

    open spec fn view(&self) -> LogView {
        LogView {
            timestamp: self.timestamp,
            model: self.model@,
            checksum: self.checksum@,
            auth_token: self.auth_token@,
            alias: self.alias@,
            stream: self.stream,
            status: self.status@,
            error: text::opt(self.error),
        }
    }
}

/// The views of log lines.
pub open spec fn log_views(v: Seq<RequestLog>) -> Seq<LogView> {
    Seq::new(v.len(), |i: int| v[i]@)
}

/// The state of the server.
pub struct AppState {
    pub total_requests: u64,
    pub active_requests: u64,
    pub request_logs: Vec<RequestLog>,
    pub token_infos: Vec<TokenInfo>,
}

impl AppState {
    /// Creates the state of a server that has seen no request.
    pub fn new(token_infos: Vec<TokenInfo>) -> (s: AppState)
        ensures
            s.total_requests == 0,
            s.active_requests == 0,
            s.request_logs@.len() == 0,
            s.token_infos == token_infos,
    {
        AppState {
            total_requests: 0,
            active_requests: 0,
            request_logs: Vec::new(),
            token_infos,
        }
    }

    /// Replaces the tokens.
    pub fn update_token_infos(&mut self, token_infos: Vec<TokenInfo>)
        ensures
            *final(self) == (AppState { token_infos, ..*old(self) }),
    {
        self.token_infos = token_infos;
    }
}

/// A request for a chat completion.
#[derive(Debug, Clone, PartialEq)]
pub struct ChatRequest {
    pub model: String,
    pub messages: Vec<Message>,
    pub stream: bool,
}

/// A request to replace the token files.
#[derive(Debug, Clone, PartialEq)]
pub struct TokenUpdateRequest {
    pub tokens: String,
    pub token_list: Option<String>,
}

/// A request to read or change the configuration.
#[derive(Debug, Clone, PartialEq)]
pub struct ConfigUpdateRequest {
    /// "get", "update" or "reset".
    pub action: String,
    pub path: String,
    /// "default", "text" or "html".
    pub content_type: Option<String>,
    pub content: String,
    pub vision_ability: Option<String>,
    pub enable_slow_pool: Option<bool>,
}

/// What a page was set to is what it shows, and no other page changes. There is no page at the other
/// paths, which cannot be set.
pub proof fn page_set_frame(p: PagesView, path: Seq<char>, content: PageView, other: Seq<char>)
    requires
        path != other,
    ensures
        page_set(p, path, content) is Some <==> page_at(p, path) is Some,
        page_set(p, path, content) matches Some(q) ==> page_at(q, path) == Some(content) && page_at(
            q,
            other,
        ) == page_at(p, other),
{
    reveal_strlit("/");
    reveal_strlit("/logs");
    reveal_strlit("/config");
    reveal_strlit("/tokeninfo");
    reveal_strlit("/static/shared-styles.css");
    reveal_strlit("/static/shared.js");
}

} // verus!
