//! What the pages and the configuration requests of the server answer.

use vstd::prelude::*;
use crate::app::{AppConfig, ConfigUpdateRequest, PageContent, TokenUpdateRequest};
use crate::app;
use crate::text;

verus! {

/// The token of an authorization header: what follows `Bearer `.
pub open spec fn bearer(header: Option<Seq<char>>) -> Option<Seq<char>> {
    match header {
        Some(h) => if text::begins(h, "Bearer "@) {
            Some(h.skip("Bearer "@.len() as int))
        } else {
            None
        },
        None => None,
    }
}

/// The view of an optional text.
pub open spec fn opt_str(o: Option<&str>) -> Option<Seq<char>> {
    match o {
        Some(s) => Some(s@),
        None => None,
    }
}

/// Why a request is not authorized.
#[derive(Debug, Clone, Copy, PartialEq, Eq, Structural)]
pub enum AuthError {
    /// There is no bearer token.
    Missing,
    /// The bearer token is another one.
    Wrong,
}

/// Checks that the authorization header carries the token.
///
/// # Errors
///
/// Returns an error if there is no bearer token or another one.
pub fn authorize(header: Option<&str>, auth_token: &str) -> (r: Result<(), AuthError>)
    ensures
        match r {
            Ok(()) => bearer(opt_str(header)) == Some(auth_token@),
            Err(AuthError::Missing) => bearer(opt_str(header)) is None,
            Err(AuthError::Wrong) => bearer(opt_str(header)) is Some && bearer(opt_str(header))
                != Some(auth_token@),
        },
{
    let stripped = match header {
        Some(h) => text::strip_prefix(h, "Bearer "),
        None => None,
    };
    match stripped {
        Some(token) => if text::equal(token.as_str(), auth_token) {
            Ok(())
        } else {
            Err(AuthError::Wrong)
        },
        None => Err(AuthError::Missing),
    }
}

/// The content type of plain text.
pub const TEXT_PLAIN: &'static str = "text/plain;charset=utf-8";

/// The content type of HTML.
pub const TEXT_HTML: &'static str = "text/html;charset=utf-8";

/// The content type of style sheets.
pub const TEXT_CSS: &'static str = "text/css;charset=utf-8";

/// The content type of scripts.
pub const TEXT_JAVASCRIPT: &'static str = "text/javascript;charset=utf-8";

/// What is sent for a page.
#[derive(Debug, Clone, PartialEq)]
pub enum PageReply {
    /// A temporary redirection.
    Redirect(&'static str),
    /// The page that comes with the server, of the content type.
    BuiltIn(&'static str),
    /// A content type and a text.
    Own(&'static str, String),
    /// There is no such page.
    NotFound,
}

/// [`PageReply`] as characters.
pub enum PageReplyView {
    Redirect(Seq<char>),
    BuiltIn(Seq<char>),
    Own(Seq<char>, Seq<char>),
    NotFound,
}

impl View for PageReply {
    type V = PageReplyView;

    open spec fn view(&self) -> PageReplyView {
        match *self {
            PageReply::Redirect(l) => PageReplyView::Redirect(l@),
            PageReply::BuiltIn(t) => PageReplyView::BuiltIn(t@),
            PageReply::Own(t, body) => PageReplyView::Own(t@, body@),
            PageReply::NotFound => PageReplyView::NotFound,
        }
    }
}

/// What is sent for a page: its own text with the type of the text, or `default`.
pub open spec fn page_reply(content: app::PageView, default: PageReplyView) -> PageReplyView {
    match content {
        app::PageView::Default => default,
        app::PageView::Text(s) => PageReplyView::Own(TEXT_PLAIN@, s),
        app::PageView::Html(s) => PageReplyView::Own(TEXT_HTML@, s),
    }
}

/// What is sent for a static file: its own text or the one that comes with the server, with the
/// type of the file.
pub open spec fn file_reply(content: app::PageView, content_type: Seq<char>) -> PageReplyView {
    match content {
        app::PageView::Default => PageReplyView::BuiltIn(content_type),
        app::PageView::Text(s) => PageReplyView::Own(content_type, s),
        app::PageView::Html(s) => PageReplyView::Own(content_type, s),
    }
}

fn reply_page(content: &PageContent, default: PageReply) -> (r: PageReply)
    ensures
        r@ == page_reply(content@, default@),
{
    match content {
        PageContent::Default => default,
        PageContent::Text(s) => PageReply::Own(TEXT_PLAIN, s.clone()),
        PageContent::Html(s) => PageReply::Own(TEXT_HTML, s.clone()),
    }
}

fn reply_file(content: &PageContent, content_type: &'static str) -> (r: PageReply)
    ensures
        r@ == file_reply(content@, content_type@),
{
    match content {
        PageContent::Default => PageReply::BuiltIn(content_type),
        PageContent::Text(s) => PageReply::Own(content_type, s.clone()),
        PageContent::Html(s) => PageReply::Own(content_type, s.clone()),
    }
}

/// The root page; by default a redirection to the state of the server.
pub fn handle_root(config: &AppConfig) -> (r: PageReply)
    ensures
        r@ == page_reply(config@.pages.root, PageReplyView::Redirect("/health"@)),
{
    reply_page(&config.root_content, PageReply::Redirect("/health"))
}

/// The page of the tokens.
pub fn handle_tokeninfo_page(config: &AppConfig) -> (r: PageReply)
    ensures
        r@ == page_reply(config@.pages.tokeninfo, PageReplyView::BuiltIn(TEXT_HTML@)),
{
    reply_page(&config.tokeninfo_content, PageReply::BuiltIn(TEXT_HTML))
}

/// The page of the request log.
pub fn handle_logs(config: &AppConfig) -> (r: PageReply)
    ensures
        r@ == page_reply(config@.pages.logs, PageReplyView::BuiltIn(TEXT_HTML@)),
{
    reply_page(&config.logs_content, PageReply::BuiltIn(TEXT_HTML))
}

/// The page of the configuration.
pub fn handle_config_page(config: &AppConfig) -> (r: PageReply)
    ensures
        r@ == page_reply(config@.pages.config, PageReplyView::BuiltIn(TEXT_HTML@)),
{
    reply_page(&config.config_content, PageReply::BuiltIn(TEXT_HTML))
}

/// A static file.
pub fn handle_static(config: &AppConfig, path: &str) -> (r: PageReply)
    ensures
        r@ == (if path@ == "shared-styles.css"@ {
            file_reply(config@.pages.shared_styles, TEXT_CSS@)
        } else if path@ == "shared.js"@ {
            file_reply(config@.pages.shared_js, TEXT_JAVASCRIPT@)
        } else {
            PageReplyView::NotFound
        }),
{
    if text::equal(path, "shared-styles.css") {
        reply_file(&config.shared_styles_content, TEXT_CSS)
    } else if text::equal(path, "shared.js") {
        reply_file(&config.shared_js_content, TEXT_JAVASCRIPT)
    } else {
        PageReply::NotFound
    }
}

/// Whole seconds in a span of nanoseconds, towards zero.
pub open spec fn whole_seconds(nanos: int) -> int {
    if nanos >= 0 {
        nanos / 1_000_000_000
    } else {
        -((-nanos) / 1_000_000_000)
    }
}

/// How long the server has been running, in whole seconds.
pub fn uptime(config: &AppConfig, now: i64) -> (r: i64)
    ensures
        r == whole_seconds(now - config.start_time),
{
    let span: i128 = now as i128 - config.start_time as i128;
    if span >= 0 {
        (span / 1_000_000_000) as i64
    } else {
        let back: i128 = -span;
        -((back / 1_000_000_000) as i64)
    }
}

/// The paths that the server answers, as its state lists them.
pub open spec fn endpoint_list(prefix: Seq<char>) -> Seq<Seq<char>> {
    seq![
        prefix + "/v1/chat/completions"@,
        prefix + "/v1/models"@,
        "/checksum"@,
        "/tokeninfo"@,
        "/update-tokeninfo"@,
        "/get-tokeninfo"@,
        "/logs"@,
        "/env-example"@,
        "/config"@,
        "/static"@,
    ]
}

/// The paths that the server answers.
pub fn endpoints(config: &AppConfig) -> (r: Vec<String>)
    ensures
        text::views(r@) == endpoint_list(config@.route_prefix),
{
    let mut r: Vec<String> = Vec::new();
    r.push(config.route_prefix.clone().concat("/v1/chat/completions"));
    r.push(config.route_prefix.clone().concat("/v1/models"));
    r.push("/checksum".to_owned());
    r.push("/tokeninfo".to_owned());
    r.push("/update-tokeninfo".to_owned());
    r.push("/get-tokeninfo".to_owned());
    r.push("/logs".to_owned());
    r.push("/env-example".to_owned());
    r.push("/config".to_owned());
    r.push("/static".to_owned());
    assert(text::views(r@) =~= endpoint_list(config@.route_prefix));
    r
}

/// The files and texts of a token update.
pub open spec fn token_writes(
    config: app::ConfigView,
    tokens: Seq<char>,
    token_list: Option<Seq<char>>,
) -> Seq<(Seq<char>, Seq<char>)> {
    match token_list {
        Some(list) => seq![(config.token_file, tokens), (config.token_list_file, list)],
        None => seq![(config.token_file, tokens)],
    }
}

/// The views of files and texts.
pub open spec fn pair_views(v: Seq<(String, String)>) -> Seq<(Seq<char>, Seq<char>)> {
    Seq::new(v.len(), |i: int| (v[i].0@, v[i].1@))
}

/// Returns the files that a token update writes, in order, each with its text.
///
/// # Errors
///
/// Returns an error if the request is not authorized.
pub fn handle_update_tokeninfo_post(
    config: &AppConfig,
    header: Option<&str>,
    request: TokenUpdateRequest,
) -> (r: Result<Vec<(String, String)>, AuthError>)
    ensures
        match r {
            Ok(writes) => bearer(opt_str(header)) == Some(config@.auth_token) && pair_views(writes@)
                == token_writes(config@, request.tokens@, text::opt(request.token_list)),
            Err(AuthError::Missing) => bearer(opt_str(header)) is None,
            Err(AuthError::Wrong) => bearer(opt_str(header)) is Some && bearer(opt_str(header))
                != Some(config@.auth_token),
        },
{
    let TokenUpdateRequest { tokens, token_list } = request;
    match authorize(header, config.auth_token.as_str()) {
        Ok(()) => {
            let mut writes: Vec<(String, String)> = Vec::new();
            writes.push((config.token_file.clone(), tokens));
            if let Some(list) = token_list {
                writes.push((config.token_list_file.clone(), list));
            }
            assert(pair_views(writes@) =~= token_writes(
                config@,
                request.tokens@,
                text::opt(request.token_list),
            ));
            Ok(writes)
        },
        Err(e) => Err(e),
    }
}

/// What a configuration request is answered.
#[derive(Debug, Clone, PartialEq)]
pub enum ConfigReply {
    /// The configuration.
    Current(ConfigData),
    /// The configuration was changed.
    Updated,
    /// The configuration was reset.
    Reset,
}

/// The part of the configuration that can be changed.
#[derive(Debug, Clone, PartialEq)]
pub struct ConfigData {
    pub root_content: PageContent,
    pub logs_content: PageContent,
    pub config_content: PageContent,
    pub tokeninfo_content: PageContent,
    pub shared_styles_content: PageContent,
    pub shared_js_content: PageContent,
    pub vision_ability: String,
    pub enable_slow_pool: Option<bool>,
}

/// [`ConfigData`] as characters.
pub struct ConfigDataView {
    pub pages: app::PagesView,
    pub vision_ability: Seq<char>,
    pub enable_slow_pool: Option<bool>,
}

impl View for ConfigData {
    type V = ConfigDataView;

    open spec fn view(&self) -> ConfigDataView {
        ConfigDataView {
            pages: app::PagesView {
                root: self.root_content@,
                logs: self.logs_content@,
                config: self.config_content@,
                tokeninfo: self.tokeninfo_content@,
                shared_styles: self.shared_styles_content@,
                shared_js: self.shared_js_content@,
            },
            vision_ability: self.vision_ability@,
            enable_slow_pool: self.enable_slow_pool,
        }
    }
}

/// Why a configuration request is refused.
#[derive(Debug, Clone, PartialEq)]
pub enum ConfigError {
    /// The request is not authorized.
    Unauthorized(AuthError),
    /// The content type is none of "default", "text" and "html".
    ContentType,
    /// The page to be changed does not exist.
    Update(&'static str),
    /// The page to be reset does not exist.
    Reset(&'static str),
    /// The action is none of "get", "update" and "reset".
    Action,
}

impl ConfigError {
    /// The status code of the answer.
    pub open spec fn status_code(self) -> u16 {
        match self {
            ConfigError::Unauthorized(_) => 401,
            ConfigError::ContentType | ConfigError::Action => 400,
            ConfigError::Update(_) | ConfigError::Reset(_) => 500,
        }
    }

    /// Returns the status code of the answer.
    pub fn status(&self) -> (r: u16)
        ensures
            r == self.status_code(),
    {
        match self {
            ConfigError::Unauthorized(_) => 401,
            ConfigError::ContentType | ConfigError::Action => 400,
            ConfigError::Update(_) | ConfigError::Reset(_) => 500,
        }
    }

    /// The text of the answer.
    pub open spec fn text(self) -> Seq<char> {
        match self {
            ConfigError::Unauthorized(AuthError::Missing) => "未提供认证令牌"@,
            ConfigError::Unauthorized(AuthError::Wrong) => "无效的认证令牌"@,
            ConfigError::ContentType => "无效的内容类型"@,
            ConfigError::Update(e) => "更新页面内容失败: "@ + e@,
            ConfigError::Reset(e) => "重置页面内容失败: "@ + e@,
            ConfigError::Action => "无效的操作类型"@,
        }
    }

    /// Returns the text of the answer.
    pub fn message(&self) -> (r: String)
        ensures
            r@ == self.text(),
    {
        match self {
            ConfigError::Unauthorized(AuthError::Missing) => "未提供认证令牌".to_owned(),
            ConfigError::Unauthorized(AuthError::Wrong) => "无效的认证令牌".to_owned(),
            ConfigError::ContentType => "无效的内容类型".to_owned(),
            ConfigError::Update(e) => "更新页面内容失败: ".to_owned().concat(e),
            ConfigError::Reset(e) => "重置页面内容失败: ".to_owned().concat(e),
            ConfigError::Action => "无效的操作类型".to_owned(),
        }
    }
}

/// The text of a successful answer.
pub fn config_message(reply: &ConfigReply) -> (r: Option<&'static str>)
    ensures
        match *reply {
            ConfigReply::Current(_) => r is None,
            ConfigReply::Updated => r is Some && (r->0)@ == "配置已更新"@,
            ConfigReply::Reset => r is Some && (r->0)@ == "配置已重置"@,
        },
{
    match reply {
        ConfigReply::Current(_) => None,
        ConfigReply::Updated => Some("配置已更新"),
        ConfigReply::Reset => Some("配置已重置"),
    }
}

/// A configuration request as characters.
pub struct ConfigRequestView {
    pub action: Seq<char>,
    pub path: Seq<char>,
    pub content_type: Option<Seq<char>>,
    pub content: Seq<char>,
    pub vision_ability: Option<Seq<char>>,
    pub enable_slow_pool: Option<bool>,
}

impl View for ConfigUpdateRequest {
    type V = ConfigRequestView;

    open spec fn view(&self) -> ConfigRequestView {
        ConfigRequestView {
            action: self.action@,
            path: self.path@,
            content_type: text::opt(self.content_type),
            content: self.content@,
            vision_ability: text::opt(self.vision_ability),
            enable_slow_pool: self.enable_slow_pool,
        }
    }
}

/// The page content that a request names; nothing where its type is unknown.
pub open spec fn requested_content(content_type: Seq<char>, content: Seq<char>) -> Option<
    app::PageView,
> {
    if content_type == "default"@ {
        Some(app::PageView::Default)
    } else if content_type == "text"@ {
        Some(app::PageView::Text(content))
    } else if content_type == "html"@ {
        Some(app::PageView::Html(content))
    } else {
        None
    }
}

/// The configuration after an update; the error where a page was to be changed and cannot be.
pub open spec fn updated(c: app::ConfigView, q: ConfigRequestView) -> Result<
    app::ConfigView,
    ConfigError,
> {
    let pages = if q.path.len() > 0 && q.content_type is Some {
        match requested_content(q.content_type->0, q.content) {
            Some(content) => match app::page_set(c.pages, q.path, content) {
                Some(pages) => Ok(pages),
                None => Err(ConfigError::Update(app::INVALID_PATH)),
            },
            None => Err(ConfigError::ContentType),
        }
    } else {
        Ok(c.pages)
    };
    match pages {
        Ok(pages) => Ok(
            app::ConfigView {
                pages,
                vision_ability: match q.vision_ability {
                    Some(v) => v,
                    None => c.vision_ability,
                },
                enable_slow_pool: match q.enable_slow_pool {
                    Some(b) => Some(b),
                    None => c.enable_slow_pool,
                },
                ..c
            },
        ),
        Err(e) => Err(e),
    }
}

/// The configuration after a reset; the error where a page was to be reset and does not exist.
pub open spec fn reset(c: app::ConfigView, q: ConfigRequestView) -> Result<
    app::ConfigView,
    ConfigError,
> {
    let pages = if q.path.len() > 0 {
        match app::page_set(c.pages, q.path, app::PageView::Default) {
            Some(pages) => Ok(pages),
            None => Err(ConfigError::Reset(app::INVALID_PATH)),
        }
    } else {
        Ok(c.pages)
    };
    match pages {
        Ok(pages) => Ok(
            app::ConfigView {
                pages,
                vision_ability: if q.vision_ability is Some {
                    "base64"@
                } else {
                    c.vision_ability
                },
                enable_slow_pool: if q.enable_slow_pool is Some {
                    None
                } else {
                    c.enable_slow_pool
                },
                ..c
            },
        ),
        Err(e) => Err(e),
    }
}

/// The configuration after a request; the error where it is refused.
pub open spec fn configured(
    c: app::ConfigView,
    header: Option<Seq<char>>,
    q: ConfigRequestView,
) -> Result<app::ConfigView, ConfigError> {
    match bearer(header) {
        None => Err(ConfigError::Unauthorized(AuthError::Missing)),
        Some(token) => if token != c.auth_token {
            Err(ConfigError::Unauthorized(AuthError::Wrong))
        } else if q.action == "get"@ {
            Ok(c)
        } else if q.action == "update"@ {
            updated(c, q)
        } else if q.action == "reset"@ {
            reset(c, q)
        } else {
            Err(ConfigError::Action)
        },
    }
}

fn current(config: &AppConfig) -> (r: ConfigData)
    ensures
        r@ == (ConfigDataView {
            pages: config@.pages,
            vision_ability: config@.vision_ability,
            enable_slow_pool: config@.enable_slow_pool,
        }),
{
    ConfigData {
        root_content: config.root_content.copy(),
        logs_content: config.logs_content.copy(),
        config_content: config.config_content.copy(),
        tokeninfo_content: config.tokeninfo_content.copy(),
        shared_styles_content: config.shared_styles_content.copy(),
        shared_js_content: config.shared_js_content.copy(),
        vision_ability: config.vision_ability.clone(),
        enable_slow_pool: config.enable_slow_pool,
    }
}

fn update_config(config: &mut AppConfig, request: ConfigUpdateRequest) -> (r: Result<
    (),
    ConfigError,
>)
    ensures
        match updated(old(config)@, request@) {
            Ok(c) => r is Ok && final(config)@ == c,
            Err(e) => r == Err::<(), ConfigError>(e) && final(config)@ == old(config)@,
        },
{
    let ConfigUpdateRequest { action, path, content_type, content, vision_ability, enable_slow_pool } =
        request;
    if path.as_str().unicode_len() > 0 {
        if let Some(kind) = content_type {
            let page = if text::equal(kind.as_str(), "default") {
                PageContent::Default
            } else if text::equal(kind.as_str(), "text") {
                PageContent::Text(content)
            } else if text::equal(kind.as_str(), "html") {
                PageContent::Html(content)
            } else {
                return Err(ConfigError::ContentType);
            };
            match config.update_page_content(path.as_str(), page) {
                Ok(()) => {},
                Err(e) => return Err(ConfigError::Update(e)),
            }
        }
    }
    if let Some(ability) = vision_ability {
        config.update_vision_ability(ability);
    }
    if let Some(enable) = enable_slow_pool {
        config.update_slow_pool(enable);
    }
    Ok(())
}

fn reset_config(config: &mut AppConfig, request: ConfigUpdateRequest) -> (r: Result<
    (),
    ConfigError,
>)
    ensures
        match reset(old(config)@, request@) {
            Ok(c) => r is Ok && final(config)@ == c,
            Err(e) => r == Err::<(), ConfigError>(e) && final(config)@ == old(config)@,
        },
{
    if request.path.as_str().unicode_len() > 0 {
        match config.reset_page_content(request.path.as_str()) {
            Ok(()) => {},
            Err(e) => return Err(ConfigError::Reset(e)),
        }
    }
    if request.vision_ability.is_some() {
        config.reset_vision_ability();
    }
    if request.enable_slow_pool.is_some() {
        config.reset_slow_pool();
    }
    Ok(())
}

/// Reads, changes or resets the configuration.
///
/// # Errors
///
/// Returns an error if the request is not authorized, its action or content type is unknown or
/// its path names no page; nothing is changed then.
pub fn handle_config_update(
    config: &mut AppConfig,
    header: Option<&str>,
    request: ConfigUpdateRequest,
) -> (r: Result<ConfigReply, ConfigError>)
    ensures
        match configured(old(config)@, opt_str(header), request@) {
            Ok(c) => {
                &&& final(config)@ == c
                &&& match r {
                    Ok(ConfigReply::Current(data)) => request@.action == "get"@ && data@ == (
                    ConfigDataView {
                        pages: c.pages,
                        vision_ability: c.vision_ability,
                        enable_slow_pool: c.enable_slow_pool,
                    }),
                    Ok(ConfigReply::Updated) => request@.action == "update"@,
                    Ok(ConfigReply::Reset) => request@.action == "reset"@,
                    Err(_) => false,
                }
            },
            Err(e) => r == Err::<ConfigReply, ConfigError>(e) && final(config)@ == old(config)@,
        },
{
    match authorize(header, config.auth_token.as_str()) {
        Ok(()) => {},
        Err(e) => return Err(ConfigError::Unauthorized(e)),
    }
    if text::equal(request.action.as_str(), "get") {
        Ok(ConfigReply::Current(current(config)))
    } else if text::equal(request.action.as_str(), "update") {
        match update_config(config, request) {
            Ok(()) => Ok(ConfigReply::Updated),
            Err(e) => Err(e),
        }
    } else if text::equal(request.action.as_str(), "reset") {
        match reset_config(config, request) {
            Ok(()) => Ok(ConfigReply::Reset),
            Err(e) => Err(e),
        }
    } else {
        Err(ConfigError::Action)
    }
}

/// A request cannot change what authorizes requests, nor the files, the prefix, the version or the
/// time of the start.
pub proof fn settings_stay(c: app::ConfigView, header: Option<Seq<char>>, q: ConfigRequestView)
    requires
        configured(c, header, q) is Ok,
    ensures
        ({
            let d = configured(c, header, q)->Ok_0;
            &&& d.auth_token == c.auth_token
            &&& d.token_file == c.token_file
            &&& d.token_list_file == c.token_list_file
            &&& d.route_prefix == c.route_prefix
            &&& d.version == c.version
            &&& d.start_time == c.start_time
        }),
{
}

/// Without the token of the server a request is refused, whatever it asks for.
pub proof fn unauthorized_requests_are_refused(
    c: app::ConfigView,
    header: Option<Seq<char>>,
    q: ConfigRequestView,
)
    requires
        bearer(header) != Some(c.auth_token),
    ensures
        configured(c, header, q) matches Err(e) && e is Unauthorized && e.status_code() == 401,
{
}

/// Sending the same request again changes nothing more.
pub proof fn requests_are_idempotent(
    c: app::ConfigView,
    header: Option<Seq<char>>,
    q: ConfigRequestView,
)
    requires
        configured(c, header, q) is Ok,
    ensures
        configured(configured(c, header, q)->Ok_0, header, q) == configured(c, header, q),
{
    reveal_strlit("/");
    reveal_strlit("/logs");
    reveal_strlit("/config");
    reveal_strlit("/tokeninfo");
    reveal_strlit("/static/shared-styles.css");
    reveal_strlit("/static/shared.js");
}

/// What an update set, a reset of the same page and settings takes back to the default.
pub proof fn reset_takes_update_back(c: app::ConfigView, q: ConfigRequestView)
    requires
        updated(c, q) is Ok,
    ensures
        reset(updated(c, q)->Ok_0, q) == reset(c, q),
        q.path.len() == 0 || q.content_type is Some ==> reset(c, q) is Ok,
{
    reveal_strlit("/");
    reveal_strlit("/logs");
    reveal_strlit("/config");
    reveal_strlit("/tokeninfo");
    reveal_strlit("/static/shared-styles.css");
    reveal_strlit("/static/shared.js");
}

} // verus!
